use vstd::prelude::*;

verus! {

/// One cell of a singly linked list.
pub struct Node<T> {
    data: T,
    next: Option<Box<Node<T>>>,
}

/// A stack kept as a chain of boxed nodes, with its length cached.
pub struct LinkedList<T> {
    head: Option<Box<Node<T>>>,
    len: usize,
}

impl<T> Node<T> {
    /// The values held by a chain, from its head to its end.
    pub closed spec fn chain(n: Option<Box<Node<T>>>) -> Seq<T>
        decreases n,
    {
        match n {
            Some(b) => seq![b.data] + Self::chain(b.next),
            None => Seq::empty(),
        }
    }
}

impl<T> View for LinkedList<T> {
    type V = Seq<T>;

    /// The values from the top of the stack down.
    closed spec fn view(&self) -> Seq<T> {
        Node::<T>::chain(self.head)
    }
}

impl<T> LinkedList<T> {
    /// The cached length agrees with the chain.
    pub closed spec fn wf(&self) -> bool {
        self.len as nat == self@.len()
    }

    /// An empty stack.
    pub fn new() -> (r: Self)
        ensures
            r.wf(),
            r@ == Seq::<T>::empty(),
    {
        Self { head: None, len: 0 }
    }

    /// Puts a value on top.
    pub fn push(&mut self, data: T)
        requires
            old(self).wf(),
            old(self)@.len() < usize::MAX,
        ensures
            final(self).wf(),
            final(self)@ == seq![data] + old(self)@,
    {
        let next = self.head.take();
        let node = Node { data, next };
        self.head = Some(Box::new(node));
        self.len += 1;
    }

    /// Takes the value on top, if any.
    pub fn pop(&mut self) -> (r: Option<T>)
        requires
            old(self).wf(),
        ensures
            final(self).wf(),
            old(self)@.len() == 0 ==> r is None && final(self)@ == old(self)@,
            old(self)@.len() > 0 ==> r == Some(old(self)@[0]) && final(self)@ == old(self)@.drop_first(),
    {
        let head = self.head.take();
        match head {
            Some(boxed) => {
                let node = *boxed;
                let Node { data, next } = node;
                self.head = next;
                proof {
                    assert(old(self)@ == seq![data] + self@);
                    assert(old(self)@.drop_first() =~= self@);
                }
                self.len -= 1;
                Some(data)
            },
            _ => None,
        }
    }

    /// Number of values held.
    pub fn len(&self) -> (r: usize)
        requires
            self.wf(),
        ensures
            r == self@.len(),
    {
        self.len
    }

    /// Draining step: takes the value on top, as `pop` does.
    pub fn next(&mut self) -> (r: Option<T>)
        requires
            old(self).wf(),
        ensures
            final(self).wf(),
            old(self)@.len() == 0 ==> r is None && final(self)@ == old(self)@,
            old(self)@.len() > 0 ==> r == Some(old(self)@[0]) && final(self)@ == old(self)@.drop_first(),
    {
        self.pop()
    }
}

} // verus!
