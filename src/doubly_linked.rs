use crate::deque_model::{lemma_drain_front, pops_front, popped, run, step, DequeOp};
use vstd::prelude::*;

verus! {

/// One cell of the list: a value and the slot numbers of its neighbours.
pub struct Node<T> {
    data: T,
    next: Option<usize>,
    prev: Option<usize>,
}

/// A doubly linked list whose nodes live in a table of slots.
///
/// Links are slot numbers rather than references, so the forward and
/// backward chains never form an ownership cycle. A removed node leaves an
/// empty slot behind, which later insertions may reuse.
pub struct LinkedList<T> {
    nodes: Vec<Option<Node<T>>>,
    free: Vec<usize>,
    first: Option<usize>,
    last: Option<usize>,
    len: usize,
    /// The slots of the list's nodes, from first to last.
    order: Ghost<Seq<usize>>,
}

impl<T> View for LinkedList<T> {
    type V = Seq<T>;

    /// The values, from first to last.
    closed spec fn view(&self) -> Seq<T> {
        self.order@.map_values(|h: usize| self.nodes@[h as int]->Some_0.data)
    }
}

impl<T> LinkedList<T> {
    /// The node at position `k` of the list is stored and linked to its
    /// neighbours in both directions.
    closed spec fn linked_at(&self, k: int) -> bool {
        let o = self.order@;
        &&& o[k] < self.nodes@.len()
        &&& self.nodes@[o[k] as int] is Some
        &&& self.nodes@[o[k] as int]->Some_0.prev == (if k == 0 {
            None
        } else {
            Some(o[k - 1])
        })
        &&& self.nodes@[o[k] as int]->Some_0.next == (if k == o.len() - 1 {
            None
        } else {
            Some(o[k + 1])
        })
    }

    /// The slots form one simple chain from `first` to `last` of `len` nodes.
    pub closed spec fn wf(&self) -> bool {
        let o = self.order@;
        &&& self.len as nat == o.len()
        &&& o.len() == 0 ==> self.first is None && self.last is None
        &&& o.len() > 0 ==> self.first == Some(o[0]) && self.last == Some(o[o.len() - 1])
        &&& forall|k: int| 0 <= k < o.len() ==> #[trigger] self.linked_at(k)
        &&& forall|i: int, j: int| 0 <= i < j < o.len() ==> o[i] != o[j]
    }

    /// An empty list.
    pub fn new() -> (r: Self)
        ensures
            r.wf(),
            r@ == Seq::<T>::empty(),
    {
        let r = Self {
            nodes: Vec::new(),
            free: Vec::new(),
            first: None,
            last: None,
            len: 0,
            order: Ghost(Seq::empty()),
        };
        proof {
            assert(r@ =~= Seq::<T>::empty());
        }
        r
    }

    /// Number of values in the list.
    pub fn len(&self) -> (r: usize)
        requires
            self.wf(),
        ensures
            r == self@.len(),
    {
        self.len
    }

    /// Drops every value at once. The slot table is released as one vector,
    /// so no chain of nodes is torn down recursively.
    pub fn clear(&mut self)
        ensures
            final(self).wf(),
            final(self)@ == Seq::<T>::empty(),
    {
        self.nodes = Vec::new();
        self.free = Vec::new();
        self.first = None;
        self.last = None;
        self.len = 0;
        self.order = Ghost(Seq::empty());
        proof {
            assert(self@ =~= Seq::<T>::empty());
        }
    }

    /// Adds a value after the last one.
    pub fn push_back(&mut self, data: T)
        requires
            old(self).wf(),
            old(self)@.len() < usize::MAX,
        ensures
            final(self).wf(),
            final(self)@ == old(self)@.push(data),
    {
        let ghost o = self.order@;
        let ghost n0 = self.nodes@;
        let prev = self.last;
        let h = Self::store(&mut self.nodes, &mut self.free, Node { data, next: None, prev });
        proof {
            assert forall|k: int| 0 <= k < o.len() implies o[k] != h by {
                assert(old(self).linked_at(k));
            }
        }
        match prev {
            None => {
                self.first = Some(h);
            },
            Some(l) => {
                proof {
                    assert(old(self).linked_at(o.len() - 1));
                }
                Self::set_next(&mut self.nodes, l, Some(h));
            },
        }
        self.last = Some(h);
        self.len += 1;
        self.order = Ghost(o.push(h));
        proof {
            let o2 = self.order@;
            assert forall|k: int| 0 <= k < o2.len() implies #[trigger] self.linked_at(k) by {
                if k < o.len() {
                    assert(old(self).linked_at(k));
                }
            }
            assert forall|k: int| 0 <= k < o.len() implies #[trigger] self.nodes@[o[k] as int]->Some_0.data
                == n0[o[k] as int]->Some_0.data by {
                assert(old(self).linked_at(k));
            }
            assert(self@ =~= old(self)@.push(data));
        }
    }

    /// Adds a value before the first one.
    pub fn push_front(&mut self, data: T)
        requires
            old(self).wf(),
            old(self)@.len() < usize::MAX,
        ensures
            final(self).wf(),
            final(self)@ == seq![data] + old(self)@,
    {
        let ghost o = self.order@;
        let ghost n0 = self.nodes@;
        let next = self.first;
        let h = Self::store(&mut self.nodes, &mut self.free, Node { data, next, prev: None });
        proof {
            assert forall|k: int| 0 <= k < o.len() implies o[k] != h by {
                assert(old(self).linked_at(k));
            }
        }
        match next {
            None => {
                self.last = Some(h);
            },
            Some(f) => {
                proof {
                    assert(old(self).linked_at(0));
                }
                Self::set_prev(&mut self.nodes, f, Some(h));
            },
        }
        self.first = Some(h);
        self.len += 1;
        self.order = Ghost(seq![h] + o);
        proof {
            let o2 = self.order@;
            assert forall|k: int| 0 <= k < o2.len() implies #[trigger] self.linked_at(k) by {
                if k > 0 {
                    assert(old(self).linked_at(k - 1));
                }
            }
            assert forall|i: int, j: int| 0 <= i < j < o2.len() implies o2[i] != o2[j] by {
                if i > 0 {
                    assert(o2[i] == o[i - 1]);
                }
                assert(o2[j] == o[j - 1]);
            }
            assert forall|k: int| 0 <= k < o.len() implies #[trigger] self.nodes@[o[k] as int]->Some_0.data
                == n0[o[k] as int]->Some_0.data by {
                assert(old(self).linked_at(k));
            }
            assert(self@ =~= seq![data] + old(self)@);
        }
    }

    /// Takes the first value, if any.
    pub fn pop_front(&mut self) -> (r: Option<T>)
        requires
            old(self).wf(),
        ensures
            final(self).wf(),
            old(self)@.len() == 0 ==> r is None && final(self)@ == old(self)@,
            old(self)@.len() > 0 ==> r == Some(old(self)@[0]) && final(self)@
                == old(self)@.drop_first(),
    {
        match self.first {
            None => None,
            Some(h) => {
                let ghost o = self.order@;
                let ghost n0 = self.nodes@;
                proof {
                    assert(old(self).linked_at(0));
                }
                let nx = Self::next_of(&self.nodes, h);
                let data = Self::take_data(&mut self.nodes, &mut self.free, h);
                match nx {
                    None => {
                        self.last = None;
                    },
                    Some(n) => {
                        proof {
                            assert(old(self).linked_at(1));
                        }
                        Self::set_prev(&mut self.nodes, n, None);
                    },
                }
                self.first = nx;
                self.len -= 1;
                self.order = Ghost(o.drop_first());
                proof {
                    let o2 = self.order@;
                    assert forall|k: int| 0 <= k < o2.len() implies #[trigger] self.linked_at(k) by {
                        assert(old(self).linked_at(k + 1));
                        assert(o2[k] == o[k + 1]);
                        assert(o[k + 1] != o[0]);
                        if k > 0 {
                            assert(o[k + 1] != o[1]);
                        }
                    }
                    assert forall|i: int, j: int| 0 <= i < j < o2.len() implies o2[i] != o2[j] by {
                        assert(o2[i] == o[i + 1]);
                        assert(o2[j] == o[j + 1]);
                    }
                    assert forall|k: int| 0 <= k < o2.len() implies #[trigger] self.nodes@[o2[k] as int]->Some_0.data
                        == n0[o2[k] as int]->Some_0.data by {
                        assert(old(self).linked_at(k + 1));
                        assert(o2[k] == o[k + 1]);
                        assert(o[k + 1] != o[0]);
                    }
                    assert(self@ =~= old(self)@.drop_first());
                }
                Some(data)
            },
        }
    }

    /// Takes the last value, if any.
    pub fn pop_back(&mut self) -> (r: Option<T>)
        requires
            old(self).wf(),
        ensures
            final(self).wf(),
            old(self)@.len() == 0 ==> r is None && final(self)@ == old(self)@,
            old(self)@.len() > 0 ==> r == Some(old(self)@.last()) && final(self)@
                == old(self)@.drop_last(),
    {
        match self.last {
            None => None,
            Some(h) => {
                let ghost o = self.order@;
                let ghost n0 = self.nodes@;
                let ghost m = o.len() - 1;
                proof {
                    assert(old(self).linked_at(m));
                }
                let pv = Self::prev_of(&self.nodes, h);
                let data = Self::take_data(&mut self.nodes, &mut self.free, h);
                match pv {
                    None => {
                        self.first = None;
                    },
                    Some(p) => {
                        proof {
                            assert(old(self).linked_at(m - 1));
                        }
                        Self::set_next(&mut self.nodes, p, None);
                    },
                }
                self.last = pv;
                self.len -= 1;
                self.order = Ghost(o.drop_last());
                proof {
                    let o2 = self.order@;
                    assert forall|k: int| 0 <= k < o2.len() implies #[trigger] self.linked_at(k) by {
                        assert(old(self).linked_at(k));
                        assert(o2[k] == o[k]);
                        assert(o[k] != o[m]);
                        if k < m - 1 {
                            assert(o[k] != o[m - 1]);
                        }
                    }
                    assert forall|k: int| 0 <= k < o2.len() implies #[trigger] self.nodes@[o2[k] as int]->Some_0.data
                        == n0[o2[k] as int]->Some_0.data by {
                        assert(old(self).linked_at(k));
                        assert(o[k] != o[m]);
                    }
                    assert(self@ =~= old(self)@.drop_last());
                }
                Some(data)
            },
        }
    }

    /// Walks forward from the first node to the slot of position `index`.
    fn slot_at(&self, index: usize) -> (h: usize)
        requires
            self.wf(),
            index < self@.len(),
        ensures
            h == self.order@[index as int],
    {
        let mut cur: usize = self.first.unwrap();
        let mut i: usize = 0;
        while i < index
            invariant
                self.wf(),
                index < self.order@.len(),
                i <= index,
                cur == self.order@[i as int],
            decreases index - i,
        {
            proof {
                assert(self.linked_at(i as int));
            }
            cur = Self::next_of(&self.nodes, cur).unwrap();
            i += 1;
        }
        cur
    }

    /// Removes and returns the value at `index`; returns `None`, leaving the
    /// list as it was, when `index` is not below the length.
    pub fn remove(&mut self, index: usize) -> (r: Option<T>)
        requires
            old(self).wf(),
        ensures
            final(self).wf(),
            index >= old(self)@.len() ==> r is None && final(self)@ == old(self)@,
            index < old(self)@.len() ==> r == Some(old(self)@[index as int]) && final(self)@
                == old(self)@.remove(index as int),
    {
        if index >= self.len {
            return None;
        }
        if index == 0 {
            let r = self.pop_front();
            proof {
                assert(old(self)@.drop_first() =~= old(self)@.remove(0));
            }
            return r;
        }
        if index == self.len - 1 {
            let r = self.pop_back();
            proof {
                assert(old(self)@.drop_last() =~= old(self)@.remove(index as int));
            }
            return r;
        }
        let ghost o = self.order@;
        let ghost n0 = self.nodes@;
        let ghost x = index as int;
        let h = self.slot_at(index);
        proof {
            assert(old(self).linked_at(x));
            assert(old(self).linked_at(x - 1));
            assert(old(self).linked_at(x + 1));
        }
        let p = Self::prev_of(&self.nodes, h).unwrap();
        let n = Self::next_of(&self.nodes, h).unwrap();
        let data = Self::take_data(&mut self.nodes, &mut self.free, h);
        Self::set_next(&mut self.nodes, p, Some(n));
        Self::set_prev(&mut self.nodes, n, Some(p));
        self.len -= 1;
        self.order = Ghost(o.remove(x));
        proof {
            let o2 = self.order@;
            assert forall|k: int| 0 <= k < o2.len() implies #[trigger] self.linked_at(k) by {
                if k < x {
                    assert(old(self).linked_at(k));
                    assert(o2[k] == o[k]);
                    assert(o[k] != o[x]);
                    assert(o[k] != o[x + 1]);
                    if k < x - 1 {
                        assert(o[k] != o[x - 1]);
                    }
                } else {
                    assert(old(self).linked_at(k + 1));
                    assert(o2[k] == o[k + 1]);
                    assert(o[k + 1] != o[x]);
                    assert(o[k + 1] != o[x - 1]);
                    if k > x {
                        assert(o[k + 1] != o[x + 1]);
                    }
                }
            }
            assert forall|i: int, j: int| 0 <= i < j < o2.len() implies o2[i] != o2[j] by {
                if i < x {
                    assert(o2[i] == o[i]);
                } else {
                    assert(o2[i] == o[i + 1]);
                }
                if j < x {
                    assert(o2[j] == o[j]);
                } else {
                    assert(o2[j] == o[j + 1]);
                }
            }
            assert forall|k: int| 0 <= k < o2.len() implies #[trigger] self.nodes@[o2[k] as int]->Some_0.data
                == n0[o2[k] as int]->Some_0.data by {
                if k < x {
                    assert(old(self).linked_at(k));
                    assert(o[k] != o[x]);
                } else {
                    assert(old(self).linked_at(k + 1));
                    assert(o[k + 1] != o[x]);
                }
            }
            assert(self@ =~= old(self)@.remove(x));
        }
        Some(data)
    }

    /// Inserts `data` so that it ends up at position `index`, shifting the
    /// values from there on one place back. `index` may equal the length.
    pub fn insert(&mut self, index: usize, data: T)
        requires
            old(self).wf(),
            index <= old(self)@.len(),
            old(self)@.len() < usize::MAX,
        ensures
            final(self).wf(),
            final(self)@ == old(self)@.insert(index as int, data),
    {
        if index == 0 {
            self.push_front(data);
            proof {
                assert(seq![data] + old(self)@ =~= old(self)@.insert(0, data));
            }
            return;
        }
        if index == self.len {
            self.push_back(data);
            proof {
                assert(old(self)@.push(data) =~= old(self)@.insert(index as int, data));
            }
            return;
        }
        let ghost o = self.order@;
        let ghost n0 = self.nodes@;
        let ghost x = index as int;
        let nx = self.slot_at(index);
        proof {
            assert(old(self).linked_at(x));
            assert(old(self).linked_at(x - 1));
        }
        let pv = Self::prev_of(&self.nodes, nx).unwrap();
        let h = Self::store(&mut self.nodes, &mut self.free, Node { data, next: Some(nx), prev: Some(pv) });
        proof {
            assert forall|k: int| 0 <= k < o.len() implies o[k] != h by {
                assert(old(self).linked_at(k));
            }
        }
        Self::set_next(&mut self.nodes, pv, Some(h));
        Self::set_prev(&mut self.nodes, nx, Some(h));
        self.len += 1;
        self.order = Ghost(o.insert(x, h));
        proof {
            let o2 = self.order@;
            assert forall|k: int| 0 <= k < o2.len() implies #[trigger] self.linked_at(k) by {
                if k < x {
                    assert(old(self).linked_at(k));
                    assert(o2[k] == o[k]);
                    assert(o[k] != o[x]);
                    if k < x - 1 {
                        assert(o[k] != o[x - 1]);
                    }
                } else if k > x {
                    assert(old(self).linked_at(k - 1));
                    assert(o2[k] == o[k - 1]);
                    assert(o[k - 1] != o[x - 1]);
                    if k > x + 1 {
                        assert(o[k - 1] != o[x]);
                    }
                }
            }
            assert forall|i: int, j: int| 0 <= i < j < o2.len() implies o2[i] != o2[j] by {
                if i > x {
                    assert(o2[i] == o[i - 1]);
                }
                if j > x {
                    assert(o2[j] == o[j - 1]);
                }
            }
            assert forall|k: int| 0 <= k < o.len() implies #[trigger] self.nodes@[o[k] as int]->Some_0.data
                == n0[o[k] as int]->Some_0.data by {
                assert(old(self).linked_at(k));
            }
            assert forall|k: int| 0 <= k < o2.len() implies #[trigger] self@[k]
                == old(self)@.insert(x, data)[k] by {
                if k > x {
                    assert(o2[k] == o[k - 1]);
                }
            }
            assert(self@ =~= old(self)@.insert(x, data));
        }
    }

    /// Moves every value of `other` after the last value of this list, in
    /// order, and leaves `other` empty. When this list is empty the two
    /// tables are exchanged whole; otherwise the values are moved one by one.
    pub fn append(&mut self, other: &mut LinkedList<T>)
        requires
            old(self).wf(),
            old(other).wf(),
            old(self)@.len() + old(other)@.len() <= usize::MAX,
        ensures
            final(self).wf(),
            final(other).wf(),
            final(self)@ == old(self)@ + old(other)@,
            final(other)@ == Seq::<T>::empty(),
    {
        if other.len == 0 {
            proof {
                assert(old(self)@ + old(other)@ =~= old(self)@);
                assert(other@ =~= Seq::<T>::empty());
            }
            return;
        }
        if self.len == 0 {
            std::mem::swap(self, other);
            proof {
                assert(old(self)@ + old(other)@ =~= self@);
                assert(other@ =~= Seq::<T>::empty());
            }
            return;
        }
        loop
            invariant_except_break
                self.wf(),
                other.wf(),
                self@ + other@ == old(self)@ + old(other)@,
                old(self)@.len() + old(other)@.len() <= usize::MAX,
            ensures
                self.wf(),
                other.wf(),
                self@ == old(self)@ + old(other)@,
                other@ == Seq::<T>::empty(),
            decreases other@.len(),
        {
            let ghost s0 = self@;
            let ghost t0 = other@;
            match other.pop_front() {
                Some(v) => {
                    proof {
                        assert((s0 + t0).len() == s0.len() + t0.len());
                        assert((old(self)@ + old(other)@).len() == old(self)@.len() + old(other)@.len());
                    }
                    self.push_back(v);
                    proof {
                        assert(s0 + t0 =~= self@ + other@);
                    }
                },
                None => {
                    proof {
                        assert(self@ + other@ =~= self@);
                    }
                    break;
                },
            }
        }
    }

    /// Draining step: takes the first value, as `pop_front` does.
    pub fn next(&mut self) -> (r: Option<T>)
        requires
            old(self).wf(),
        ensures
            final(self).wf(),
            old(self)@.len() == 0 ==> r is None && final(self)@ == old(self)@,
            old(self)@.len() > 0 ==> r == Some(old(self)@[0]) && final(self)@
                == old(self)@.drop_first(),
    {
        self.pop_front()
    }

    fn next_of(nodes: &Vec<Option<Node<T>>>, h: usize) -> (r: Option<usize>)
        requires
            h < nodes@.len(),
            nodes@[h as int] is Some,
        ensures
            r == nodes@[h as int]->Some_0.next,
    {
        match &nodes[h] {
            Some(n) => n.next,
            None => None,
        }
    }

    fn prev_of(nodes: &Vec<Option<Node<T>>>, h: usize) -> (r: Option<usize>)
        requires
            h < nodes@.len(),
            nodes@[h as int] is Some,
        ensures
            r == nodes@[h as int]->Some_0.prev,
    {
        match &nodes[h] {
            Some(n) => n.prev,
            None => None,
        }
    }

    fn set_next(nodes: &mut Vec<Option<Node<T>>>, h: usize, nx: Option<usize>)
        requires
            h < old(nodes)@.len(),
            old(nodes)@[h as int] is Some,
        ensures
            final(nodes)@ == old(nodes)@.update(
                h as int,
                Some(Node { next: nx, ..old(nodes)@[h as int]->Some_0 }),
            ),
    {
        let mut slot: Option<Node<T>> = None;
        nodes.set_and_swap(h, &mut slot);
        if let Some(mut n) = slot {
            n.next = nx;
            nodes.set(h, Some(n));
        }
    }

    fn set_prev(nodes: &mut Vec<Option<Node<T>>>, h: usize, pv: Option<usize>)
        requires
            h < old(nodes)@.len(),
            old(nodes)@[h as int] is Some,
        ensures
            final(nodes)@ == old(nodes)@.update(
                h as int,
                Some(Node { prev: pv, ..old(nodes)@[h as int]->Some_0 }),
            ),
    {
        let mut slot: Option<Node<T>> = None;
        nodes.set_and_swap(h, &mut slot);
        if let Some(mut n) = slot {
            n.prev = pv;
            nodes.set(h, Some(n));
        }
    }

    /// Empties slot `h` and hands back the value its node held.
    fn take_data(nodes: &mut Vec<Option<Node<T>>>, free: &mut Vec<usize>, h: usize) -> (r: T)
        requires
            h < old(nodes)@.len(),
            old(nodes)@[h as int] is Some,
        ensures
            r == old(nodes)@[h as int]->Some_0.data,
            final(nodes)@ == old(nodes)@.update(h as int, None),
    {
        let mut slot: Option<Node<T>> = None;
        nodes.set_and_swap(h, &mut slot);
        free.push(h);
        slot.unwrap().data
    }

    /// Stores `node` in an empty slot, reusing a freed one when it can, and
    /// returns that slot's number.
    fn store(nodes: &mut Vec<Option<Node<T>>>, free: &mut Vec<usize>, node: Node<T>) -> (h: usize)
        ensures
            h <= old(nodes)@.len(),
            h < old(nodes)@.len() ==> old(nodes)@[h as int] is None && final(nodes)@
                == old(nodes)@.update(h as int, Some(node)),
            h == old(nodes)@.len() ==> final(nodes)@ == old(nodes)@.push(Some(node)),
    {
        if let Some(c) = free.pop() {
            if c < nodes.len() && nodes[c].is_none() {
                nodes.set(c, Some(node));
                return c;
            }
        }
        let h = nodes.len();
        nodes.push(Some(node));
        h
    }
}

/// Removing a position below the length shortens the contents by exactly one.
pub proof fn lemma_remove_len<T>(s: Seq<T>, i: int)
    requires
        0 <= i < s.len(),
    ensures
        s.remove(i).len() == s.len() - 1,
{
}

/// Inserting `v` at `i` and then removing position `i` hands back `v` and
/// restores the contents, for every `i` from zero to the length.
pub proof fn lemma_insert_then_remove<T>(s: Seq<T>, i: int, v: T)
    requires
        0 <= i <= s.len(),
    ensures
        s.insert(i, v)[i] == v,
        s.insert(i, v).remove(i) == s,
        s.insert(i, v).remove(i).len() == s.len(),
{
    assert(s.insert(i, v).remove(i) =~= s);
}

/// After appending `t` to `s` the length is the sum of both lengths, and
/// draining from the front yields the values of `s` in order followed by
/// those of `t` in order.
pub proof fn lemma_append_then_drain<T>(s: Seq<T>, t: Seq<T>)
    ensures
        (s + t).len() == s.len() + t.len(),
        popped(s + t, pops_front((s + t).len())) == s + t,
        popped(s + t, pops_front((s + t).len())).subrange(0, s.len() as int) == s,
        popped(s + t, pops_front((s + t).len())).subrange(s.len() as int, (s + t).len() as int)
            == t,
        run(s + t, pops_front((s + t).len())) == Seq::<T>::empty(),
{
    lemma_drain_front(s + t);
    assert((s + t).subrange(0, s.len() as int) =~= s);
    assert((s + t).subrange(s.len() as int, (s + t).len() as int) =~= t);
}

/// On cleared contents both `pop_front` and `pop_back` return nothing and
/// leave the contents empty.
pub proof fn lemma_pops_after_clear<T>()
    ensures
        step(Seq::<T>::empty(), DequeOp::PopFront) == (Seq::<T>::empty(), Option::<T>::None),
        step(Seq::<T>::empty(), DequeOp::PopBack) == (Seq::<T>::empty(), Option::<T>::None),
{
}

} // verus!
