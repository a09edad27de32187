//! The meaning of a run of end operations on a double-ended sequence, and
//! the laws such runs obey. Each step below is exactly what the `ensures`
//! of the matching list operation states of the list's contents.
use vstd::prelude::*;

verus! {

/// One operation at an end of a double-ended sequence.
pub enum DequeOp<T> {
    PushBack(T),
    PushFront(T),
    PopBack,
    PopFront,
}

/// Contents after `op` on contents `s`, and the value it took out, if any.
pub open spec fn step<T>(s: Seq<T>, op: DequeOp<T>) -> (Seq<T>, Option<T>) {
    match op {
        DequeOp::PushBack(v) => (s.push(v), None),
        DequeOp::PushFront(v) => (seq![v] + s, None),
        DequeOp::PopBack => if s.len() == 0 {
            (s, None)
        } else {
            (s.drop_last(), Some(s.last()))
        },
        DequeOp::PopFront => if s.len() == 0 {
            (s, None)
        } else {
            (s.drop_first(), Some(s[0]))
        },
    }
}

/// Contents after performing `ops` in turn, starting from `s`.
pub open spec fn run<T>(s: Seq<T>, ops: Seq<DequeOp<T>>) -> Seq<T>
    decreases ops.len(),
{
    if ops.len() == 0 {
        s
    } else {
        run(step(s, ops[0]).0, ops.drop_first())
    }
}

/// The values taken out while performing `ops` from `s`, in the order the
/// pops produced them.
pub open spec fn popped<T>(s: Seq<T>, ops: Seq<DequeOp<T>>) -> Seq<T>
    decreases ops.len(),
{
    if ops.len() == 0 {
        Seq::empty()
    } else {
        let (s1, r) = step(s, ops[0]);
        let rest = popped(s1, ops.drop_first());
        match r {
            Some(v) => seq![v] + rest,
            None => rest,
        }
    }
}

/// Number of pushes among `ops`.
pub open spec fn push_count<T>(ops: Seq<DequeOp<T>>) -> nat
    decreases ops.len(),
{
    if ops.len() == 0 {
        0
    } else {
        let here: nat = match ops[0] {
            DequeOp::PushBack(_) | DequeOp::PushFront(_) => 1,
            _ => 0,
        };
        here + push_count(ops.drop_first())
    }
}

/// `push_back` of each of `xs` in turn.
pub open spec fn pushes_back<T>(xs: Seq<T>) -> Seq<DequeOp<T>> {
    xs.map_values(|v: T| DequeOp::PushBack(v))
}

/// `n` calls of `pop_front`.
pub open spec fn pops_front<T>(n: nat) -> Seq<DequeOp<T>> {
    Seq::new(n, |i: int| DequeOp::PopFront)
}

/// `n` calls of `pop_back`.
pub open spec fn pops_back<T>(n: nat) -> Seq<DequeOp<T>> {
    Seq::new(n, |i: int| DequeOp::PopBack)
}

/// After any run of pushes and pops, the length is the starting length plus
/// the number of pushes minus the number of pops that returned a value.
pub proof fn lemma_run_len<T>(s: Seq<T>, ops: Seq<DequeOp<T>>)
    ensures
        run(s, ops).len() + popped(s, ops).len() == s.len() + push_count(ops),
    decreases ops.len(),
{
    if ops.len() > 0 {
        lemma_run_len(step(s, ops[0]).0, ops.drop_first());
    }
}

/// Performing `a` then `b` is performing `a + b`.
pub proof fn lemma_run_concat<T>(s: Seq<T>, a: Seq<DequeOp<T>>, b: Seq<DequeOp<T>>)
    ensures
        run(s, a + b) == run(run(s, a), b),
        popped(s, a + b) == popped(s, a) + popped(run(s, a), b),
    decreases a.len(),
{
    if a.len() == 0 {
        assert(a + b =~= b);
        assert(popped(s, a) + popped(s, b) =~= popped(s, b));
    } else {
        let s1 = step(s, a[0]).0;
        assert((a + b)[0] == a[0]);
        assert((a + b).drop_first() =~= a.drop_first() + b);
        lemma_run_concat(s1, a.drop_first(), b);
        match step(s, a[0]).1 {
            Some(v) => {
                assert(seq![v] + (popped(s1, a.drop_first()) + popped(run(s, a), b)) =~= (seq![v]
                    + popped(s1, a.drop_first())) + popped(run(s, a), b));
            },
            None => {},
        }
    }
}

/// Pushing `xs` at the back appends them in order and pops nothing.
pub proof fn lemma_pushes_back<T>(s: Seq<T>, xs: Seq<T>)
    ensures
        run(s, pushes_back(xs)) == s + xs,
        popped(s, pushes_back(xs)) == Seq::<T>::empty(),
    decreases xs.len(),
{
    let ops = pushes_back(xs);
    if xs.len() == 0 {
        assert(s + xs =~= s);
    } else {
        assert(ops[0] == DequeOp::PushBack(xs[0]));
        assert(ops.drop_first() =~= pushes_back(xs.drop_first()));
        lemma_pushes_back(s.push(xs[0]), xs.drop_first());
        assert(s.push(xs[0]) + xs.drop_first() =~= s + xs);
    }
}

/// Popping at the front as many times as there are values yields them all,
/// first to last, and leaves nothing.
pub proof fn lemma_drain_front<T>(s: Seq<T>)
    ensures
        run(s, pops_front(s.len())) == Seq::<T>::empty(),
        popped(s, pops_front(s.len())) == s,
    decreases s.len(),
{
    let ops = pops_front::<T>(s.len());
    if s.len() == 0 {
    } else {
        assert(ops.drop_first() =~= pops_front::<T>(s.drop_first().len()));
        lemma_drain_front(s.drop_first());
        assert(seq![s[0]] + s.drop_first() =~= s);
    }
}

/// Popping at the back as many times as there are values yields them all,
/// last to first, and leaves nothing.
pub proof fn lemma_drain_back<T>(s: Seq<T>)
    ensures
        run(s, pops_back(s.len())) == Seq::<T>::empty(),
        popped(s, pops_back(s.len())) == s.reverse(),
    decreases s.len(),
{
    let ops = pops_back::<T>(s.len());
    if s.len() == 0 {
        assert(s.reverse() =~= Seq::<T>::empty());
    } else {
        assert(ops.drop_first() =~= pops_back::<T>(s.drop_last().len()));
        lemma_drain_back(s.drop_last());
        assert(seq![s.last()] + s.drop_last().reverse() =~= s.reverse());
    }
}

/// Values pushed at the back come out of the front in the order they were
/// pushed, and out of the back in the reverse order.
pub proof fn lemma_deque_order<T>(xs: Seq<T>)
    ensures
        popped(Seq::<T>::empty(), pushes_back(xs) + pops_front(xs.len())) == xs,
        popped(Seq::<T>::empty(), pushes_back(xs) + pops_back(xs.len())) == xs.reverse(),
{
    let e = Seq::<T>::empty();
    lemma_pushes_back(e, xs);
    assert(e + xs =~= xs);
    lemma_run_concat(e, pushes_back(xs), pops_front(xs.len()));
    lemma_run_concat(e, pushes_back(xs), pops_back(xs.len()));
    lemma_drain_front(xs);
    lemma_drain_back(xs);
    assert(e + xs =~= xs);
    assert(e + xs.reverse() =~= xs.reverse());
}

} // verus!
