//! Laws of the queue discipline.
//!
//! `RingBuffer::push` appends to the view and `RingBuffer::pop` removes the
//! view's first element; these lemmas state what that discipline guarantees
//! across calls: nothing is duplicated or invented, nothing is lost, and
//! values leave in the order they arrived.

use vstd::prelude::*;

verus! {

/// Conservation under push: after appending `value`, the queued multiset is
/// the old multiset plus exactly one occurrence of `value`. No element is
/// duplicated or dropped by a push.
pub proof fn lemma_push_conserves<T>(contents: Seq<T>, value: T)
    ensures
        contents.push(value).to_multiset() == contents.to_multiset().insert(value),
{
    contents.to_multiset_ensures();
}

/// Conservation under pop: the multiset before a pop is the multiset after
/// it plus exactly one occurrence of the popped front element. Every popped
/// value was queued, and is accounted for exactly once.
pub proof fn lemma_pop_conserves<T>(contents: Seq<T>)
    requires
        contents.len() > 0,
    ensures
        contents.to_multiset() == contents.subrange(
            1,
            contents.len() as int,
        ).to_multiset().insert(contents[0]),
{
    contents.to_multiset_ensures();
    assert(contents.remove(0) =~= contents.subrange(1, contents.len() as int));
    assert(contents.remove(0).to_multiset() =~= contents.to_multiset().remove(contents[0]));
    assert(contents.to_multiset().contains(contents[0])) by {
        assert(contents.contains(contents[0]));
    }
    assert(contents.to_multiset() =~= contents.to_multiset().remove(contents[0]).insert(
        contents[0],
    ));
}

/// No loss: draining a queue that shows `contents` yields exactly
/// `contents`, in order. The `i`-th pop returns `contents[i]` and leaves the
/// rest, so by induction the popped sequence equals the pushed sequence.
pub proof fn lemma_drain_in_order<T>(contents: Seq<T>, i: int)
    requires
        0 <= i < contents.len(),
    ensures
        contents.subrange(i, contents.len() as int)[0] == contents[i],
        contents.subrange(i, contents.len() as int).subrange(
            1,
            contents.len() - i,
        ) == contents.subrange(i + 1, contents.len() as int),
{
    assert(contents.subrange(i, contents.len() as int).subrange(1, contents.len() - i)
        =~= contents.subrange(i + 1, contents.len() as int));
}

/// First in, first out: if `first` was pushed before `second`, then however
/// many earlier elements have been popped off the front, `first` still
/// stands closer to the front than `second`.
pub proof fn lemma_fifo_order<T>(contents: Seq<T>, first: T, second: T, popped: int)
    requires
        0 <= popped <= contents.len(),
    ensures
        ({
            let queued = contents.push(first).push(second);
            let remaining = queued.subrange(popped, queued.len() as int);
            &&& remaining[contents.len() - popped] == first
            &&& remaining[contents.len() + 1 - popped] == second
            &&& contents.len() - popped < contents.len() + 1 - popped
        }),
{
}

/// Round trip: a push onto an empty queue followed by a pop returns the
/// pushed value and leaves the queue empty again.
pub proof fn lemma_push_pop_round_trip<T>(contents: Seq<T>, value: T)
    requires
        contents.len() == 0,
    ensures
        contents.push(value)[0] == value,
        contents.push(value).subrange(1, 1) == Seq::<T>::empty(),
{
    assert(contents.push(value).subrange(1, 1) =~= Seq::<T>::empty());
}

} // verus!
