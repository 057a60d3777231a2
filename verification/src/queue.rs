use vstd::prelude::*;
use crate::element::faithful;

pub mod bankers_queue;
pub mod hood_melville_queue;
pub mod naive_queue;
pub mod physicists_queue;
pub mod real_time_queue;

verus! {

/// A persistent first-in, first-out queue.
pub trait Queue<T: Clone>: Sized {
    /// The elements, the next to leave first.
    spec fn elems(&self) -> Seq<T>;

    fn empty() -> (q: Self)
        ensures
            q.elems() == Seq::<T>::empty(),
    ;

    fn is_empty(&self) -> (b: bool)
        requires
            faithful::<T>(),
        ensures
            b == (self.elems().len() == 0),
    ;

    fn snoc(&self, x: T) -> (q: Self)
        requires
            faithful::<T>(),
            self.elems().len() < usize::MAX,
        ensures
            q.elems() == self.elems().push(x),
    ;

    fn head(&self) -> (r: Option<T>)
        requires
            faithful::<T>(),
        ensures
            r == first(self.elems()),
    ;

    fn tail(&self) -> (r: Option<Self>)
        requires
            faithful::<T>(),
        ensures
            match r {
                Some(q) => self.elems().len() > 0 && q.elems() == self.elems().skip(1),
                None => self.elems().len() == 0,
            },
    ;
}

/// The first element of a sequence, where there is one.
pub open spec fn first<T>(s: Seq<T>) -> Option<T> {
    if s.len() == 0 {
        None
    } else {
        Some(s[0])
    }
}

/// Persistence: what a version answers is fixed by its own elements. Two
/// `head`s of a version `q` agree, and so do two `tail`s, whatever versions
/// were derived from `q` between the two calls.
pub proof fn lemma_queue_persistent<T: Clone, Q: Queue<T>>(
    q: Q,
    head_before: Option<T>,
    head_after: Option<T>,
    tail_before: Q,
    tail_after: Q,
)
    requires
        head_before == first(q.elems()),
        head_after == first(q.elems()),
        tail_before.elems() == q.elems().skip(1),
        tail_after.elems() == q.elems().skip(1),
    ensures
        head_before == head_after,
        tail_before.elems() == tail_after.elems(),
{
}

/// First in, first out: an arrival at the back of a queue that is not empty
/// changes neither who leaves next nor the order of those behind.
pub proof fn lemma_queue_fifo<T: Clone, Q: Queue<T>>(q: Q, x: T, longer: Q)
    requires
        q.elems().len() > 0,
        longer.elems() == q.elems().push(x),
    ensures
        first(longer.elems()) == first(q.elems()),
        longer.elems().skip(1) == q.elems().skip(1).push(x),
{
}

} // verus!
