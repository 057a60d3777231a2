use vstd::prelude::*;
use crate::element::faithful;
use crate::lazy::Op;
use crate::lazy::Stream;
use crate::lazy::StreamCell;
use crate::queue::Queue;
use crate::stack::Stack;

verus! {

/// A queue whose every operation forces a bounded number of cells: a front
/// sequence, a back list, and a schedule that walks the front one cell per
/// operation, so that a rotation is paid for before its cells are needed.
pub struct RealTimeQueue<T> {
    f: Stream<T>,
    r: Stack<T>,
    s: Stream<T>,
}

/// A bound on the rank of the rotation of a front of rank `f` onto an
/// accumulator of rank `a`.
pub open spec fn rotate_rank(f: nat, a: nat) -> nat {
    2 * f + a + 2
}

/// The front `f`, then the back list `r` reversed, then `a`: the back, one
/// longer than the front, is turned over one element for each cell of the
/// front that is forced.
pub(crate) fn rotate<T: Clone + 'static>(f: &Stream<T>, r: &Stack<T>, a: &Stream<T>) -> (t: Stream<T>)
    requires
        faithful::<T>(),
        r@.len() == f@.len() + 1,
    ensures
        t@ == f@ + r@.reverse() + a@,
        t.rank() <= rotate_rank(f.rank(), a.rank()),
    decreases f.rank(), 2nat,
{
    f.ranked();
    a.ranked();
    match f.force() {
        StreamCell::Nil => Stream::prepend(r.head().unwrap(), a.clone()),
        StreamCell::Cons(x, xs) => {
            xs.ranked();
            let ghost elems = f@ + r@.reverse() + a@;
            assert(elems =~= seq![x] + (xs@ + r@.reverse() + a@));
            Stream::suspend(
                Op::Rotate(x, xs, r.clone(), a.clone()),
                Ghost(elems),
                Ghost(rotate_rank(f.rank(), a.rank())),
            )
        },
    }
}

impl<T> View for RealTimeQueue<T> {
    type V = Seq<T>;

    closed spec fn view(&self) -> Seq<T> {
        self.f@ + self.r@.reverse()
    }
}

impl<T> Clone for RealTimeQueue<T> {
    fn clone(&self) -> (q: Self)
        ensures
            q == *self,
    {
        proof {
            use_type_invariant(self);
        }
        RealTimeQueue { f: self.f.clone(), r: self.r.clone(), s: self.s.clone() }
    }
}

impl<T> RealTimeQueue<T> {
    /// The schedule is as long as the front is longer than the back, and is
    /// the end of the front.
    #[verifier::type_invariant]
    spec fn wf(&self) -> bool {
        &&& self.s@.len() + self.r@.len() == self.f@.len()
        &&& self.s@ == self.f@.skip(self.f@.len() - self.s@.len())
    }

    /// The elements kept at the front, first to last.
    pub closed spec fn front(&self) -> Seq<T> {
        self.f@
    }

    /// The elements kept at the back, last to first.
    pub closed spec fn back(&self) -> Seq<T> {
        self.r@
    }

    /// What the schedule has still to walk: an end of the front.
    pub closed spec fn schedule(&self) -> Seq<T> {
        self.s@
    }

    /// Whether the queue is what one step of the schedule makes of a front
    /// `f`, a back `r` (last to first) and a schedule `s`. A schedule that
    /// has run out starts the rotation: the back, reversed, goes behind the
    /// front, the back is empty and the schedule is the new front. Else front
    /// and back are kept and the schedule loses its first cell. Either way
    /// the schedule is as long as the front is longer than the back.
    pub open spec fn stepped_from(&self, f: Seq<T>, r: Seq<T>, s: Seq<T>) -> bool {
        &&& self@ == self.front() + self.back().reverse()
        &&& self.schedule().len() + self.back().len() == self.front().len()
        &&& if s.len() == 0 {
            &&& self.front() == f + r.reverse()
            &&& self.back() == Seq::<T>::empty()
            &&& self.schedule() == self.front()
        } else {
            &&& self.front() == f
            &&& self.back() == r
            &&& self.schedule() == s.skip(1)
        }
    }

    /// The queue with no element.
    pub fn empty() -> (q: Self)
        ensures
            q@ == Seq::<T>::empty(),
    {
        let f = Stream::empty();
        let r = Stack::empty();
        let s = Stream::empty();
        assert(s@ =~= f@.skip(0));
        RealTimeQueue { f, r, s }
    }
}

impl<T: Clone + 'static> RealTimeQueue<T> {
    /// Whether the queue holds no element.
    pub fn is_empty(&self) -> (b: bool)
        requires
            faithful::<T>(),
        ensures
            b == (self@.len() == 0),
    {
        proof {
            use_type_invariant(self);
        }
        self.f.is_empty().force()
    }

    /// One step of the schedule: forces its next cell, or, where it has run
    /// out, starts the rotation of the back onto the front.
    fn exec(f: Stream<T>, r: Stack<T>, s: Stream<T>) -> (q: Self)
        requires
            faithful::<T>(),
            s@.len() + r@.len() == f@.len() + 1,
            s@.len() > 0 ==> s@.skip(1) == f@.skip(f@.len() - s@.len() + 1),
        ensures
            q@ == f@ + r@.reverse(),
            q.stepped_from(f@, r@, s@),
            s@.len() == 0 ==> q.s == q.f,
            s@.len() > 0 ==> q.f == f && q.r == r,
    {
        match s.force() {
            StreamCell::Nil => {
                let f2 = rotate(&f, &r, &s);
                let r2 = Stack::empty();
                assert(f2@ =~= f2@.skip(0));
                RealTimeQueue { f: f2.clone(), r: r2, s: f2 }
            },
            StreamCell::Cons(_, s2) => {
                RealTimeQueue { f, r, s: s2 }
            },
        }
    }

    /// The queue with `x` behind its elements. One step of the schedule is
    /// done.
    pub fn snoc(&self, x: T) -> (q: Self)
        requires
            faithful::<T>(),
        ensures
            q@ == self@.push(x),
            q.stepped_from(self.front(), seq![x] + self.back(), self.schedule()),
    {
        proof {
            use_type_invariant(self);
        }
        let r = Stack::cons(x, self.r.clone());
        assert(self.s@.len() > 0 ==> self.s@.skip(1) =~= self.f@.skip(
            self.f@.len() - self.s@.len() + 1,
        ));
        Self::exec(self.f.clone(), r, self.s.clone())
    }

    /// The element that leaves next; `None` for the empty queue.
    pub fn head(&self) -> (r: Option<T>)
        requires
            faithful::<T>(),
        ensures
            r == if self@.len() == 0 {
                None
            } else {
                Some(self@[0])
            },
    {
        proof {
            use_type_invariant(self);
        }
        match self.f.force() {
            StreamCell::Nil => None,
            StreamCell::Cons(x, _) => Some(x),
        }
    }

    /// The queue without the element that leaves next; `None` for the empty
    /// queue. One step of the schedule is done.
    pub fn tail(&self) -> (r: Option<Self>)
        requires
            faithful::<T>(),
        ensures
            match r {
                Some(q) => self@.len() > 0 && q@ == self@.skip(1),
                None => self@.len() == 0,
            },
            r matches Some(q) ==> q.stepped_from(
                self.front().skip(1),
                self.back(),
                self.schedule(),
            ),
    {
        proof {
            use_type_invariant(self);
        }
        match self.f.force() {
            StreamCell::Nil => None,
            StreamCell::Cons(_, xs) => {
                assert(self.s@.len() > 0 ==> self.s@.skip(1) =~= xs@.skip(
                    xs@.len() - self.s@.len() + 1,
                ));
                Some(Self::exec(xs, self.r.clone(), self.s.clone()))
            },
        }
    }
}

impl<T: Clone + 'static> Queue<T> for RealTimeQueue<T> {
    open spec fn elems(&self) -> Seq<T> {
        self@
    }

    fn empty() -> (q: Self) {
        RealTimeQueue::empty()
    }

    fn is_empty(&self) -> (b: bool) {
        RealTimeQueue::is_empty(self)
    }

    fn snoc(&self, x: T) -> (q: Self) {
        RealTimeQueue::snoc(self, x)
    }

    fn head(&self) -> (r: Option<T>) {
        RealTimeQueue::head(self)
    }

    fn tail(&self) -> (r: Option<Self>) {
        RealTimeQueue::tail(self)
    }
}

} // verus!
