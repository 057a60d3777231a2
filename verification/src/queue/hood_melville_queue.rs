use vstd::prelude::*;
use crate::element::faithful;
use crate::queue::Queue;
use crate::stack::Cell;
use crate::stack::Stack;

verus! {

/// A queue over strict lists whose every operation does a bounded number of
/// steps: when the back grows longer than the front, the front is rebuilt as
/// front followed by reversed back, two steps for each operation that follows.
pub struct HoodMelvilleQueue<T> {
    lenf: usize,
    f: Stack<T>,
    lenr: usize,
    r: Stack<T>,
    state: RotationState<T>,
}

/// Where a rebuilding of the front stands.
enum RotationState<T> {
    /// No rebuilding is under way.
    Idle,
    /// The old front `f` is being turned over onto `fp`, the old back `r` onto
    /// `rp`; the `ok` elements on top of `fp` are still in the queue.
    Reversing { ok: usize, f: Stack<T>, fp: Stack<T>, r: Stack<T>, rp: Stack<T> },
    /// The `ok` elements on top of `f` are being turned back over onto `r`.
    Appending { ok: usize, f: Stack<T>, r: Stack<T> },
    /// The new front is `r`.
    Done { r: Stack<T> },
}

impl<T> Clone for RotationState<T> {
    fn clone(&self) -> (s: Self)
        ensures
            s == *self,
    {
        match self {
            RotationState::Idle => RotationState::Idle,
            RotationState::Reversing { ok, f, fp, r, rp } => RotationState::Reversing {
                ok: *ok,
                f: f.clone(),
                fp: fp.clone(),
                r: r.clone(),
                rp: rp.clone(),
            },
            RotationState::Appending { ok, f, r } => RotationState::Appending {
                ok: *ok,
                f: f.clone(),
                r: r.clone(),
            },
            RotationState::Done { r } => RotationState::Done { r: r.clone() },
        }
    }
}

impl<T> RotationState<T> {
    /// The lists have the lengths that let every step go on.
    spec fn wf(self) -> bool {
        match self {
            RotationState::Idle => true,
            RotationState::Reversing { ok, f, fp, r, rp } => {
                &&& r@.len() == f@.len() + 1
                &&& fp@.len() == rp@.len()
                &&& ok <= fp@.len()
                &&& ok + f@.len() < usize::MAX
            },
            RotationState::Appending { ok, f, r } => ok <= f@.len() && r@.len() >= 1,
            RotationState::Done { r } => true,
        }
    }

    /// The front that the rebuilding will end with.
    spec fn result(self) -> Seq<T> {
        match self {
            RotationState::Idle => Seq::empty(),
            RotationState::Reversing { ok, f, fp, r, rp } => fp@.take(ok as int).reverse() + f@
                + r@.reverse() + rp@,
            RotationState::Appending { ok, f, r } => f@.take(ok as int).reverse() + r@,
            RotationState::Done { r } => r@,
        }
    }

    /// The number of steps that are left.
    spec fn todo(self) -> int {
        match self {
            RotationState::Idle => 0,
            RotationState::Reversing { ok, f, fp, r, rp } => 2 * f@.len() + ok + 2,
            RotationState::Appending { ok, f, r } => ok + 1,
            RotationState::Done { r } => 0,
        }
    }

    /// Whether a working front of `n` elements goes with this state: while
    /// the old front is turned over, it is what is still valid of it.
    spec fn fits(self, n: nat) -> bool {
        match self {
            RotationState::Reversing { ok, f, fp, r, rp } => n == ok + f@.len(),
            RotationState::Appending { ok, f, r } => n >= ok,
            _ => true,
        }
    }
}

impl<T> RotationState<T> {
    /// Whether `next` is the state one step after this one.
    ///
    /// While reversing, a step moves the first element of the old front onto
    /// its reversal and the first element of the old back onto its reversal,
    /// and counts one more valid element; when the old front has run out and
    /// one element of the old back is left, that element goes onto the
    /// reversed back and appending begins, with the reversed front to turn
    /// back. While appending, a step moves the first of the valid elements of
    /// the reversed front onto the result and counts one fewer; with none
    /// left, the rebuilding is done. Any other state stays as it is.
    spec fn steps_to(self, next: Self) -> bool {
        match self {
            RotationState::Reversing { ok, f, fp, r, rp } => {
                if f@.len() > 0 && r@.len() > 0 {
                    &&& next matches RotationState::Reversing {
                        ok: ok2,
                        f: f2,
                        fp: fp2,
                        r: r2,
                        rp: rp2,
                    }
                    &&& ok2 == ok + 1
                    &&& f2@ == f@.skip(1)
                    &&& fp2@ == seq![f@[0]] + fp@
                    &&& r2@ == r@.skip(1)
                    &&& rp2@ == seq![r@[0]] + rp@
                } else if f@.len() == 0 && r@.len() == 1 {
                    &&& next matches RotationState::Appending { ok: ok2, f: f2, r: r2 }
                    &&& ok2 == ok
                    &&& f2 == fp
                    &&& r2@ == seq![r@[0]] + rp@
                } else {
                    next == self
                }
            },
            RotationState::Appending { ok, f, r } => {
                if ok == 0 {
                    next == (RotationState::Done { r })
                } else if f@.len() > 0 {
                    &&& next matches RotationState::Appending { ok: ok2, f: f2, r: r2 }
                    &&& ok2 == ok - 1
                    &&& f2@ == f@.skip(1)
                    &&& r2@ == seq![f@[0]] + r@
                } else {
                    next == self
                }
            },
            _ => next == self,
        }
    }

    /// Whether `next` is this state told that the first element has left the
    /// queue: one valid element fewer, the lists as they were; at the end of
    /// appending, with no valid element left, the result without its first
    /// element, done.
    spec fn told_to(self, next: Self) -> bool {
        match self {
            RotationState::Reversing { ok, f, fp, r, rp } => next == (RotationState::Reversing {
                ok: (ok - 1) as usize,
                f,
                fp,
                r,
                rp,
            }),
            RotationState::Appending { ok, f, r } => {
                if ok == 0 {
                    next matches RotationState::Done { r: r2 } && r2@ == r@.skip(1)
                } else {
                    next == (RotationState::Appending { ok: (ok - 1) as usize, f, r })
                }
            },
            _ => next == self,
        }
    }
}

impl<T: Clone> RotationState<T> {
    /// One step of the rebuilding.
    fn exec(self) -> (next: Self)
        requires
            faithful::<T>(),
            self.wf(),
        ensures
            self.steps_to(next),
            next.wf(),
            self.todo() == 0 ==> next == self,
            self.todo() > 0 ==> next.todo() == self.todo() - 1 && next.result() == self.result()
                && !(next is Idle),
            forall|n: nat| self.fits(n) ==> next.fits(n),
    {
        match self {
            RotationState::Reversing { ok, f, fp, r, rp } => match f.as_cell() {
                Cell::Cons(x, f2) => match r.as_cell() {
                    Cell::Cons(y, r2) => {
                        proof {
                            assert(f@.skip(1) =~= f2@);
                            assert(r@.skip(1) =~= r2@);
                        }
                        RotationState::Reversing {
                            ok: ok + 1,
                            f: f2.clone(),
                            fp: Stack::cons(x.clone(), fp),
                            r: r2.clone(),
                            rp: Stack::cons(y.clone(), rp),
                        }
                    },
                    Cell::Nil => RotationState::Reversing { ok, f, fp, r, rp },
                },
                Cell::Nil => match r.as_cell() {
                    Cell::Cons(y, r2) => {
                        if r2.is_empty() {
                            RotationState::Appending {
                                ok,
                                f: fp,
                                r: Stack::cons(y.clone(), rp),
                            }
                        } else {
                            RotationState::Reversing { ok, f, fp, r, rp }
                        }
                    },
                    Cell::Nil => RotationState::Reversing { ok, f, fp, r, rp },
                },
            },
            RotationState::Appending { ok, f, r } => {
                if ok == 0 {
                    RotationState::Done { r }
                } else {
                    match f.as_cell() {
                        Cell::Cons(x, f2) => {
                            assert(f@.skip(1) =~= f2@);
                            RotationState::Appending {
                                ok: ok - 1,
                                f: f2.clone(),
                                r: Stack::cons(x.clone(), r),
                            }
                        },
                        Cell::Nil => RotationState::Appending { ok, f, r },
                    }
                }
            },
            RotationState::Idle => RotationState::Idle,
            RotationState::Done { r } => RotationState::Done { r },
        }
    }

    /// Takes the first element of the coming front out of the rebuilding: it
    /// has left the queue. One element fewer is turned back; where none is
    /// left to turn back, the element is dropped from the result itself.
    fn invalidate(self) -> (next: Self)
        requires
            self.wf(),
            self is Reversing ==> self->Reversing_ok >= 1,
            !(self is Done),
        ensures
            self.told_to(next),
            next.wf(),
            self is Idle ==> next is Idle,
            !(self is Idle) ==> next.result() == self.result().skip(1) && !(next is Idle),
            self.todo() > 0 ==> next.todo() <= self.todo() - 1,
            forall|n: nat| n >= 1 && self.fits(n) ==> next.fits((n - 1) as nat),
    {
        match self {
            RotationState::Reversing { ok, f, fp, r, rp } => {
                RotationState::Reversing { ok: ok - 1, f, fp, r, rp }
            },
            RotationState::Appending { ok, f, r } => {
                if ok == 0 {
                    RotationState::Done { r: r.tail().unwrap() }
                } else {
                    RotationState::Appending { ok: ok - 1, f, r }
                }
            },
            RotationState::Idle => RotationState::Idle,
            RotationState::Done { r } => RotationState::Done { r },
        }
    }
}

impl<T> HoodMelvilleQueue<T> {
    /// The front as it is, or as the rebuilding under way will leave it.
    closed spec fn front(&self) -> Seq<T> {
        if self.state is Idle {
            self.f@
        } else {
            self.state.result()
        }
    }

    /// Whether a front list, a back list and a state go together, before the
    /// two steps that every operation ends with.
    spec fn steppable(lenf: usize, f: Stack<T>, lenr: usize, r: Stack<T>, state: RotationState<T>) -> bool {
        &&& lenf + lenr <= usize::MAX
        &&& lenr == r@.len()
        &&& state.wf()
        &&& state is Idle ==> lenf == f@.len() && lenr <= lenf
        &&& !(state is Idle) ==> {
            &&& lenf == state.result().len()
            &&& state.todo() - 2 + 2 * lenr + 1 <= lenf
        }
        &&& (state is Reversing || state is Appending) ==> {
            &&& f@.len() <= lenf
            &&& f@ == state.result().take(f@.len() as int)
            &&& state.fits(f@.len())
            &&& state.todo() - 2 <= 2 * f@.len()
        }
    }

    /// Whether the queue is what two steps of the rebuilding make of a front
    /// list, a back list and a state: the lengths and the back list as they
    /// came, the state two steps on; where that is the end of the rebuilding,
    /// its result is the front list and no rebuilding is under way.
    spec fn two_steps_after(self, lenf: usize, f: Stack<T>, lenr: usize, r: Stack<T>, state: RotationState<T>) -> bool {
        exists|mid: RotationState<T>, last: RotationState<T>|
            {
                &&& #[trigger] state.steps_to(mid)
                &&& #[trigger] mid.steps_to(last)
                &&& self.lenf == lenf
                &&& self.lenr == lenr
                &&& self.r == r
                &&& match last {
                    RotationState::Done { r: front } => self.state is Idle && self.f == front,
                    _ => self.state == last && self.f == f,
                }
            }
    }

    /// Whether the queue is what comes of a front list, a back list and a
    /// state after the check that every operation ends with: where the back
    /// list is longer than the front list, a rebuilding begins, the back list
    /// is empty and the front counts both; then two steps are done.
    spec fn checked(self, lenf: usize, f: Stack<T>, lenr: usize, r: Stack<T>, state: RotationState<T>) -> bool {
        if lenr <= lenf {
            self.two_steps_after(lenf, f, lenr, r, state)
        } else {
            exists|start: RotationState<T>, back: Stack<T>|
                {
                    &&& #[trigger] Self::begins(f, r, start)
                    &&& back@ == Seq::<T>::empty()
                    &&& #[trigger] self.two_steps_after(
                        (lenf + lenr) as usize,
                        f,
                        0,
                        back,
                        start,
                    )
                }
        }
    }

    /// Whether the queue is what `snoc` makes of `before` and `x`: `x` is put
    /// on the back list, then a rebuilding begins where the back list has
    /// grown longer than the front, and two steps of the rebuilding under way
    /// are done, no more.
    pub closed spec fn after_snoc(&self, before: &Self, x: T) -> bool {
        exists|back: Stack<T>|
            {
                &&& back.cell() == Cell::Cons(x, before.r)
                &&& #[trigger] self.checked(
                    before.lenf,
                    before.f,
                    (before.lenr + 1) as usize,
                    back,
                    before.state,
                )
            }
    }

    /// Whether the queue is what `tail` makes of `before`: the front list
    /// loses its first element, a rebuilding under way is told so, then a
    /// rebuilding begins where the back list is now longer than the front,
    /// and two steps of the rebuilding under way are done, no more.
    pub closed spec fn after_tail(&self, before: &Self) -> bool {
        exists|front: Stack<T>, told: RotationState<T>|
            {
                &&& before.f.cell() matches Cell::Cons(_, rest) && front == rest
                &&& before.state.told_to(told)
                &&& #[trigger] self.checked(
                    (before.lenf - 1) as usize,
                    front,
                    before.lenr,
                    before.r,
                    told,
                )
            }
    }

    /// Whether `start` is the state in which the rebuilding of a front list
    /// `f` and a back list `r` begins: both still to turn over, nothing
    /// turned over yet and no element counted.
    spec fn begins(f: Stack<T>, r: Stack<T>, start: RotationState<T>) -> bool {
        &&& start matches RotationState::Reversing { ok, f: f0, fp, r: r0, rp }
        &&& ok == 0
        &&& f0 == f
        &&& fp@ == Seq::<T>::empty()
        &&& r0 == r
        &&& rp@ == Seq::<T>::empty()
    }

    /// A rebuilding under way ends before the working front runs out and
    /// before the back outgrows the front again.
    #[verifier::type_invariant]
    spec fn wf(&self) -> bool {
        &&& self.lenf + self.lenr <= usize::MAX
        &&& self.lenr == self.r@.len()
        &&& self.state.wf()
        &&& !(self.state is Done)
        &&& self.state is Idle ==> self.lenf == self.f@.len() && self.lenr <= self.lenf
        &&& !(self.state is Idle) ==> {
            &&& self.lenf == self.state.result().len()
            &&& self.f@.len() <= self.lenf
            &&& self.f@ == self.state.result().take(self.f@.len() as int)
            &&& self.state.fits(self.f@.len())
            &&& self.state.todo() <= 2 * self.f@.len()
            &&& self.state.todo() + 2 * self.lenr + 1 <= self.lenf
        }
    }

    /// The queue with no element.
    pub fn empty() -> (q: Self)
        ensures
            q@ == Seq::<T>::empty(),
    {
        let f = Stack::empty();
        let r = Stack::empty();
        HoodMelvilleQueue { lenf: 0, f, lenr: 0, r, state: RotationState::Idle }
    }

    /// Whether the queue holds no element.
    pub fn is_empty(&self) -> (b: bool)
        ensures
            b == (self@.len() == 0),
    {
        proof {
            use_type_invariant(self);
        }
        self.lenf == 0
    }
}

impl<T> View for HoodMelvilleQueue<T> {
    type V = Seq<T>;

    closed spec fn view(&self) -> Seq<T> {
        self.front() + self.r@.reverse()
    }
}

impl<T> Clone for HoodMelvilleQueue<T> {
    fn clone(&self) -> (q: Self)
        ensures
            q == *self,
    {
        proof {
            use_type_invariant(self);
        }
        HoodMelvilleQueue {
            lenf: self.lenf,
            f: self.f.clone(),
            lenr: self.lenr,
            r: self.r.clone(),
            state: self.state.clone(),
        }
    }
}

impl<T: Clone> HoodMelvilleQueue<T> {
    /// Two steps of the rebuilding; where they end it, its result becomes the
    /// front.
    fn exec2(lenf: usize, f: Stack<T>, lenr: usize, r: Stack<T>, state: RotationState<T>) -> (q: Self)
        requires
            faithful::<T>(),
            Self::steppable(lenf, f, lenr, r, state),
        ensures
            q@ == (if state is Idle {
                f@
            } else {
                state.result()
            }) + r@.reverse(),
            q.two_steps_after(lenf, f, lenr, r, state),
    {
        let mid = state.exec();
        let last = mid.exec();
        let q = match last {
            RotationState::Done { r: front } => HoodMelvilleQueue {
                lenf,
                f: front,
                lenr,
                r,
                state: RotationState::Idle,
            },
            next => {
                HoodMelvilleQueue { lenf, f, lenr, r, state: next }
            },
        };
        assert(state.steps_to(mid) && mid.steps_to(last));
        q
    }

    /// Starts a rebuilding where the back has grown longer than the front,
    /// then does the two steps.
    fn check(lenf: usize, f: Stack<T>, lenr: usize, r: Stack<T>, state: RotationState<T>) -> (q: Self)
        requires
            faithful::<T>(),
            lenf + lenr <= usize::MAX,
            lenr == r@.len(),
            state is Idle ==> lenf == f@.len() && lenr <= lenf + 1,
            !(state is Idle) ==> Self::steppable(lenf, f, lenr, r, state),
        ensures
            q@ == (if state is Idle {
                f@
            } else {
                state.result()
            }) + r@.reverse(),
            q.checked(lenf, f, lenr, r, state),
    {
        if lenr <= lenf {
            Self::exec2(lenf, f, lenr, r, state)
        } else {
            let start = RotationState::Reversing {
                ok: 0,
                f: f.clone(),
                fp: Stack::empty(),
                r,
                rp: Stack::empty(),
            };
            let back = Stack::empty();
            proof {
                assert(start.result().take(f@.len() as int) =~= f@);
            }
            let q = Self::exec2(lenf + lenr, f, 0, back, start);
            assert(Self::begins(f, r, start) && q.two_steps_after(
                (lenf + lenr) as usize,
                f,
                0,
                back,
                start,
            ));
            q
        }
    }

    /// The queue with `x` behind its elements. Two steps of a rebuilding under
    /// way are done.
    pub fn snoc(&self, x: T) -> (q: Self)
        requires
            faithful::<T>(),
            self@.len() < usize::MAX,
        ensures
            q@ == self@.push(x),
            q.after_snoc(self, x),
    {
        proof {
            use_type_invariant(self);
        }
        let r = Stack::cons(x, self.r.clone());
        let q = Self::check(self.lenf, self.f.clone(), self.lenr + 1, r, self.state.clone());
        assert(q.checked(self.lenf, self.f, (self.lenr + 1) as usize, r, self.state));
        q
    }

    /// The element that leaves next; `None` for the empty queue.
    pub fn head(&self) -> (r: Option<T>)
        requires
            faithful::<T>(),
        ensures
            r == if self@.len() == 0 {
                None
            } else {
                Some(self@[0])
            },
    {
        proof {
            use_type_invariant(self);
        }
        self.f.head()
    }

    /// The queue without the element that leaves next; `None` for the empty
    /// queue. A rebuilding under way is told of the departure and goes on by
    /// two steps.
    pub fn tail(&self) -> (r: Option<Self>)
        requires
            faithful::<T>(),
        ensures
            match r {
                Some(q) => self@.len() > 0 && q@ == self@.skip(1) && q.after_tail(self),
                None => self@.len() == 0,
            },
    {
        proof {
            use_type_invariant(self);
        }
        let f = match self.f.tail() {
            None => {
                return None;
            },
            Some(f) => f,
        };
        let state = self.state.clone().invalidate();
        proof {
            if !(self.state is Idle) {
                assert(f@ =~= self.state.result().skip(1).take(f@.len() as int));
            }
        }
        let q = Self::check(self.lenf - 1, f, self.lenr, self.r.clone(), state);
        assert(q.checked((self.lenf - 1) as usize, f, self.lenr, self.r, state));
        Some(q)
    }
}

impl<T: Clone> Queue<T> for HoodMelvilleQueue<T> {
    open spec fn elems(&self) -> Seq<T> {
        self@
    }

    fn empty() -> (q: Self) {
        HoodMelvilleQueue::empty()
    }

    fn is_empty(&self) -> (b: bool) {
        HoodMelvilleQueue::is_empty(self)
    }

    fn snoc(&self, x: T) -> (q: Self) {
        HoodMelvilleQueue::snoc(self, x)
    }

    fn head(&self) -> (r: Option<T>) {
        HoodMelvilleQueue::head(self)
    }

    fn tail(&self) -> (r: Option<Self>) {
        HoodMelvilleQueue::tail(self)
    }
}

} // verus!
