use vstd::prelude::*;
use crate::deque::lemma_split_back;
use crate::deque::lemma_split_front;
use crate::deque::Deque;
use crate::element::faithful;
use crate::lazy::clip;
use crate::lazy::Op;
use crate::lazy::Stream;
use crate::lazy::StreamCell;

verus! {

/// A double-ended queue whose every operation forces a bounded number of
/// cells: a front and a back sequence, neither more than about twice as long
/// as the other, each with a schedule, an end of it, that is walked a cell or
/// two per operation.
pub struct RealTimeDeque<T> {
    lenf: usize,
    f: Stream<T>,
    sf: Stream<T>,
    lenr: usize,
    r: Stream<T>,
    sr: Stream<T>,
}

/// A bound on the rank of what `rotate_rev` gives for a front of rank `f`, a
/// back of rank `r` and an accumulator of rank `a`.
pub open spec fn rev_rank(f: nat, r: nat, a: nat) -> nat {
    a + (f + 1) * (r + f + 6)
}

/// A bound on the rank of what `rotate_drop` gives for a front of rank `f` and
/// a back of rank `r`.
pub open spec fn drop_rank(f: nat, r: nat) -> nat {
    (f + 1) * (r + f + 9)
}

proof fn lemma_rev_rank_step(f2: nat, f: nat, r: nat, a: nat)
    requires
        f2 < f,
    ensures
        rev_rank(f2, r + 1, r + a + 4) < rev_rank(f, r, a),
        f + r + a < rev_rank(f, r, a),
        r + a + 2 <= rev_rank(f, r, a),
{
    assert((f2 + 1) * (r + 1 + f2 + 6) <= f * (r + f + 6)) by (nonlinear_arith)
        requires
            f2 + 1 <= f,
    ;
    assert((f + 1) * (r + f + 6) == f * (r + f + 6) + (r + f + 6)) by (nonlinear_arith);
}

proof fn lemma_drop_rank_step(f2: nat, f: nat, r: nat)
    requires
        f2 < f,
    ensures
        drop_rank(f2, r + 1) < drop_rank(f, r),
{
    assert((f2 + 1) * (r + 1 + f2 + 9) <= f * (r + f + 9)) by (nonlinear_arith)
        requires
            f2 + 1 <= f,
    ;
    assert((f + 1) * (r + f + 9) == f * (r + f + 9) + (r + f + 9)) by (nonlinear_arith);
}

pub(crate) proof fn lemma_rev_rank_floor(f: nat, r: nat, a: nat)
    ensures
        f + r + a < rev_rank(f, r, a),
{
    assert((f + 1) * (r + f + 6) == f * (r + f + 6) + (r + f + 6)) by (nonlinear_arith);
    assert(f * (r + f + 6) >= 0) by (nonlinear_arith);
}

pub(crate) proof fn lemma_drop_rank_base(f: nat, r: nat)
    ensures
        rev_rank(f, r + 1, 0) <= drop_rank(f, r),
        f + r < drop_rank(f, r),
{
    assert((f + 1) * (r + 1 + f + 6) <= (f + 1) * (r + f + 9)) by (nonlinear_arith);
    assert((f + 1) * (r + f + 9) == f * (r + f + 9) + (r + f + 9)) by (nonlinear_arith);
    assert(f * (r + f + 9) >= 0) by (nonlinear_arith);
}

/// What is left of a schedule `s` after `k` steps.
pub open spec fn advanced<T>(s: Seq<T>, k: usize) -> Seq<T> {
    s.skip(clip(k, s.len()))
}

/// Whether `a` is the end of `b`.
pub open spec fn is_suffix<T>(a: Seq<T>, b: Seq<T>) -> bool {
    a.len() <= b.len() && a == b.skip(b.len() - a.len())
}

/// What is left of the end of a sequence after some steps is an end of the
/// sequence, also where the sequence has grown at the front or lost its first
/// element meanwhile.
proof fn lemma_suffix_steps<T>(a: Seq<T>, b: Seq<T>, k: int, x: T)
    requires
        is_suffix(a, b),
        0 <= k <= a.len(),
    ensures
        is_suffix(a.skip(k), b),
        is_suffix(a.skip(k), seq![x] + b),
        b.len() > 0 && (k >= 1 || a.len() < b.len()) ==> is_suffix(a.skip(k), b.skip(1)),
{
    let d = b.len() - a.len();
    assert(a.skip(k) =~= b.skip(d + k));
    assert(a.skip(k) =~= (seq![x] + b).skip(d + k + 1));
    if b.len() > 0 && (k >= 1 || a.len() < b.len()) {
        assert(a.skip(k) =~= b.skip(1).skip(d + k - 1));
    }
}

/// `f`, then `r` reversed, then `a`. For each cell of `f` that is forced, `c`
/// more elements of `r` are turned over onto `a`; what is left of `r` when `f`
/// ends is turned over at once.
pub(crate) fn rotate_rev<T: Clone + 'static>(f: Stream<T>, r: Stream<T>, a: Stream<T>, c: usize) -> (t: Stream<T>)
    requires
        faithful::<T>(),
    ensures
        t@ == f@ + r@.reverse() + a@,
        t.rank() <= rev_rank(f.rank(), r.rank(), a.rank()),
    decreases f.rank(), 2nat,
{
    f.ranked();
    r.ranked();
    a.ranked();
    match f.force() {
        StreamCell::Nil => {
            let t = r.reverse().extend(&a);
            proof {
                assert(t@ =~= f@ + r@.reverse() + a@);
                lemma_rev_rank_step(0, 1, r.rank(), a.rank());
                assert(rev_rank(0, r.rank(), a.rank()) == a.rank() + (r.rank() + 6)) by (nonlinear_arith)
                    requires
                        rev_rank(0, r.rank(), a.rank()) == a.rank() + (0 + 1) * (r.rank() + 0 + 6),
                ;
                assert(rev_rank(0, r.rank(), a.rank()) <= rev_rank(f.rank(), r.rank(), a.rank()))
                    by (nonlinear_arith)
                    requires
                        rev_rank(0, r.rank(), a.rank()) == a.rank() + (r.rank() + 6),
                        rev_rank(f.rank(), r.rank(), a.rank()) == a.rank() + (f.rank() + 1) * (
                        r.rank() + f.rank() + 6),
                ;
            }
            t
        },
        StreamCell::Cons(x, xs) => {
            xs.ranked();
            let ghost elems = f@ + r@.reverse() + a@;
            proof {
                assert(elems =~= seq![x] + (xs@ + r@.reverse() + a@));
                lemma_rev_rank_step(xs.rank(), f.rank(), r.rank(), a.rank());
            }
            Stream::suspend(
                Op::RotateRev(x, xs, r, a, c),
                Ghost(elems),
                Ghost(rev_rank(f.rank(), r.rank(), a.rank())),
            )
        },
    }
}

/// `f`, then what is left of `r` after its first `j` elements, reversed. For
/// each cell of `f` that is forced, `c` of those `j` elements are dropped.
pub(crate) fn rotate_drop<T: Clone + 'static>(f: Stream<T>, j: usize, r: Stream<T>, c: usize) -> (t: Stream<T>)
    requires
        faithful::<T>(),
        c > 0,
        j <= r@.len(),
        j <= c * f@.len() + (c - 1),
    ensures
        t@ == f@ + r@.skip(j as int).reverse(),
        t.rank() <= drop_rank(f.rank(), r.rank()),
    decreases f.rank(), 3nat,
{
    f.ranked();
    r.ranked();
    if j < c {
        let t = rotate_rev(f, r.drop(j), Stream::empty(), c);
        proof {
            assert(t@ =~= f@ + r@.skip(j as int).reverse());
            lemma_drop_rank_base(f.rank(), r.rank());
        }
        t
    } else {
        match f.force() {
            StreamCell::Cons(x, xs) => {
                xs.ranked();
                let ghost elems = f@ + r@.skip(j as int).reverse();
                proof {
                    assert(elems =~= seq![x] + (xs@ + r@.skip(j as int).reverse()));
                    assert(j - c <= c * xs@.len() + (c - 1)) by (nonlinear_arith)
                        requires
                            j <= c * f@.len() + (c - 1),
                            f@.len() == xs@.len() + 1,
                    ;
                    lemma_drop_rank_step(xs.rank(), f.rank(), r.rank());
                    lemma_drop_rank_base(f.rank(), r.rank());
                }
                Stream::suspend(
                    Op::RotateDrop(x, xs, j, r, c),
                    Ghost(elems),
                    Ghost(drop_rank(f.rank(), r.rank())),
                )
            },
            StreamCell::Nil => {
                assert(c * f@.len() == 0) by (nonlinear_arith)
                    requires
                        f@.len() == 0,
                ;
                unreached()
            },
        }
    }
}

/// One step of a schedule: the schedule without its first cell, which is
/// forced.
fn exec1<T: Clone + 'static>(xs: &Stream<T>) -> (r: Stream<T>)
    requires
        faithful::<T>(),
    ensures
        r@ == xs@.skip(clip(1, xs@.len())),
{
    match xs.force() {
        StreamCell::Cons(_, rest) => rest,
        StreamCell::Nil => {
            assert(xs@.skip(0) =~= xs@);
            xs.clone()
        },
    }
}

/// Two steps of a schedule.
fn exec2<T: Clone + 'static>(xs: &Stream<T>) -> (r: Stream<T>)
    requires
        faithful::<T>(),
    ensures
        r@ == xs@.skip(clip(2, xs@.len())),
{
    let r = exec1(&exec1(xs));
    assert(r@ =~= xs@.skip(clip(2, xs@.len())));
    r
}

impl<T> View for RealTimeDeque<T> {
    type V = Seq<T>;

    closed spec fn view(&self) -> Seq<T> {
        self.f@ + self.r@.reverse()
    }
}

impl<T> Clone for RealTimeDeque<T> {
    fn clone(&self) -> (q: Self)
        ensures
            q == *self,
    {
        proof {
            use_type_invariant(self);
        }
        RealTimeDeque {
            lenf: self.lenf,
            f: self.f.clone(),
            sf: self.sf.clone(),
            lenr: self.lenr,
            r: self.r.clone(),
            sr: self.sr.clone(),
        }
    }
}

impl<T> RealTimeDeque<T> {
    /// The number of elements kept at the front.
    pub closed spec fn front_len(&self) -> nat {
        self.lenf as nat
    }

    /// The number of elements kept at the back.
    pub closed spec fn back_len(&self) -> nat {
        self.lenr as nat
    }

    /// The elements kept at the front, first to last.
    pub closed spec fn front(&self) -> Seq<T> {
        self.f@
    }

    /// The elements kept at the back, last to first.
    pub closed spec fn back(&self) -> Seq<T> {
        self.r@
    }

    /// What the schedule of the front has still to walk: an end of the front.
    pub closed spec fn front_schedule(&self) -> Seq<T> {
        self.sf@
    }

    /// What the schedule of the back has still to walk: an end of the back.
    pub closed spec fn back_schedule(&self) -> Seq<T> {
        self.sr@
    }

    /// Whether the deque is what comes of a front `f`, a back `r` (last to
    /// first) and their schedules `sf` and `sr`, one of the sides having
    /// grown or shrunk by one element. Where one side is longer than twice
    /// the other and one, the elements are split evenly again, the longer
    /// side handing its far half to the other, and both schedules start anew
    /// as the new front and the new back; else sides and schedules are kept.
    pub open spec fn made_of(&self, f: Seq<T>, sf: Seq<T>, r: Seq<T>, sr: Seq<T>) -> bool {
        &&& self@ == self.front() + self.back().reverse()
        &&& self.front_len() == self.front().len()
        &&& self.back_len() == self.back().len()
        &&& if f.len() > 2 * r.len() + 1 {
            let i = ((f.len() + r.len()) / 2) as int;
            &&& self.front() == f.take(i)
            &&& self.back() == r + f.skip(i).reverse()
            &&& self.front_schedule() == self.front()
            &&& self.back_schedule() == self.back()
        } else if r.len() > 2 * f.len() + 1 {
            let j = ((f.len() + r.len()) / 2) as int;
            &&& self.front() == f + r.skip(j).reverse()
            &&& self.back() == r.take(j)
            &&& self.front_schedule() == self.front()
            &&& self.back_schedule() == self.back()
        } else {
            &&& self.front() == f
            &&& self.back() == r
            &&& self.front_schedule() == sf
            &&& self.back_schedule() == sr
        }
    }

    /// The numbers of elements kept at the front and at the back.
    pub fn lengths(&self) -> (r: (usize, usize))
        ensures
            r.0 == self.front_len(),
            r.1 == self.back_len(),
            self.balanced(),
    {
        proof {
            use_type_invariant(self);
        }
        (self.lenf, self.lenr)
    }

    /// Neither side is more than twice as long as the other, and one.
    pub open spec fn balanced(&self) -> bool {
        &&& self.front_len() <= 2 * self.back_len() + 1
        &&& self.back_len() <= 2 * self.front_len() + 1
        &&& self.front_len() + self.back_len() == self@.len()
    }

    #[verifier::type_invariant]
    spec fn wf(&self) -> bool {
        &&& self.lenf == self.f@.len()
        &&& self.lenr == self.r@.len()
        &&& self.lenf <= 2 * self.lenr + 1
        &&& self.lenr <= 2 * self.lenf + 1
        &&& 2 * (self.lenf + self.lenr) + 1 <= usize::MAX
        &&& is_suffix(self.sf@, self.f@)
        &&& is_suffix(self.sr@, self.r@)
    }

    fn new(lenf: usize, f: Stream<T>, sf: Stream<T>, lenr: usize, r: Stream<T>, sr: Stream<T>) -> (q: Self)
        requires
            lenf == f@.len(),
            lenr == r@.len(),
            lenf <= 2 * lenr + 1,
            lenr <= 2 * lenf + 1,
            2 * (lenf + lenr) + 1 <= usize::MAX,
            is_suffix(sf@, f@),
            is_suffix(sr@, r@),
        ensures
            q@ == f@ + r@.reverse(),
            q.balanced(),
            q.f == f,
            q.sf == sf,
            q.r == r,
            q.sr == sr,
            q.lenf == lenf,
            q.lenr == lenr,
    {
        RealTimeDeque { lenf, f, sf, lenr, r, sr }
    }

    /// The deque with no element.
    pub fn empty() -> (q: Self)
        ensures
            q@ == Seq::<T>::empty(),
            q.balanced(),
            q.made_of(Seq::empty(), Seq::empty(), Seq::empty(), Seq::empty()),
    {
        let f = Stream::empty();
        let r = Stream::empty();
        assert(f@ + r@.reverse() =~= Seq::<T>::empty());
        assert(f@.skip(0) =~= f@);
        Self::new(0, f.clone(), f, 0, r.clone(), r)
    }

    /// Whether the deque holds no element.
    pub fn is_empty(&self) -> (b: bool)
        ensures
            b == (self@.len() == 0),
    {
        proof {
            use_type_invariant(self);
        }
        self.lenf + self.lenr == 0
    }
}

impl<T: Clone + 'static> RealTimeDeque<T> {
    /// Where one side has grown beyond twice the other and one, splits the
    /// elements evenly again and starts both schedules anew.
    fn check(lenf: usize, f: Stream<T>, sf: Stream<T>, lenr: usize, r: Stream<T>, sr: Stream<T>) -> (q: Self)
        requires
            faithful::<T>(),
            lenf == f@.len(),
            lenr == r@.len(),
            lenf <= 2 * lenr + 3,
            lenr <= 2 * lenf + 3,
            2 * (lenf + lenr) + 1 <= usize::MAX,
            is_suffix(sf@, f@),
            is_suffix(sr@, r@),
        ensures
            q@ == f@ + r@.reverse(),
            q.balanced(),
            q.made_of(f@, sf@, r@, sr@),
            lenf <= 2 * lenr + 1 && lenr <= 2 * lenf + 1 ==> q.f == f && q.sf == sf && q.r == r
                && q.sr == sr,
    {
        let c: usize = 2;
        if lenf > c * lenr + 1 {
            let i = (lenf + lenr) / 2;
            let j = lenf + lenr - i;
            let f2 = f.take(i);
            let r2 = rotate_drop(r, i, f, c);
            proof {
                lemma_split_front(f@, r@, i as int);
                assert(f2@.skip(0) =~= f2@);
                assert(r2@.skip(0) =~= r2@);
            }
            Self::new(i, f2.clone(), f2, j, r2.clone(), r2)
        } else if lenr > c * lenf + 1 {
            let j = (lenf + lenr) / 2;
            let i = lenf + lenr - j;
            let r2 = r.take(j);
            let f2 = rotate_drop(f, j, r, c);
            proof {
                lemma_split_back(f@, r@, j as int);
                assert(f2@.skip(0) =~= f2@);
                assert(r2@.skip(0) =~= r2@);
            }
            Self::new(i, f2.clone(), f2, j, r2.clone(), r2)
        } else {
            Self::new(lenf, f, sf, lenr, r, sr)
        }
    }

    /// The deque with the new element in front. Each schedule goes on by one
    /// cell.
    pub fn cons(x: T, xs: &Self) -> (q: Self)
        requires
            faithful::<T>(),
            2 * xs@.len() + 3 <= usize::MAX,
        ensures
            q@ == seq![x] + xs@,
            q.balanced(),
            q.made_of(
                seq![x] + xs.front(),
                advanced(xs.front_schedule(), 1),
                xs.back(),
                advanced(xs.back_schedule(), 1),
            ),
    {
        proof {
            use_type_invariant(xs);
        }
        let f = Stream::prepend(x, xs.f.clone());
        assert(f@ + xs.r@.reverse() =~= seq![x] + (xs.f@ + xs.r@.reverse()));
        proof {
            lemma_suffix_steps(xs.sf@, xs.f@, clip(1, xs.sf@.len()), x);
            lemma_suffix_steps(xs.sr@, xs.r@, clip(1, xs.sr@.len()), x);
        }
        Self::check(xs.lenf + 1, f, exec1(&xs.sf), xs.lenr, xs.r.clone(), exec1(&xs.sr))
    }

    /// The first element; `None` for the empty deque. Both sides are forced by
    /// one cell, no schedule goes on.
    pub fn head(&self) -> (r: Option<T>)
        requires
            faithful::<T>(),
        ensures
            r == if self@.len() == 0 {
                None
            } else {
                Some(self@[0])
            },
    {
        proof {
            use_type_invariant(self);
        }
        let back = self.r.force();
        match self.f.force() {
            StreamCell::Cons(x, _) => Some(x),
            StreamCell::Nil => match back {
                StreamCell::Nil => None,
                StreamCell::Cons(x, _) => Some(x),
            },
        }
    }

    /// The deque without its first element; `None` for the empty deque. Each
    /// schedule goes on by two cells.
    pub fn tail(&self) -> (r: Option<Self>)
        requires
            faithful::<T>(),
        ensures
            match r {
                Some(q) => self@.len() > 0 && q@ == self@.skip(1) && q.balanced(),
                None => self@.len() == 0,
            },
            r matches Some(q) ==> if self.front().len() > 0 {
                q.made_of(
                    self.front().skip(1),
                    advanced(self.front_schedule(), 2),
                    self.back(),
                    advanced(self.back_schedule(), 2),
                )
            } else {
                q.made_of(Seq::empty(), Seq::empty(), Seq::empty(), Seq::empty())
            },
    {
        proof {
            use_type_invariant(self);
        }
        let back = self.r.force();
        match self.f.force() {
            StreamCell::Cons(x, f) => {
                assert(f@ + self.r@.reverse() =~= self@.skip(1));
                proof {
                    lemma_suffix_steps(self.sf@, self.f@, clip(2, self.sf@.len()), x);
                    lemma_suffix_steps(self.sr@, self.r@, clip(2, self.sr@.len()), x);
                }
                Some(
                    Self::check(
                        self.lenf - 1,
                        f,
                        exec2(&self.sf),
                        self.lenr,
                        self.r.clone(),
                        exec2(&self.sr),
                    ),
                )
            },
            StreamCell::Nil => match back {
                StreamCell::Nil => None,
                StreamCell::Cons(_, _) => {
                    assert(self@.skip(1) =~= Seq::<T>::empty());
                    Some(Self::empty())
                },
            },
        }
    }

    /// The deque with the new element behind. Each schedule goes on by one
    /// cell.
    pub fn snoc(&self, x: T) -> (q: Self)
        requires
            faithful::<T>(),
            2 * self@.len() + 3 <= usize::MAX,
        ensures
            q@ == self@.push(x),
            q.balanced(),
            q.made_of(
                self.front(),
                advanced(self.front_schedule(), 1),
                seq![x] + self.back(),
                advanced(self.back_schedule(), 1),
            ),
    {
        proof {
            use_type_invariant(self);
        }
        let r = Stream::prepend(x, self.r.clone());
        assert(self.f@ + r@.reverse() =~= (self.f@ + self.r@.reverse()).push(x));
        proof {
            lemma_suffix_steps(self.sf@, self.f@, clip(1, self.sf@.len()), x);
            lemma_suffix_steps(self.sr@, self.r@, clip(1, self.sr@.len()), x);
        }
        Self::check(self.lenf, self.f.clone(), exec1(&self.sf), self.lenr + 1, r, exec1(&self.sr))
    }

    /// The last element; `None` for the empty deque. Both sides are forced by
    /// one cell, no schedule goes on.
    pub fn last(&self) -> (r: Option<T>)
        requires
            faithful::<T>(),
        ensures
            r == if self@.len() == 0 {
                None
            } else {
                Some(self@.last())
            },
    {
        proof {
            use_type_invariant(self);
        }
        let front = self.f.force();
        match self.r.force() {
            StreamCell::Cons(x, _) => Some(x),
            StreamCell::Nil => match front {
                StreamCell::Nil => None,
                StreamCell::Cons(x, _) => Some(x),
            },
        }
    }

    /// The deque without its last element; `None` for the empty deque. Each
    /// schedule goes on by two cells.
    pub fn init(&self) -> (r: Option<Self>)
        requires
            faithful::<T>(),
        ensures
            match r {
                Some(q) => self@.len() > 0 && q@ == self@.drop_last() && q.balanced(),
                None => self@.len() == 0,
            },
            r matches Some(q) ==> if self.back().len() > 0 {
                q.made_of(
                    self.front(),
                    advanced(self.front_schedule(), 2),
                    self.back().skip(1),
                    advanced(self.back_schedule(), 2),
                )
            } else {
                q.made_of(Seq::empty(), Seq::empty(), Seq::empty(), Seq::empty())
            },
    {
        proof {
            use_type_invariant(self);
        }
        let front = self.f.force();
        match self.r.force() {
            StreamCell::Cons(x, r) => {
                assert(self.f@ + r@.reverse() =~= self@.drop_last());
                proof {
                    lemma_suffix_steps(self.sf@, self.f@, clip(2, self.sf@.len()), x);
                    lemma_suffix_steps(self.sr@, self.r@, clip(2, self.sr@.len()), x);
                }
                Some(
                    Self::check(
                        self.lenf,
                        self.f.clone(),
                        exec2(&self.sf),
                        self.lenr - 1,
                        r,
                        exec2(&self.sr),
                    ),
                )
            },
            StreamCell::Nil => match front {
                StreamCell::Nil => None,
                StreamCell::Cons(_, _) => {
                    assert(self@.drop_last() =~= Seq::<T>::empty());
                    Some(Self::empty())
                },
            },
        }
    }
}

impl<T: Clone + 'static> Deque<T> for RealTimeDeque<T> {
    open spec fn elems(&self) -> Seq<T> {
        self@
    }

    fn empty() -> (q: Self) {
        RealTimeDeque::empty()
    }

    fn is_empty(&self) -> (b: bool) {
        RealTimeDeque::is_empty(self)
    }

    fn cons(x: T, xs: &Self) -> (q: Self) {
        RealTimeDeque::cons(x, xs)
    }

    fn head(&self) -> (r: Option<T>) {
        RealTimeDeque::head(self)
    }

    fn tail(&self) -> (r: Option<Self>) {
        RealTimeDeque::tail(self)
    }

    fn snoc(&self, x: T) -> (q: Self) {
        RealTimeDeque::snoc(self, x)
    }

    fn last(&self) -> (r: Option<T>) {
        RealTimeDeque::last(self)
    }

    fn init(&self) -> (r: Option<Self>) {
        RealTimeDeque::init(self)
    }
}

} // verus!
