use vstd::prelude::*;
use vstd::rwlock::RwLock;
use vstd::rwlock::RwLockPredicate;
use std::sync::Arc;
use crate::element::faithful;
use crate::stack::Stack;
use crate::deque::real_time_deque::drop_rank;
use crate::deque::real_time_deque::lemma_drop_rank_base;
use crate::deque::real_time_deque::lemma_rev_rank_floor;
use crate::deque::real_time_deque::rev_rank;
use crate::deque::real_time_deque::rotate_drop;
use crate::deque::real_time_deque::rotate_rev;
use crate::queue::real_time_queue::rotate;
use crate::queue::real_time_queue::rotate_rank;

verus! {

/// A computation that can be run once.
trait Task<T> {
    spec fn ready(&self) -> bool;

    spec fn yields(&self, r: T) -> bool;

    fn run(self: Box<Self>) -> (r: T)
        requires
            self.ready(),
        ensures
            self.yields(r),
    ;
}

struct FnTask<F> {
    f: F,
}

impl<T, F: FnOnce() -> T> Task<T> for FnTask<F> {
    closed spec fn ready(&self) -> bool {
        self.f.requires(())
    }

    closed spec fn yields(&self, r: T) -> bool {
        self.f.ensures((), r)
    }

    fn run(self: Box<Self>) -> (r: T) {
        let task = *self;
        (task.f)()
    }
}

/// What a memo cell holds: the work still to do, or its result.
pub(crate) enum Memo<P, V> {
    Pending(P),
    Forced(V),
}

#[verifier::reject_recursive_types(T)]
struct LazyInv<T> {
    post: spec_fn(T) -> bool,
}

impl<T> RwLockPredicate<Memo<Box<dyn Task<T>>, Arc<T>>> for LazyInv<T> {
    closed spec fn inv(self, v: Memo<Box<dyn Task<T>>, Arc<T>>) -> bool {
        match v {
            Memo::Pending(t) => t.ready() && forall|r: T| t.yields(r) ==> (self.post)(r),
            Memo::Forced(x) => (self.post)(*x),
        }
    }
}

/// A suspended computation that runs at most once: the first `force` runs it
/// and keeps the result, which every later `force`, on this handle or on a
/// clone of it, hands out again.
#[verifier::reject_recursive_types(T)]
pub struct Lazy<T> {
    cell: Arc<RwLock<Memo<Box<dyn Task<T>>, Arc<T>>, LazyInv<T>>>,
}

impl<T> Clone for Lazy<T> {
    fn clone(&self) -> (r: Self)
        ensures
            r == *self,
    {
        Lazy { cell: self.cell.clone() }
    }
}

impl<T> Lazy<T> {
    /// Whether `v` is a value that the suspended computation may give.
    pub closed spec fn yields(&self, v: T) -> bool {
        (self.cell.pred().post)(v)
    }
}

impl<T: Clone> Lazy<T> {
    /// Suspends `f`: nothing runs before the first `force`.
    pub fn new<F: FnOnce() -> T + 'static>(f: F) -> (l: Self)
        requires
            f.requires(()),
        ensures
            forall|v: T| l.yields(v) <==> f.ensures((), v),
    {
        let ghost inv = LazyInv { post: |v: T| f.ensures((), v) };
        let st: Memo<Box<dyn Task<T>>, Arc<T>> = Memo::Pending(Box::new(FnTask { f }));
        Lazy { cell: Arc::new(RwLock::new(st, Ghost(inv))) }
    }

    /// The result of the computation, shared with the cell that keeps it.
    pub fn shared(&self) -> (r: Arc<T>)
        ensures
            self.yields(*r),
    {
        let (st, handle) = self.cell.acquire_write();
        let x = match st {
            Memo::Pending(t) => Arc::new(t.run()),
            Memo::Forced(x) => x,
        };
        let r = x.clone();
        handle.release_write(Memo::Forced(x));
        r
    }

    /// The result of the computation: a copy of what the memo cell keeps.
    pub fn force(&self) -> (r: T)
        requires
            faithful::<T>(),
        ensures
            self.yields(r),
    {
        let x = self.shared();
        T::clone(&x)
    }
}

/// Memoising: where the suspended computation can give one value only, every
/// force gives it, on the handle or on a clone of it.
pub proof fn lemma_force_agrees<T>(l: Lazy<T>, copy: Lazy<T>, first: T, second: T)
    requires
        copy == l,
        forall|x: T, y: T| l.yields(x) && l.yields(y) ==> x == y,
        l.yields(first),
        copy.yields(second),
    ensures
        first == second,
{
}

/// The first cell of a lazy sequence, once forced.
pub enum StreamCell<T> {
    Nil,
    Cons(T, Stream<T>),
}

/// A step of work that a lazy sequence has put off: each names the sequences
/// it will read when its first cell is asked for.
pub(crate) enum Op<T> {
    /// The sequence without its first element.
    Tail(Stream<T>),
    /// The first sequence, then the second.
    Extend(Stream<T>, Stream<T>),
    /// The first so many elements of the sequence.
    Take(Stream<T>, usize),
    /// The sequence without its first so many elements.
    Drop(Stream<T>, usize),
    /// The sequence in the opposite order.
    Reverse(Stream<T>),
    /// The element, then the elements of the list.
    FromList(T, Stack<T>),
    /// The element, then the rotation of a queue: the front, the back list
    /// reversed, and what has been turned over so far.
    Rotate(T, Stream<T>, Stack<T>, Stream<T>),
    /// The element, then the rotation of a deque: the front, the back
    /// reversed, and what has been turned over so far, so many elements of
    /// the back for each cell of the front.
    RotateRev(T, Stream<T>, Stream<T>, Stream<T>, usize),
    /// The element, then the rotation of a deque that first drops so many
    /// elements of the back, some for each cell of the front.
    RotateDrop(T, Stream<T>, usize, Stream<T>, usize),
}

struct StreamInv<T> {
    elems: Seq<T>,
    rank: nat,
}

/// A persistent lazy sequence: a handle to a memo cell that holds either the
/// work that produces the first cell, or that cell. Clones of a handle share
/// the memo cell.
pub struct Stream<T> {
    cell: Arc<RwLock<Memo<Op<T>, StreamCell<T>>, StreamInv<T>>>,
    elems: Ghost<Seq<T>>,
    rank: Ghost<nat>,
}

/// `n`, or `len` where `n` is beyond it.
pub open spec fn clip(n: usize, len: nat) -> int {
    if n <= len {
        n as int
    } else {
        len as int
    }
}

impl<T> StreamCell<T> {
    /// Whether this is the first cell of a sequence with the elements `s`.
    pub open spec fn heads(self, s: Seq<T>) -> bool {
        match self {
            StreamCell::Nil => s.len() == 0,
            StreamCell::Cons(x, t) => s.len() > 0 && s[0] == x && t@ == s.skip(1),
        }
    }

    /// `heads`, and the tail has less work pending than `rank` allows.
    pub open spec fn heads_within(self, s: Seq<T>, rank: nat) -> bool {
        &&& self.heads(s)
        &&& self matches StreamCell::Cons(_, t) ==> t.rank() < rank
    }
}

impl<T> Op<T> {
    /// Whether the step, done, gives the first cell of a sequence with the
    /// elements `s`.
    pub(crate) open spec fn denotes(self, s: Seq<T>) -> bool {
        match self {
            Op::Tail(a) => a@.len() > 0 && s == a@.skip(1),
            Op::Extend(a, b) => s == a@ + b@,
            Op::Take(a, n) => s == a@.take(clip(n, a@.len())),
            Op::Drop(a, n) => s == a@.skip(clip(n, a@.len())),
            Op::Reverse(a) => s == a@.reverse(),
            Op::FromList(x, xs) => s == seq![x] + xs@,
            Op::Rotate(x, f, r, a) => {
                &&& r@.len() == f@.len() + 2
                &&& s == seq![x] + (f@ + r@.reverse() + a@)
            },
            Op::RotateRev(x, f, r, a, c) => s == seq![x] + (f@ + r@.reverse() + a@),
            Op::RotateDrop(x, f, j, r, c) => {
                &&& 0 < c <= j <= r@.len()
                &&& j - c <= c * f@.len() + (c - 1)
                &&& s == seq![x] + (f@ + r@.skip(j as int).reverse())
            },
        }
    }

    /// A bound on the ranks of what the step reads and builds.
    pub(crate) open spec fn weight(self) -> nat {
        match self {
            Op::Tail(a) => a.rank(),
            Op::Extend(a, b) => a.rank() + b.rank(),
            Op::Take(a, _) => a.rank(),
            Op::Drop(a, _) => a.rank(),
            Op::Reverse(a) => a.rank(),
            Op::FromList(_, xs) => xs@.len(),
            Op::Rotate(_, f, _, a) => rotate_rank(f.rank(), a.rank() + 1),
            Op::RotateRev(_, f, r, a, _) => rev_rank(f.rank(), r.rank() + 1, r.rank() + a.rank() + 4),
            Op::RotateDrop(_, f, _, r, _) => drop_rank(f.rank(), r.rank() + 1),
        }
    }
}

impl<T> RwLockPredicate<Memo<Op<T>, StreamCell<T>>> for StreamInv<T> {
    closed spec fn inv(self, v: Memo<Op<T>, StreamCell<T>>) -> bool {
        match v {
            Memo::Pending(op) => op.denotes(self.elems) && op.weight() < self.rank,
            Memo::Forced(c) => c.heads_within(self.elems, self.rank),
        }
    }
}

impl<T> View for Stream<T> {
    type V = Seq<T>;

    closed spec fn view(&self) -> Seq<T> {
        self.elems@
    }
}

impl<T> Clone for Stream<T> {
    fn clone(&self) -> (r: Self)
        ensures
            r == *self,
    {
        proof {
            use_type_invariant(self);
        }
        Stream { cell: self.cell.clone(), elems: self.elems, rank: self.rank }
    }
}

impl<T: Clone> Clone for StreamCell<T> {
    fn clone(&self) -> (r: Self)
        ensures
            faithful::<T>() ==> r == *self,
    {
        match self {
            StreamCell::Nil => StreamCell::Nil,
            StreamCell::Cons(x, xs) => StreamCell::Cons(x.clone(), xs.clone()),
        }
    }
}

impl<T> Stream<T> {
    /// The first element, where there is one.
    pub open spec fn spec_head(&self) -> Option<T> {
        if self@.len() == 0 {
            None
        } else {
            Some(self@[0])
        }
    }

    /// A ghost measure of the work that forcing may still have to do: forcing
    /// reads only sequences of smaller rank, which is why it ends.
    pub closed spec fn rank(&self) -> nat {
        self.rank@
    }

    #[verifier::type_invariant]
    spec fn wf(&self) -> bool {
        &&& self.cell.pred() == (StreamInv { elems: self.elems@, rank: self.rank@ })
        &&& self.rank@ >= self.elems@.len()
    }

    /// Does nothing when run; its contract hands out that the rank is never
    /// below the length.
    pub(crate) fn ranked(&self)
        ensures
            self.rank() >= self@.len(),
    {
        proof {
            use_type_invariant(self);
        }
    }

    pub(crate) fn suspend(op: Op<T>, Ghost(elems): Ghost<Seq<T>>, Ghost(rank): Ghost<nat>) -> (s: Self)
        requires
            op.denotes(elems),
            op.weight() < rank,
            rank >= elems.len(),
        ensures
            s@ == elems,
            s.rank() == rank,
    {
        let ghost inv = StreamInv { elems, rank };
        Stream {
            cell: Arc::new(RwLock::new(Memo::Pending(op), Ghost(inv))),
            elems: Ghost(elems),
            rank: Ghost(rank),
        }
    }

    fn forced(c: StreamCell<T>, Ghost(elems): Ghost<Seq<T>>, Ghost(rank): Ghost<nat>) -> (s: Self)
        requires
            c.heads_within(elems, rank),
            rank >= elems.len(),
        ensures
            s@ == elems,
            s.rank() == rank,
    {
        let ghost inv = StreamInv { elems, rank };
        Stream {
            cell: Arc::new(RwLock::new(Memo::Forced(c), Ghost(inv))),
            elems: Ghost(elems),
            rank: Ghost(rank),
        }
    }

    /// The sequence with no element.
    pub fn empty() -> (s: Self)
        ensures
            s@ == Seq::<T>::empty(),
            s.rank() == 0,
    {
        Self::forced(StreamCell::Nil, Ghost(Seq::empty()), Ghost(0))
    }

    /// The sequence that starts with `head` and goes on with `tail`.
    pub fn prepend(head: T, tail: Self) -> (s: Self)
        ensures
            s@ == seq![head] + tail@,
            s.rank() == tail.rank() + 1,
    {
        proof {
            use_type_invariant(&tail);
            assert((seq![head] + tail@).skip(1) =~= tail@);
        }
        let ghost elems = seq![head] + tail@;
        let ghost rank = tail.rank() + 1;
        Self::forced(StreamCell::Cons(head, tail), Ghost(elems), Ghost(rank))
    }
}

impl<T: Clone + 'static> Stream<T> {
    /// The first cell of the sequence. The first call on a memo cell does the
    /// work that was put off and keeps the cell; later calls, on any clone of
    /// the handle, hand that cell out again.
    pub fn force(&self) -> (c: StreamCell<T>)
        requires
            faithful::<T>(),
        ensures
            c.heads_within(self@, self.rank()),
        decreases self.rank(), 1nat,
    {
        proof {
            use_type_invariant(self);
        }
        let (st, handle) = self.cell.acquire_write();
        let c = match st {
            Memo::Pending(op) => Self::eval(op, Ghost(self@), Ghost(self.rank())),
            Memo::Forced(c) => c,
        };
        let r = c.clone();
        handle.release_write(Memo::Forced(c));
        r
    }

    /// Does one step of put-off work: the first cell of what `op` stands for.
    fn eval(op: Op<T>, Ghost(elems): Ghost<Seq<T>>, Ghost(rank): Ghost<nat>) -> (c: StreamCell<T>)
        requires
            faithful::<T>(),
            op.denotes(elems),
            op.weight() < rank,
        ensures
            c.heads_within(elems, rank),
        decreases rank, 0nat,
    {
        match op {
            Op::Tail(a) => match a.force() {
                StreamCell::Nil => unreached(),
                StreamCell::Cons(_, xs) => xs.force(),
            },
            Op::Extend(a, b) => match a.force() {
                StreamCell::Nil => b.force(),
                StreamCell::Cons(x, xs) => {
                    let rest = xs.extend(&b);
                    assert((a@ + b@).skip(1) =~= xs@ + b@);
                    StreamCell::Cons(x, rest)
                },
            },
            Op::Take(a, n) => {
                if n == 0 {
                    StreamCell::Nil
                } else {
                    match a.force() {
                        StreamCell::Nil => StreamCell::Nil,
                        StreamCell::Cons(x, xs) => {
                            let rest = xs.take(n - 1);
                            assert(a@.take(clip(n, a@.len())).skip(1) =~= xs@.take(
                                clip((n - 1) as usize, xs@.len()),
                            ));
                            StreamCell::Cons(x, rest)
                        },
                    }
                }
            },
            Op::Drop(a, n) => {
                if n == 0 {
                    assert(a@.skip(0) =~= a@);
                    a.force()
                } else {
                    match a.force() {
                        StreamCell::Nil => StreamCell::Nil,
                        StreamCell::Cons(_, xs) => {
                            let rest = xs.drop(n - 1);
                            assert(a@.skip(clip(n, a@.len())) =~= xs@.skip(
                                clip((n - 1) as usize, xs@.len()),
                            ));
                            rest.force()
                        },
                    }
                }
            },
            Op::Reverse(a) => {
                a.ranked();
                let r = Self::rev(a, Self::empty());
                r.force()
            },
            Op::FromList(x, xs) => {
                let rest = xs.to_stream();
                assert((seq![x] + xs@).skip(1) =~= xs@);
                StreamCell::Cons(x, rest)
            },
            Op::Rotate(x, f, r, a) => {
                let y = r.head().unwrap();
                let rest = rotate(&f, &r.tail().unwrap(), &Self::prepend(y, a));
                assert(elems.skip(1) =~= f@ + r@.reverse() + a@);
                assert(f@ + r@.skip(1).reverse() + (seq![y] + a@) =~= f@ + r@.reverse() + a@);
                StreamCell::Cons(x, rest)
            },
            Op::RotateRev(x, f, r, a, c) => {
                proof {
                    lemma_rev_rank_floor(f.rank(), r.rank() + 1, r.rank() + a.rank() + 4);
                }
                let back = r.drop(c);
                let acc = r.take(c).reverse().extend(&a);
                let rest = rotate_rev(f, back, acc, c);
                proof {
                    let k = clip(c, r@.len());
                    assert(f@ + r@.skip(k).reverse() + (r@.take(k).reverse() + a@) =~= f@
                        + r@.reverse() + a@);
                    assert(elems.skip(1) =~= f@ + r@.reverse() + a@);
                }
                StreamCell::Cons(x, rest)
            },
            Op::RotateDrop(x, f, j, r, c) => {
                proof {
                    lemma_drop_rank_base(f.rank(), r.rank() + 1);
                }
                let back = r.drop(c);
                let rest = rotate_drop(f, j - c, back, c);
                proof {
                    assert(r@.skip(c as int).skip(j - c) =~= r@.skip(j as int));
                    assert(elems.skip(1) =~= f@ + r@.skip(j as int).reverse());
                }
                StreamCell::Cons(x, rest)
            },
        }
    }

    /// `xs` reversed onto `acc`: the cells of `xs` are forced one after the
    /// other and their elements put in front of `acc`.
    fn rev(xs: Self, acc: Self) -> (r: Self)
        requires
            faithful::<T>(),
        ensures
            r@ == xs@.reverse() + acc@,
            r.rank() == acc.rank() + xs@.len(),
        decreases xs.rank(), 2nat,
    {
        let ghost all = xs@;
        let mut rest = xs;
        let mut done = acc;
        loop
            invariant
                faithful::<T>(),
                rest.rank() <= xs.rank(),
                all == xs@,
                rest@.len() <= all.len(),
                rest@ == all.skip(all.len() - rest@.len()),
                done@ == all.take(all.len() - rest@.len()).reverse() + acc@,
                done.rank() == acc.rank() + all.len() - rest@.len(),
            ensures
                done@ == all.reverse() + acc@,
                done.rank() == acc.rank() + all.len(),
            decreases rest.rank(),
        {
            match rest.force() {
                StreamCell::Nil => {
                    break ;
                },
                StreamCell::Cons(x, t) => {
                    done = Self::prepend(x, done);
                    rest = t;
                },
            }
        }
        done
    }

    /// Whether the sequence is empty, as a suspension: nothing is forced
    /// before the answer is.
    pub fn is_empty(&self) -> (r: Lazy<bool>)
        requires
            faithful::<T>(),
        ensures
            forall|b: bool| r.yields(b) ==> b == (self@.len() == 0),
    {
        let this = self.clone();
        let probe = move || -> (b: bool)
            ensures
                b == (this@.len() == 0)
        {
            matches!(this.force(), StreamCell::Nil)
        };
        Lazy::new(probe)
    }

    /// The sequence whose first element and tail are the pair that `xxs`
    /// yields. The pair is forced when the sequence is built.
    pub fn cons(xxs: Lazy<(T, Self)>) -> (s: Self)
        requires
            faithful::<T>(),
        ensures
            exists|p: (T, Self)| xxs.yields(p) && s@ == seq![p.0] + p.1@,
    {
        let p = xxs.shared();
        Self::prepend(p.0.clone(), p.1.clone())
    }

    /// The first element, as a suspension.
    pub fn head(&self) -> (r: Lazy<Option<T>>)
        requires
            faithful::<T>(),
        ensures
            forall|o: Option<T>| r.yields(o) ==> o == self.spec_head(),
    {
        let this = self.clone();
        let first = move || -> (o: Option<T>)
            ensures
                o == this.spec_head()
        {
            match this.force() {
                StreamCell::Nil => None,
                StreamCell::Cons(x, _) => Some(x),
            }
        };
        Lazy::new(first)
    }

    /// The sequence without its first element; the first is not forced before
    /// the result is.
    pub fn tail(&self) -> (r: Self)
        requires
            self@.len() > 0,
        ensures
            r@ == self@.skip(1),
            r.rank() == self.rank() + 1,
    {
        self.ranked();
        Self::suspend(Op::Tail(self.clone()), Ghost(self@.skip(1)), Ghost(self.rank() + 1))
    }

    /// `self` followed by `other`.
    pub fn extend(&self, other: &Self) -> (r: Self)
        ensures
            r@ == self@ + other@,
            r.rank() == self.rank() + other.rank() + 1,
    {
        self.ranked();
        other.ranked();
        Self::suspend(
            Op::Extend(self.clone(), other.clone()),
            Ghost(self@ + other@),
            Ghost(self.rank() + other.rank() + 1),
        )
    }

    /// The first `n` elements, or all of them where there are fewer.
    pub fn take(&self, n: usize) -> (r: Self)
        ensures
            r@ == self@.take(clip(n, self@.len())),
            r.rank() == self.rank() + 1,
    {
        self.ranked();
        Self::suspend(
            Op::Take(self.clone(), n),
            Ghost(self@.take(clip(n, self@.len()))),
            Ghost(self.rank() + 1),
        )
    }

    /// What is left after the first `n` elements; nothing where there are
    /// fewer.
    pub fn drop(&self, n: usize) -> (r: Self)
        ensures
            r@ == self@.skip(clip(n, self@.len())),
            r.rank() == self.rank() + 1,
    {
        self.ranked();
        Self::suspend(
            Op::Drop(self.clone(), n),
            Ghost(self@.skip(clip(n, self@.len()))),
            Ghost(self.rank() + 1),
        )
    }

    /// The elements in the opposite order. The whole of `self` is walked when
    /// the first cell of the result is forced.
    pub fn reverse(&self) -> (r: Self)
        ensures
            r@ == self@.reverse(),
            r.rank() == self.rank() + 1,
    {
        self.ranked();
        Self::suspend(Op::Reverse(self.clone()), Ghost(self@.reverse()), Ghost(self.rank() + 1))
    }
}

/// Reversing twice gives back the elements in their first order.
pub proof fn lemma_reverse_twice<T>(s: Stream<T>, once: Stream<T>, twice: Stream<T>)
    requires
        once@ == s@.reverse(),
        twice@ == once@.reverse(),
    ensures
        twice@ == s@,
{
}

} // verus!
