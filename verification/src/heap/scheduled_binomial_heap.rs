use vstd::multiset::Multiset;
use vstd::prelude::*;
use vstd::rwlock::RwLock;
use vstd::rwlock::RwLockPredicate;
use std::sync::Arc;
use crate::element::at_most;
use crate::element::faithful;
use crate::element::is_min;
use crate::element::min_removed;
use crate::element::le;
use crate::element::ordered;
use crate::error::Error;
use crate::heap::Heap;
use crate::lazy::Memo;
use crate::stack::Cell;
use crate::stack::Stack;

verus! {

/// A heap-ordered tree: the root is not above anything below it. A leaf
/// holds no list of subtrees.
#[verifier::reject_recursive_types(T)]
pub(crate) struct Tree<T>(pub T, pub Option<Stack<Tree<T>>>);

/// One place of the binary counter that the forest is kept as.
#[verifier::reject_recursive_types(T)]
pub(crate) enum Digit<T> {
    Zero,
    One(Tree<T>),
}

/// The first cell of a sequence of digits, once forced.
#[verifier::reject_recursive_types(T)]
pub(crate) enum DigitCell<T: PartialOrd> {
    Nil,
    Cons(Digit<T>, Digits<T>),
}

/// A carry that has been put off.
#[verifier::reject_recursive_types(T)]
pub(crate) enum Carry<T: PartialOrd> {
    /// A zero, then the link of the two trees inserted into the digits.
    Link(Tree<T>, Tree<T>, Digits<T>),
    /// The digit, then the two sequences merged.
    Pass(Digit<T>, Digits<T>, Digits<T>),
    /// A zero, then the link of the two trees inserted into the merged
    /// sequences.
    Both(Tree<T>, Tree<T>, Digits<T>, Digits<T>),
    /// The tree as a one, then a one for each tree of the list.
    Ones(Tree<T>, Stack<Tree<T>>),
}

#[verifier::reject_recursive_types(T)]
struct DigitsInv<T> {
    bag: Multiset<T>,
    place: nat,
    number: nat,
    rank: nat,
}

/// A lazy sequence of digits, lowest place first.
#[verifier::reject_recursive_types(T)]
pub(crate) struct Digits<T: PartialOrd> {
    cell: Arc<RwLock<Memo<Carry<T>, DigitCell<T>>, DigitsInv<T>>>,
    bag: Ghost<Multiset<T>>,
    place: Ghost<nat>,
    number: Ghost<nat>,
    rank: Ghost<nat>,
}

/// The elements of the trees of a list.
pub(crate) open spec fn forest_bag<T>(l: Stack<Tree<T>>) -> Multiset<T>
    decreases l,
{
    match l.cell() {
        Cell::Nil => Multiset::empty(),
        Cell::Cons(t, rest) => t.bag().add(forest_bag(rest)),
    }
}

/// Whether every tree of a list is heap-ordered.
pub(crate) open spec fn forest_ok<T: PartialOrd>(l: Stack<Tree<T>>) -> bool
    decreases l,
{
    match l.cell() {
        Cell::Nil => true,
        Cell::Cons(t, rest) => t.ok() && forest_ok(rest),
    }
}

/// Whether the trees of a list are binomial trees of the ranks `r - 1` down
/// to 0, as the subtrees of a binomial tree of rank `r` are.
pub(crate) open spec fn forest_shaped<T>(l: Stack<Tree<T>>, r: nat) -> bool
    decreases l,
{
    match l.cell() {
        Cell::Nil => r == 0,
        Cell::Cons(t, rest) => r > 0 && t.shaped((r - 1) as nat) && forest_shaped(
            rest,
            (r - 1) as nat,
        ),
    }
}

/// Whether the trees of a list are binomial trees of the ranks `r`, `r + 1`
/// and so on, as the trees at the places of a binary counter from `r` on are.
pub(crate) open spec fn forest_rising<T>(l: Stack<Tree<T>>, r: nat) -> bool
    decreases l,
{
    match l.cell() {
        Cell::Nil => true,
        Cell::Cons(t, rest) => t.shaped(r) && forest_rising(rest, r + 1),
    }
}

impl<T> Tree<T> {
    /// Whether the tree is a binomial tree of rank `r`: a root over binomial
    /// trees of the ranks `r - 1` down to 0.
    pub(crate) open spec fn shaped(self, r: nat) -> bool
        decreases self,
    {
        match self.1 {
            None => r == 0,
            Some(l) => forest_shaped(l, r),
        }
    }

    /// The subtrees of the root, first the one that was put under it last.
    pub(crate) open spec fn subtrees(self) -> Seq<Tree<T>> {
        match self.1 {
            None => Seq::empty(),
            Some(l) => l@,
        }
    }

    /// The number of subtrees of the root.
    pub(crate) open spec fn spec_rank(self) -> nat {
        match self.1 {
            None => 0,
            Some(l) => l@.len(),
        }
    }

    /// The elements of the tree.
    pub(crate) open spec fn bag(self) -> Multiset<T>
        decreases self,
    {
        Multiset::singleton(self.0).add(self.below())
    }

    /// The elements of the subtrees.
    pub(crate) open spec fn below(self) -> Multiset<T>
        decreases self, 0nat,
    {
        match self.1 {
            None => Multiset::empty(),
            Some(l) => forest_bag(l),
        }
    }
}

impl<T: PartialOrd> Tree<T> {
    /// Whether the root is not above anything below it, here and in every
    /// subtree.
    pub(crate) open spec fn ok(self) -> bool
        decreases self,
    {
        &&& forall|y: T| self.below().contains(y) ==> le(self.0, y)
        &&& match self.1 {
            None => true,
            Some(l) => forest_ok(l),
        }
    }
}

impl<T> Digit<T> {
    pub(crate) open spec fn bag(self) -> Multiset<T> {
        match self {
            Digit::Zero => Multiset::empty(),
            Digit::One(t) => t.bag(),
        }
    }
}

impl<T> Digit<T> {
    /// The digit as a number: 0 or 1.
    pub(crate) open spec fn bit(self) -> nat {
        match self {
            Digit::Zero => 0,
            Digit::One(_) => 1,
        }
    }
}

/// The number whose binary digits are `n` ones.
pub(crate) open spec fn all_ones(n: nat) -> nat
    decreases n,
{
    if n == 0 {
        0
    } else {
        2 * all_ones((n - 1) as nat) + 1
    }
}

impl<T: PartialOrd> Digit<T> {
    /// Whether the digit can stand at the place for trees of rank `place`: a
    /// zero, or a heap-ordered binomial tree of that rank.
    pub(crate) open spec fn ok(self, place: nat) -> bool {
        match self {
            Digit::Zero => true,
            Digit::One(t) => t.ok() && t.shaped(place),
        }
    }
}

impl<T: Clone> Clone for Tree<T> {
    fn clone(&self) -> (r: Self)
        ensures
            faithful::<T>() ==> r == *self,
    {
        let kids = match &self.1 {
            None => None,
            Some(l) => Some(l.clone()),
        };
        Tree(self.0.clone(), kids)
    }
}

impl<T: Clone> Clone for Digit<T> {
    fn clone(&self) -> (r: Self)
        ensures
            faithful::<T>() ==> r == *self,
    {
        match self {
            Digit::Zero => Digit::Zero,
            Digit::One(t) => Digit::One(t.clone()),
        }
    }
}

impl<T: PartialOrd> Clone for Digits<T> {
    fn clone(&self) -> (r: Self)
        ensures
            r == *self,
    {
        proof {
            use_type_invariant(self);
        }
        Digits {
            cell: self.cell.clone(),
            bag: self.bag,
            place: self.place,
            number: self.number,
            rank: self.rank,
        }
    }
}

impl<T: Clone + PartialOrd> Clone for DigitCell<T> {
    fn clone(&self) -> (r: Self)
        ensures
            faithful::<T>() ==> r == *self,
    {
        match self {
            DigitCell::Nil => DigitCell::Nil,
            DigitCell::Cons(d, ds) => DigitCell::Cons(d.clone(), ds.clone()),
        }
    }
}

impl<T: PartialOrd> DigitCell<T> {
    /// Whether this is the first cell of digits that hold `bag`, start at the
    /// place for trees of rank `place` and stand for `number`: heap-ordered
    /// binomial trees, each of the rank of its place, the first digit the
    /// lowest binary digit of `number`, and no cell at all where there is no
    /// element.
    pub(crate) open spec fn heads(self, bag: Multiset<T>, place: nat, number: nat, rank: nat) -> bool {
        match self {
            DigitCell::Nil => bag == Multiset::<T>::empty() && number == 0,
            DigitCell::Cons(d, rest) => {
                &&& d.ok(place)
                &&& rest.place() == place + 1
                &&& number == 2 * rest.number() + d.bit()
                &&& bag == d.bag().add(rest.bag())
                &&& bag.len() > 0
                &&& rest.rank() < rank
            },
        }
    }
}

impl<T: PartialOrd> Carry<T> {
    /// Whether the carry, done, gives digits that hold `bag`, start at the
    /// place for trees of rank `place` and stand for `number`.
    pub(crate) open spec fn denotes(self, bag: Multiset<T>, place: nat, number: nat) -> bool {
        match self {
            Carry::Link(t1, t2, ds) => {
                &&& Digit::One(t1).ok(place)
                &&& Digit::One(t2).ok(place)
                &&& ds.place() == place + 1
                &&& number == 2 * (ds.number() + 1)
                &&& bag == t1.bag().add(t2.bag()).add(ds.bag())
            },
            Carry::Pass(d, a, b) => {
                &&& d.ok(place)
                &&& a.place() == place + 1
                &&& b.place() == place + 1
                &&& number == 2 * (a.number() + b.number()) + d.bit()
                &&& bag == d.bag().add(a.bag().add(b.bag()))
                &&& bag.len() > 0
            },
            Carry::Both(t1, t2, a, b) => {
                &&& Digit::One(t1).ok(place)
                &&& Digit::One(t2).ok(place)
                &&& a.place() == place + 1
                &&& b.place() == place + 1
                &&& number == 2 * (a.number() + b.number() + 1)
                &&& bag == t1.bag().add(t2.bag()).add(a.bag().add(b.bag()))
            },
            Carry::Ones(t, rest) => {
                &&& Digit::One(t).ok(place)
                &&& forest_ok(rest)
                &&& forest_rising(rest, place + 1)
                &&& number == 2 * all_ones(rest@.len()) + 1
                &&& bag == t.bag().add(forest_bag(rest))
            },
        }
    }

    pub(crate) open spec fn weight(self) -> nat {
        match self {
            Carry::Link(_, _, ds) => ds.rank() + 1,
            Carry::Pass(_, a, b) => a.rank() + b.rank() + 2,
            Carry::Both(_, _, a, b) => a.rank() + b.rank() + 2,
            Carry::Ones(_, rest) => rest@.len(),
        }
    }
}

impl<T: PartialOrd> RwLockPredicate<Memo<Carry<T>, DigitCell<T>>> for DigitsInv<T> {
    closed spec fn inv(self, v: Memo<Carry<T>, DigitCell<T>>) -> bool {
        match v {
            Memo::Pending(op) => op.denotes(self.bag, self.place, self.number) && op.weight()
                < self.rank,
            Memo::Forced(c) => c.heads(self.bag, self.place, self.number, self.rank),
        }
    }
}

impl<T: PartialOrd> Digits<T> {
    /// The elements of the trees of all digits.
    pub(crate) closed spec fn bag(&self) -> Multiset<T> {
        self.bag@
    }

    /// The rank of the tree that the first digit may hold: the place of the
    /// binary counter at which these digits start.
    pub(crate) closed spec fn place(&self) -> nat {
        self.place@
    }

    /// The number that the digits stand for, read as a binary numeral with
    /// the first digit as the lowest: the number of trees, counted in trees
    /// of the first place.
    pub(crate) closed spec fn number(&self) -> nat {
        self.number@
    }

    /// Whether there is a first digit and it is a zero: the number that the
    /// digits stand for is even and not 0.
    pub(crate) open spec fn starts_with_zero(&self) -> bool {
        self.number() > 0 && self.number() % 2 == 0
    }

    /// Whether `rest` can be what follows a zero at the start of these
    /// digits: it holds the same elements, starts one place higher and stands
    /// for half the number, with less work put off.
    pub(crate) open spec fn follows(&self, rest: Self) -> bool {
        &&& rest.bag() == self.bag()
        &&& rest.place() == self.place() + 1
        &&& 2 * rest.number() == self.number()
        &&& rest.rank() < self.rank()
    }

    /// A ghost measure of the work that forcing may still have to do.
    pub(crate) closed spec fn rank(&self) -> nat {
        self.rank@
    }

    #[verifier::type_invariant]
    spec fn wf(&self) -> bool {
        &&& self.cell.pred() == (DigitsInv {
            bag: self.bag@,
            place: self.place@,
            number: self.number@,
            rank: self.rank@,
        })
        &&& (self.bag@.len() > 0) == (self.number@ > 0)
    }

    fn suspend(
        op: Carry<T>,
        Ghost(bag): Ghost<Multiset<T>>,
        Ghost(place): Ghost<nat>,
        Ghost(number): Ghost<nat>,
        Ghost(rank): Ghost<nat>,
    ) -> (s: Self)
        requires
            op.denotes(bag, place, number),
            op.weight() < rank,
            (bag.len() > 0) == (number > 0),
        ensures
            s.bag() == bag,
            s.place() == place,
            s.number() == number,
            s.rank() == rank,
    {
        let ghost inv = DigitsInv { bag, place, number, rank };
        Digits {
            cell: Arc::new(RwLock::new(Memo::Pending(op), Ghost(inv))),
            bag: Ghost(bag),
            place: Ghost(place),
            number: Ghost(number),
            rank: Ghost(rank),
        }
    }

    fn forced(
        c: DigitCell<T>,
        Ghost(bag): Ghost<Multiset<T>>,
        Ghost(place): Ghost<nat>,
        Ghost(number): Ghost<nat>,
        Ghost(rank): Ghost<nat>,
    ) -> (s: Self)
        requires
            c.heads(bag, place, number, rank),
            (bag.len() > 0) == (number > 0),
        ensures
            s.bag() == bag,
            s.place() == place,
            s.number() == number,
            s.rank() == rank,
    {
        let ghost inv = DigitsInv { bag, place, number, rank };
        Digits {
            cell: Arc::new(RwLock::new(Memo::Forced(c), Ghost(inv))),
            bag: Ghost(bag),
            place: Ghost(place),
            number: Ghost(number),
            rank: Ghost(rank),
        }
    }

    /// No digit, at the place for trees of rank `place`.
    pub(crate) fn empty(Ghost(place): Ghost<nat>) -> (s: Self)
        ensures
            s.bag() == Multiset::<T>::empty(),
            s.place() == place,
            s.number() == 0,
            s.rank() == 0,
    {
        Self::forced(DigitCell::Nil, Ghost(Multiset::empty()), Ghost(place), Ghost(0), Ghost(0))
    }

    /// The digit `d`, then the digits `rest`.
    pub(crate) fn prepend(d: Digit<T>, rest: Self) -> (s: Self)
        requires
            rest.place() > 0,
            d.ok((rest.place() - 1) as nat),
            d.bag().add(rest.bag()).len() > 0,
        ensures
            s.bag() == d.bag().add(rest.bag()),
            s.place() == rest.place() - 1,
            s.number() == 2 * rest.number() + d.bit(),
            s.rank() == rest.rank() + 1,
    {
        let ghost bag = d.bag().add(rest.bag());
        let ghost place = (rest.place() - 1) as nat;
        let ghost rank = rest.rank() + 1;
        let ghost number = 2 * rest.number() + d.bit();
        proof {
            use_type_invariant(&rest);
            if d is Zero {
                assert(d.bag().add(rest.bag()) =~= rest.bag());
            }
        }
        Self::forced(DigitCell::Cons(d, rest), Ghost(bag), Ghost(place), Ghost(number), Ghost(rank))
    }
}

/// A tree's elements are its root and those of its subtrees, so there is one
/// at least.
pub(crate) proof fn lemma_tree_bag<T>(t: Tree<T>)
    ensures
        t.bag().contains(t.0),
        t.bag().len() > 0,
        t.bag() == Multiset::singleton(t.0).add(t.below()),
{
}

impl<T> Tree<T> {
    /// The subtrees, first the one that was put under the root last.
    pub(crate) fn kids(&self) -> (l: Stack<Tree<T>>)
        ensures
            forest_bag(l) == self.below(),
            l@ == self.subtrees(),
            self.1 matches Some(k) ==> l == k,
            self.1 is None ==> l.cell() is Nil,
            forall|r: nat| self.shaped(r) ==> forest_shaped(l, r),
    {
        match &self.1 {
            None => Stack::empty(),
            Some(l) => l.clone(),
        }
    }
}

/// The two trees as one, the lesser root on top; the first where the roots
/// compare alike.
pub(crate) fn link<T: Clone + PartialOrd>(t1: Tree<T>, t2: Tree<T>, Ghost(r): Ghost<nat>) -> (t: Tree<T>)
    requires
        faithful::<T>(),
        ordered::<T>(),
        t1.ok(),
        t2.ok(),
        t1.shaped(r),
        t2.shaped(r),
    ensures
        t.ok(),
        t.shaped(r + 1),
        t.bag() == t1.bag().add(t2.bag()),
        t.0 == (if le(t1.0, t2.0) {
            t1.0
        } else {
            t2.0
        }),
        t.subtrees() == (if le(t1.0, t2.0) {
            seq![t2] + t1.subtrees()
        } else {
            seq![t1] + t2.subtrees()
        }),
{
    if at_most(&t1.0, &t2.0) {
        let kids = t1.kids();
        assert(forest_ok(kids));
        let t = Tree(t1.0.clone(), Some(Stack::cons(t2, kids)));
        proof {
            assert forall|y: T| t.below().contains(y) implies le(t.0, y) by {
                if t2.bag().contains(y) {
                    assert(le(t1.0, t2.0) && (le(t2.0, y) || y == t2.0));
                }
            }
        }
        t
    } else {
        let kids = t2.kids();
        assert(forest_ok(kids));
        let t = Tree(t2.0.clone(), Some(Stack::cons(t1, kids)));
        proof {
            assert forall|y: T| t.below().contains(y) implies le(t.0, y) by {
                if t1.bag().contains(y) {
                    assert(le(t2.0, t1.0) && (le(t1.0, y) || y == t1.0));
                }
            }
        }
        t
    }
}

impl<T: Clone + PartialOrd + 'static> Digits<T> {
    /// The first cell of the digits; a carry that was put off is done by the
    /// first call and kept.
    pub(crate) fn force(&self) -> (c: DigitCell<T>)
        requires
            faithful::<T>(),
            ordered::<T>(),
        ensures
            c.heads(self.bag(), self.place(), self.number(), self.rank()),
        decreases self.rank(), 1nat,
    {
        proof {
            use_type_invariant(self);
        }
        let (st, handle) = self.cell.acquire_write();
        let c = match st {
            Memo::Pending(op) => Self::eval(
                op,
                Ghost(self.bag()),
                Ghost(self.place()),
                Ghost(self.number()),
                Ghost(self.rank()),
            ),
            Memo::Forced(c) => c,
        };
        let r = c.clone();
        handle.release_write(Memo::Forced(c));
        r
    }

    /// Does one carry that was put off.
    fn eval(
        op: Carry<T>,
        Ghost(bag): Ghost<Multiset<T>>,
        Ghost(place): Ghost<nat>,
        Ghost(number): Ghost<nat>,
        Ghost(rank): Ghost<nat>,
    ) -> (c: DigitCell<T>)
        requires
            faithful::<T>(),
            ordered::<T>(),
            op.denotes(bag, place, number),
            op.weight() < rank,
        ensures
            c.heads(bag, place, number, rank),
        decreases rank, 0nat,
    {
        match op {
            Carry::Link(t1, t2, ds) => {
                let rest = ins_tree(link(t1, t2, Ghost(place)), ds);
                proof {
                    assert(bag =~= Digit::<T>::Zero.bag().add(rest.bag()));
                }
                DigitCell::Cons(Digit::Zero, rest)
            },
            Carry::Pass(d, a, b) => {
                let rest = merge(a, b);
                DigitCell::Cons(d, rest)
            },
            Carry::Both(t1, t2, a, b) => {
                let rest = ins_tree(link(t1, t2, Ghost(place)), merge(a, b));
                proof {
                    assert(bag =~= Digit::<T>::Zero.bag().add(rest.bag()));
                }
                DigitCell::Cons(Digit::Zero, rest)
            },
            Carry::Ones(t, trees) => {
                let rest = ones(&trees, Ghost(place + 1));
                DigitCell::Cons(Digit::One(t), rest)
            },
        }
    }
}

/// The digits with the tree `t` added at the lowest place: a one where there
/// was a zero; where there was a one, a zero and the link of the two trees
/// carried on, which is put off.
pub(crate) fn ins_tree<T: Clone + PartialOrd + 'static>(t: Tree<T>, ds: Digits<T>) -> (r: Digits<T>)
    requires
        faithful::<T>(),
        ordered::<T>(),
        t.ok(),
        t.shaped(ds.place()),
    ensures
        r.bag() == t.bag().add(ds.bag()),
        r.place() == ds.place(),
        r.number() == ds.number() + 1,
        r.rank() <= ds.rank() + 1,
    decreases ds.rank(), 2nat,
{
    match ds.force() {
        DigitCell::Nil => Digits::prepend(Digit::One(t), Digits::empty(Ghost(ds.place() + 1))),
        DigitCell::Cons(d, rest) => match d {
            Digit::Zero => Digits::prepend(Digit::One(t), rest),
            Digit::One(tp) => {
                let ghost bag = t.bag().add(ds.bag());
                assert(bag =~= t.bag().add(tp.bag()).add(rest.bag()));
                Digits::suspend(
                    Carry::Link(t, tp, rest),
                    Ghost(bag),
                    Ghost(ds.place()),
                    Ghost(ds.number() + 1),
                    Ghost(rest.rank() + 2),
                )
            },
        },
    }
}

/// The digits of two forests added place by place; a carry is put off.
pub(crate) fn merge<T: Clone + PartialOrd + 'static>(ds1: Digits<T>, ds2: Digits<T>) -> (r: Digits<T>)
    requires
        faithful::<T>(),
        ordered::<T>(),
        ds1.place() == ds2.place(),
    ensures
        r.bag() == ds1.bag().add(ds2.bag()),
        r.place() == ds1.place(),
        r.number() == ds1.number() + ds2.number(),
        r.rank() <= ds1.rank() + ds2.rank() + 1,
    decreases ds1.rank() + ds2.rank() + 1, 2nat,
{
    let ghost bag = ds1.bag().add(ds2.bag());
    proof {
        use_type_invariant(&ds1);
        use_type_invariant(&ds2);
    }
    let c1 = ds1.force();
    let c2 = ds2.force();
    match c1 {
        DigitCell::Nil => ds2,
        DigitCell::Cons(d1, a) => match c2 {
            DigitCell::Nil => ds1,
            DigitCell::Cons(d2, b) => {
                let ghost rank = a.rank() + b.rank() + 3;
                match d1 {
                    Digit::Zero => {
                        proof {
                            assert(bag =~= d2.bag().add(a.bag().add(b.bag())));
                        }
                        Digits::suspend(
                            Carry::Pass(d2, a, b),
                            Ghost(bag),
                            Ghost(ds1.place()),
                            Ghost(ds1.number() + ds2.number()),
                            Ghost(rank),
                        )
                    },
                    Digit::One(t1) => match d2 {
                        Digit::Zero => {
                            proof {
                                assert(bag =~= d1.bag().add(a.bag().add(b.bag())));
                            }
                            Digits::suspend(
                                Carry::Pass(Digit::One(t1), a, b),
                                Ghost(bag),
                                Ghost(ds1.place()),
                                Ghost(ds1.number() + ds2.number()),
                                Ghost(rank),
                            )
                        },
                        Digit::One(t2) => {
                            assert(bag =~= t1.bag().add(t2.bag()).add(a.bag().add(b.bag())));
                            Digits::suspend(
                                Carry::Both(t1, t2, a, b),
                                Ghost(bag),
                                Ghost(ds1.place()),
                                Ghost(ds1.number() + ds2.number()),
                                Ghost(rank),
                            )
                        },
                    },
                }
            },
        },
    }
}

/// A one for each tree of the list, in the order of the list, from the place
/// for trees of rank `place` on.
pub(crate) fn ones<T: Clone + PartialOrd + 'static>(trees: &Stack<Tree<T>>, Ghost(place): Ghost<nat>) -> (r: Digits<T>)
    requires
        faithful::<T>(),
        forest_ok(*trees),
        forest_rising(*trees, place),
    ensures
        r.bag() == forest_bag(*trees),
        r.place() == place,
        r.number() == all_ones(trees@.len()),
        r.rank() <= trees@.len(),
{
    match trees.as_cell() {
        Cell::Nil => Digits::empty(Ghost(place)),
        Cell::Cons(t, rest) => Digits::suspend(
            Carry::Ones(t.clone(), rest.clone()),
            Ghost(forest_bag(*trees)),
            Ghost(place),
            Ghost(all_ones(trees@.len())),
            Ghost(trees@.len()),
        ),
    }
}

/// Forces every cell of the digits.
pub(crate) fn normalize<T: Clone + PartialOrd + 'static>(ds: Digits<T>) -> (r: Digits<T>)
    requires
        faithful::<T>(),
        ordered::<T>(),
    ensures
        r == ds,
    decreases ds.rank(),
{
    match ds.force() {
        DigitCell::Cons(_, rest) => {
            let _ = normalize(rest);
        },
        DigitCell::Nil => {},
    }
    ds
}

/// The tree with the least root, the first of those that compare alike, and
/// the digits without it.
pub(crate) fn remove_min_tree<T: Clone + PartialOrd + 'static>(ds: Digits<T>) -> (r: Result<
    (Tree<T>, Digits<T>),
    Error,
>)
    requires
        faithful::<T>(),
        ordered::<T>(),
    ensures
        match r {
            Ok((t, rest)) => {
                &&& t.ok()
                &&& t.shaped(t.spec_rank())
                &&& rest.place() == ds.place()
                &&& ds.bag() == t.bag().add(rest.bag())
                &&& is_min(t.0, ds.bag())
            },
            Err(e) => e == Error::Empty && ds.bag() == Multiset::<T>::empty(),
        },
    decreases ds.rank(),
{
    match ds.force() {
        DigitCell::Nil => Err(Error::Empty),
        DigitCell::Cons(d, rest) => match d {
            Digit::Zero => match remove_min_tree(rest) {
                Ok((tp, dsp)) => {
                    match dsp.force() {
                        DigitCell::Nil => Ok((tp, Digits::empty(Ghost(ds.place())))),
                        DigitCell::Cons(_, _) => {
                            let kept = Digits::prepend(Digit::Zero, dsp);
                            Ok((tp, kept))
                        },
                    }
                },
                Err(e) => Err(e),
            },
            Digit::One(t) => {
                proof {
                    lemma_tree_rank(t, ds.place());
                }
                match rest.force() {
                    DigitCell::Nil => Ok((t, Digits::empty(Ghost(ds.place())))),
                    DigitCell::Cons(_, _) => match remove_min_tree(rest.clone()) {
                        Err(e) => Err(e),
                        Ok((tp, dsp)) => {
                            if at_most(&t.0, &tp.0) {
                                let kept = Digits::prepend(Digit::Zero, rest);
                                proof {
                                    assert forall|y: T| ds.bag().contains(y) implies le(t.0, y) by {
                                        if rest.bag().contains(y) {
                                            assert(le(t.0, tp.0) && le(tp.0, y));
                                        }
                                    }
                                }
                                Ok((t, kept))
                            } else {
                                let kept = Digits::prepend(Digit::One(t), dsp);
                                proof {
                                    assert forall|y: T| ds.bag().contains(y) implies le(tp.0, y) by {
                                        if t.bag().contains(y) {
                                            assert(le(tp.0, t.0) && le(t.0, y));
                                        }
                                    }
                                }
                                Ok((tp, kept))
                            }
                        },
                    },
                }
            },
        },
    }
}

/// The root of a heap-ordered tree is a least element of it.
pub(crate) proof fn lemma_root_is_min<T: PartialOrd>(t: Tree<T>)
    requires
        ordered::<T>(),
        t.ok(),
    ensures
        is_min(t.0, t.bag()),
{
}

/// The elements of the trees of a sequence.
pub(crate) open spec fn seq_bag<T>(s: Seq<Tree<T>>) -> Multiset<T>
    decreases s.len(),
{
    if s.len() == 0 {
        Multiset::empty()
    } else {
        s[0].bag().add(seq_bag(s.skip(1)))
    }
}

/// The elements and the order of a list of trees are those of its trees, one
/// by one.
pub(crate) proof fn lemma_forest_seq<T: PartialOrd>(l: Stack<Tree<T>>)
    ensures
        forest_bag(l) == seq_bag(l@),
        forest_ok(l) <==> forall|i: int| 0 <= i < l@.len() ==> (#[trigger] l@[i]).ok(),
    decreases l@.len(),
{
    match l.cell() {
        Cell::Nil => {},
        Cell::Cons(t, rest) => {
            lemma_forest_seq(rest);
            assert(l@.skip(1) =~= rest@);
            assert(l@[0] == t);
        },
    }
}

/// A tree more at the end adds its elements.
pub(crate) proof fn lemma_seq_bag_push<T>(s: Seq<Tree<T>>, t: Tree<T>)
    ensures
        seq_bag(s.push(t)) == seq_bag(s).add(t.bag()),
    decreases s.len(),
{
    if s.len() == 0 {
        let one = s.push(t);
        assert(seq_bag(one) == t.bag().add(seq_bag(one.skip(1))));
    } else {
        lemma_seq_bag_push(s.skip(1), t);
        assert(s.push(t).skip(1) =~= s.skip(1).push(t));
    }
}

/// The order of the trees does not change the elements.
pub(crate) proof fn lemma_seq_bag_reverse<T>(s: Seq<Tree<T>>)
    ensures
        seq_bag(s.reverse()) == seq_bag(s),
    decreases s.len(),
{
    if s.len() > 0 {
        lemma_seq_bag_reverse(s.skip(1));
        lemma_seq_bag_push(s.skip(1).reverse(), s[0]);
        assert(s.reverse() =~= s.skip(1).reverse().push(s[0]));
    }
}

/// The shape of a list of trees is the shape of its trees, one by one.
pub(crate) proof fn lemma_shape_seq<T>(l: Stack<Tree<T>>, r: nat)
    ensures
        forest_shaped(l, r) <==> (l@.len() == r && forall|i: int|
            0 <= i < l@.len() ==> (#[trigger] l@[i]).shaped((r - 1 - i) as nat)),
        forest_rising(l, r) <==> (forall|i: int|
            0 <= i < l@.len() ==> (#[trigger] l@[i]).shaped((r + i) as nat)),
    decreases l@.len(),
{
    match l.cell() {
        Cell::Nil => {},
        Cell::Cons(t, rest) => {
            assert(l@[0] == t);
            lemma_shape_seq(rest, r + 1);
            if r > 0 {
                lemma_shape_seq(rest, (r - 1) as nat);
            }
            if l@.len() == r && (forall|i: int|
                0 <= i < l@.len() ==> (#[trigger] l@[i]).shaped((r - 1 - i) as nat)) {
                assert forall|i: int| 0 <= i < rest@.len() implies (#[trigger] rest@[i]).shaped(
                    (r - 1 - 1 - i) as nat,
                ) by {
                    assert(rest@[i] == l@[i + 1]);
                }
            }
            if forall|i: int| 0 <= i < l@.len() ==> (#[trigger] l@[i]).shaped((r + i) as nat) {
                assert forall|i: int| 0 <= i < rest@.len() implies (#[trigger] rest@[i]).shaped(
                    (r + 1 + i) as nat,
                ) by {
                    assert(rest@[i] == l@[i + 1]);
                }
            }
        },
    }
}

/// A binomial tree of rank `r` has `r` subtrees.
pub(crate) proof fn lemma_tree_rank<T>(t: Tree<T>, r: nat)
    requires
        t.shaped(r),
    ensures
        t.spec_rank() == r,
{
    match t.1 {
        None => {},
        Some(l) => {
            lemma_shape_seq(l, r);
        },
    }
}

/// The subtrees of a binomial tree, turned over, are the trees of a binary
/// counter, from the lowest place on.
pub(crate) proof fn lemma_kids_rising<T>(kids: Stack<Tree<T>>, turned: Stack<Tree<T>>, r: nat)
    requires
        forest_shaped(kids, r),
        turned@ == kids@.reverse(),
    ensures
        forest_rising(turned, 0),
{
    lemma_shape_seq(kids, r);
    lemma_shape_seq(turned, 0);
}

/// The carries that are still put off, the latest first.
#[verifier::reject_recursive_types(T)]
struct Schedule<T: PartialOrd>(Stack<Digits<T>>);

impl<T: PartialOrd> Clone for Schedule<T> {
    fn clone(&self) -> (r: Self)
        ensures
            r == *self,
    {
        Schedule(self.0.clone())
    }
}

/// Whether every entry of a list is an entry of the schedule of a heap with
/// the elements `bag`: digits that hold some of these elements, and not none.
/// Such are the digits of the heap, or of a version that it was made from by
/// inserting, without zeros at their start.
spec fn entries_of<T: PartialOrd>(l: Stack<Digits<T>>, bag: Multiset<T>) -> bool
    decreases l,
{
    match l.cell() {
        Cell::Nil => true,
        Cell::Cons(e, rest) => {
            &&& e.bag().subset_of(bag)
            &&& e.bag().len() > 0
            &&& entries_of(rest, bag)
        },
    }
}

/// Entries of a heap are entries of a heap that holds more.
proof fn lemma_entries_grow<T: PartialOrd>(l: Stack<Digits<T>>, bag: Multiset<T>, more: Multiset<T>)
    requires
        entries_of(l, bag),
        bag.subset_of(more),
    ensures
        entries_of(l, more),
    decreases l,
{
    match l.cell() {
        Cell::Nil => {},
        Cell::Cons(e, rest) => {
            lemma_entries_grow(rest, bag, more);
            assert forall|x: T| e.bag().count(x) <= more.count(x) by {
                assert(e.bag().count(x) <= bag.count(x));
                assert(bag.count(x) <= more.count(x));
            }
        },
    }
}

impl<T: PartialOrd> Schedule<T> {
    /// Whether `next` is the schedule one step after this one. The latest
    /// entry is taken off; where it starts with a zero, what follows the zero
    /// is put in its place. The empty schedule stays empty.
    spec fn steps_to(self, next: Self) -> bool {
        match self.0.cell() {
            Cell::Nil => next.0.cell() is Nil,
            Cell::Cons(ds, sched) => if ds.starts_with_zero() {
                next.0.cell() matches Cell::Cons(job, rest) && rest == sched && ds.follows(job)
            } else {
                next.0 == sched
            },
        }
    }

    /// A step leaves entries of a heap entries of that heap.
    proof fn lemma_step_keeps(self, next: Self, bag: Multiset<T>)
        requires
            self.steps_to(next),
            entries_of(self.0, bag),
        ensures
            entries_of(next.0, bag),
    {
    }
}

impl<T: Clone + PartialOrd + 'static> Schedule<T> {
    /// One step of the schedule: forces the first cell of the latest entry
    /// and takes the entry off; where the cell is a zero, what follows it is
    /// put on the schedule in the entry's place. The empty schedule stays
    /// empty.
    fn exec(self) -> (r: Self)
        requires
            faithful::<T>(),
            ordered::<T>(),
        ensures
            self.steps_to(r),
    {
        match self.0.as_cell() {
            Cell::Nil => Schedule(Stack::empty()),
            Cell::Cons(ds, sched) => match ds.force() {
                DigitCell::Cons(Digit::Zero, job) => {
                    proof {
                        use_type_invariant(&job);
                        assert(Digit::<T>::Zero.bag().add(job.bag()) =~= job.bag());
                    }
                    Schedule(Stack::cons(job, sched.clone()))
                },
                _ => Schedule(sched.clone()),
            },
        }
    }
}

/// A binomial heap kept as a lazy binary counter, with a schedule of the
/// carries that inserting has put off: each `insert` does two of them, so
/// that none is ever left to pile up.
#[verifier::reject_recursive_types(T)]
pub struct ScheduledBinomialHeap<T: PartialOrd> {
    digits: Digits<T>,
    schedule: Schedule<T>,
}

impl<T: PartialOrd> ScheduledBinomialHeap<T> {
    /// The digits start at the lowest place of the counter, and the entries
    /// of the schedule hold elements of the heap.
    #[verifier::type_invariant]
    spec fn wf(&self) -> bool {
        &&& self.digits.place() == 0
        &&& entries_of(self.schedule.0, self.digits.bag())
    }

    /// The number of entries of the schedule.
    pub closed spec fn pending(&self) -> nat {
        self.schedule.0@.len()
    }

    /// Whether the schedule is that of `before` with the digits of this heap
    /// put on it as the latest entry, after two steps: each step takes the
    /// latest entry off and, where it starts with a zero, puts what follows
    /// the zero in its place.
    pub closed spec fn scheduled_from(&self, before: &Self) -> bool {
        exists|first: Schedule<T>, mid: Schedule<T>|
            {
                &&& first.0.cell() == Cell::Cons(self.digits, before.schedule.0)
                &&& #[trigger] first.steps_to(mid)
                &&& #[trigger] mid.steps_to(self.schedule)
            }
    }
}

impl<T: PartialOrd> View for ScheduledBinomialHeap<T> {
    type V = Multiset<T>;

    closed spec fn view(&self) -> Multiset<T> {
        self.digits.bag()
    }
}

impl<T: PartialOrd> Clone for ScheduledBinomialHeap<T> {
    fn clone(&self) -> (h: Self)
        ensures
            h == *self,
    {
        proof {
            use_type_invariant(self);
        }
        ScheduledBinomialHeap { digits: self.digits.clone(), schedule: self.schedule.clone() }
    }
}

impl<T: Clone + PartialOrd + 'static> ScheduledBinomialHeap<T> {
    /// The heap with no element.
    pub fn empty() -> (h: Self)
        ensures
            h@ == Multiset::<T>::empty(),
            h.pending() == 0,
    {
        ScheduledBinomialHeap { digits: Digits::empty(Ghost(0)), schedule: Schedule(Stack::empty()) }
    }

    /// Whether the heap holds no element.
    pub fn is_empty(&self) -> (b: bool)
        requires
            faithful::<T>(),
            ordered::<T>(),
        ensures
            b == (self@.len() == 0),
    {
        match self.digits.force() {
            DigitCell::Nil => true,
            DigitCell::Cons(_, _) => false,
        }
    }

    /// The heap with `x` once more. One carry at most is done at once, the rest
    /// is put off; two steps of the schedule are done.
    pub fn insert(&self, x: T) -> (h: Self)
        requires
            faithful::<T>(),
            ordered::<T>(),
        ensures
            h@ == self@.insert(x),
            h.scheduled_from(self),
    {
        let leaf = Tree(x, None);
        proof {
            use_type_invariant(self);
        }
        let dsp = ins_tree(leaf, self.digits.clone());
        let first = Schedule(Stack::cons(dsp.clone(), self.schedule.0.clone()));
        proof {
            assert(dsp.bag().count(x) > 0);
            assert(dsp.bag().count(x) <= dsp.bag().len());
            assert(self.digits.bag().subset_of(dsp.bag()));
            lemma_entries_grow(self.schedule.0, self.digits.bag(), dsp.bag());
            assert(dsp.bag().subset_of(dsp.bag()));
        }
        let mid = first.exec();
        let schedule = mid.exec();
        proof {
            first.lemma_step_keeps(mid, dsp.bag());
            mid.lemma_step_keeps(schedule, dsp.bag());
        }
        let h = ScheduledBinomialHeap { digits: dsp, schedule };
        assert(first.steps_to(mid) && mid.steps_to(h.schedule));
        h
    }

    /// The heap of the elements of both heaps. Every carry is done at once, and
    /// the schedule is empty.
    pub fn merge(&self, other: &Self) -> (h: Self)
        requires
            faithful::<T>(),
            ordered::<T>(),
        ensures
            h@ == self@.add(other@),
            h.pending() == 0,
    {
        proof {
            use_type_invariant(self);
            use_type_invariant(other);
        }
        let ds = normalize(merge(self.digits.clone(), other.digits.clone()));
        ScheduledBinomialHeap { digits: ds, schedule: Schedule(Stack::empty()) }
    }

    /// A least element, the one that `delete_min` takes out.
    pub fn find_min(&self) -> (r: Option<T>)
        requires
            faithful::<T>(),
            ordered::<T>(),
        ensures
            match r {
                Some(m) => is_min(m, self@),
                None => self@.len() == 0,
            },
    {
        match remove_min_tree(self.digits.clone()) {
            Ok((t, _)) => Some(t.0),
            Err(_) => None,
        }
    }

    /// The heap without one of its least elements; `Error::Empty` for the empty
    /// heap. Every carry is done at once, and the schedule is empty.
    pub fn delete_min(&self) -> (r: Result<Self, Error>)
        requires
            faithful::<T>(),
            ordered::<T>(),
        ensures
            match r {
                Ok(h) => min_removed(self@, h@) && h.pending() == 0,
                Err(e) => e == Error::Empty && self@.len() == 0,
            },
    {
        let (t, ds) = match remove_min_tree(self.digits.clone()) {
            Ok(found) => found,
            Err(e) => {
                return Err(e);
            },
        };
        proof {
            use_type_invariant(self);
        }
        let below = t.kids();
        let kids = below.reverse();
        proof {
            lemma_forest_seq(below);
            lemma_forest_seq(kids);
            lemma_seq_bag_reverse(below@);
            lemma_kids_rising(below, kids, t.spec_rank());
        }
        let dsp = merge(ones(&kids, Ghost(0)), ds);
        let h = ScheduledBinomialHeap { digits: normalize(dsp), schedule: Schedule(Stack::empty()) };
        proof {
            assert(is_min(t.0, self@) && h@ == self@.remove(t.0));
        }
        Ok(h)
    }
}

impl<T: Clone + PartialOrd + 'static> ScheduledBinomialHeap<T> {
    /// The heap of the elements of a list.
    pub fn from_list(xs: Stack<T>) -> (h: Self)
        requires
            faithful::<T>(),
            ordered::<T>(),
            xs@.len() <= usize::MAX,
        ensures
            h@ == xs@.to_multiset(),
    {
        crate::heap::from_list(xs)
    }
}

impl<T: Clone + PartialOrd + 'static> Heap<T> for ScheduledBinomialHeap<T> {
    open spec fn elems(&self) -> Multiset<T> {
        self@
    }

    fn empty() -> (h: Self) {
        ScheduledBinomialHeap::empty()
    }

    fn is_empty(&self) -> (b: bool) {
        ScheduledBinomialHeap::is_empty(self)
    }

    fn insert(&self, val: T) -> (h: Self) {
        ScheduledBinomialHeap::insert(self, val)
    }

    fn merge(&self, other: &Self) -> (h: Self) {
        ScheduledBinomialHeap::merge(self, other)
    }

    fn find_min(&self) -> (r: Option<T>) {
        ScheduledBinomialHeap::find_min(self)
    }

    fn delete_min(&self) -> (r: Result<Self, Error>) {
        ScheduledBinomialHeap::delete_min(self)
    }
}

} // verus!
