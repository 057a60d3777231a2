use vstd::multiset::Multiset;
use vstd::prelude::*;
use crate::element::at_most;
use crate::element::faithful;
use crate::element::is_min;
use crate::element::le;
use crate::element::min_removed;
use crate::element::ordered;
use crate::error::Error;
use crate::heap::Heap;
use crate::stack::Cell;
use crate::stack::Stack;

verus! {

/// A heap-ordered tree with its rank. A leaf holds no list of subtrees.
#[verifier::reject_recursive_types(T)]
pub(crate) struct Tree<T> {
    pub rank: usize,
    pub elem: T,
    pub children: Option<Stack<Tree<T>>>,
}

/// The elements of the trees of a list.
pub(crate) open spec fn forest_bag<T>(l: Stack<Tree<T>>) -> Multiset<T>
    decreases l,
{
    match l.cell() {
        Cell::Nil => Multiset::empty(),
        Cell::Cons(t, rest) => t.bag().add(forest_bag(rest)),
    }
}

/// Whether every tree of a list is heap-ordered.
pub(crate) open spec fn forest_ok<T: PartialOrd>(l: Stack<Tree<T>>) -> bool
    decreases l,
{
    match l.cell() {
        Cell::Nil => true,
        Cell::Cons(t, rest) => t.ok() && forest_ok(rest),
    }
}

/// Whether the trees of a list have the ranks `r - 1` down to 0, as the
/// subtrees of a binomial tree of rank `r` have.
pub(crate) open spec fn forest_falling<T>(l: Stack<Tree<T>>, r: nat) -> bool
    decreases l,
{
    match l.cell() {
        Cell::Nil => r == 0,
        Cell::Cons(t, rest) => r > 0 && t.rank == r - 1 && forest_falling(rest, (r - 1) as nat),
    }
}

/// Whether the ranks of the trees of a list grow from tree to tree, from `lo`
/// or more on, as the ranks of the ones of a binary number do.
pub(crate) open spec fn forest_rising<T>(l: Stack<Tree<T>>, lo: nat) -> bool
    decreases l,
{
    match l.cell() {
        Cell::Nil => true,
        Cell::Cons(t, rest) => t.rank >= lo && forest_rising(rest, (t.rank + 1) as nat),
    }
}

/// The elements of the trees of a sequence.
pub(crate) open spec fn seq_bag<T>(s: Seq<Tree<T>>) -> Multiset<T>
    decreases s.len(),
{
    if s.len() == 0 {
        Multiset::empty()
    } else {
        s[0].bag().add(seq_bag(s.skip(1)))
    }
}

impl<T> Tree<T> {
    /// The elements of the tree.
    pub(crate) open spec fn bag(self) -> Multiset<T>
        decreases self,
    {
        Multiset::singleton(self.elem).add(self.below())
    }

    /// The elements of the subtrees.
    pub(crate) open spec fn below(self) -> Multiset<T>
        decreases self, 0nat,
    {
        match self.children {
            None => Multiset::empty(),
            Some(l) => forest_bag(l),
        }
    }

    /// The subtrees, first the one that was put under the root last.
    pub(crate) fn kids(&self) -> (l: Stack<Tree<T>>)
        ensures
            forest_bag(l) == self.below(),
            self.children matches Some(k) ==> l == k,
            self.children is None ==> l.cell() is Nil,
    {
        match &self.children {
            None => Stack::empty(),
            Some(l) => l.clone(),
        }
    }

    fn node(rank: usize, elem: T, children: Stack<Tree<T>>) -> (t: Self)
        ensures
            t.rank == rank,
            t.elem == elem,
            t.children == Some(children),
    {
        Tree { rank, elem, children: Some(children) }
    }
}

impl<T: PartialOrd> Tree<T> {
    /// Whether the tree is a heap-ordered binomial tree of its rank: the root
    /// is not above anything below it, the subtrees are such trees of the
    /// ranks below, greatest first, and the rank is below the number of
    /// elements.
    pub(crate) open spec fn ok(self) -> bool
        decreases self,
    {
        &&& forall|y: T| self.below().contains(y) ==> le(self.elem, y)
        &&& self.rank < self.bag().len()
        &&& match self.children {
            None => self.rank == 0,
            Some(l) => forest_ok(l) && forest_falling(l, self.rank as nat),
        }
    }
}

impl<T: Clone> Clone for Tree<T> {
    fn clone(&self) -> (r: Self)
        ensures
            faithful::<T>() ==> r == *self,
    {
        let children = match &self.children {
            None => None,
            Some(l) => Some(l.clone()),
        };
        Tree { rank: self.rank, elem: self.elem.clone(), children }
    }
}

impl<T: Clone> Tree<T> {
    fn root(&self) -> (x: T)
        requires
            faithful::<T>(),
        ensures
            x == self.elem,
    {
        self.elem.clone()
    }
}

/// A tree's elements are its root and those of its subtrees, so there is one
/// at least.
pub(crate) proof fn lemma_tree_bag<T>(t: Tree<T>)
    ensures
        t.bag().contains(t.elem),
        t.bag().len() > 0,
        t.bag().len() == t.below().len() + 1,
{
}

/// The root of a heap-ordered tree is a least element of it.
pub(crate) proof fn lemma_root_is_min<T: PartialOrd>(t: Tree<T>)
    requires
        ordered::<T>(),
        t.ok(),
    ensures
        is_min(t.elem, t.bag()),
{
}

/// The elements and the order of a list of trees are those of its trees, one
/// by one.
pub(crate) proof fn lemma_forest_seq<T: PartialOrd>(l: Stack<Tree<T>>)
    ensures
        forest_bag(l) == seq_bag(l@),
        forest_ok(l) <==> forall|i: int| 0 <= i < l@.len() ==> (#[trigger] l@[i]).ok(),
    decreases l@.len(),
{
    match l.cell() {
        Cell::Nil => {},
        Cell::Cons(t, rest) => {
            lemma_forest_seq(rest);
            assert(l@.skip(1) =~= rest@);
            assert(l@[0] == t);
        },
    }
}

/// The ranks of trees that fall from `r - 1` to 0 are `r - 1 - i` at the
/// index `i`, and there are `r` of them.
pub(crate) proof fn lemma_falling_seq<T>(l: Stack<Tree<T>>, r: nat)
    requires
        forest_falling(l, r),
    ensures
        l@.len() == r,
        forall|i: int| 0 <= i < l@.len() ==> (#[trigger] l@[i]).rank == r - 1 - i,
    decreases l@.len(),
{
    match l.cell() {
        Cell::Nil => {},
        Cell::Cons(t, rest) => {
            lemma_falling_seq(rest, (r - 1) as nat);
        },
    }
}

/// Ranks that rise from `lo` on rise from anything below `lo` on.
pub(crate) proof fn lemma_rising_from<T>(l: Stack<Tree<T>>, lo: nat, lower: nat)
    requires
        forest_rising(l, lo),
        lower <= lo,
    ensures
        forest_rising(l, lower),
{
}

/// Trees whose ranks are `lo + i` at the index `i` have rising ranks.
pub(crate) proof fn lemma_rising_seq<T>(l: Stack<Tree<T>>, lo: nat)
    requires
        forall|i: int| 0 <= i < l@.len() ==> (#[trigger] l@[i]).rank == lo + i,
    ensures
        forest_rising(l, lo),
    decreases l@.len(),
{
    match l.cell() {
        Cell::Nil => {},
        Cell::Cons(t, rest) => {
            assert(l@[0] == t);
            assert forall|i: int| 0 <= i < rest@.len() implies (#[trigger] rest@[i]).rank == lo
                + 1 + i by {
                assert(rest@[i] == l@[i + 1]);
            }
            lemma_rising_seq(rest, lo + 1);
        },
    }
}

/// A tree more at the end adds its elements.
pub(crate) proof fn lemma_seq_bag_push<T>(s: Seq<Tree<T>>, t: Tree<T>)
    ensures
        seq_bag(s.push(t)) == seq_bag(s).add(t.bag()),
    decreases s.len(),
{
    let more = s.push(t);
    if s.len() == 0 {
        assert(seq_bag(more) == t.bag().add(seq_bag(more.skip(1))));
    } else {
        lemma_seq_bag_push(s.skip(1), t);
        assert(more.skip(1) =~= s.skip(1).push(t));
    }
}

/// The order of the trees does not change the elements.
pub(crate) proof fn lemma_seq_bag_reverse<T>(s: Seq<Tree<T>>)
    ensures
        seq_bag(s.reverse()) == seq_bag(s),
    decreases s.len(),
{
    if s.len() > 0 {
        lemma_seq_bag_reverse(s.skip(1));
        lemma_seq_bag_push(s.skip(1).reverse(), s[0]);
        assert(s.reverse() =~= s.skip(1).reverse().push(s[0]));
    }
}

/// The two trees as one, the lesser root on top; the first where the roots
/// compare alike. The rank is that of the first and one.
pub(crate) fn link<T: Clone + PartialOrd>(t1: Tree<T>, t2: Tree<T>) -> (t: Tree<T>)
    requires
        faithful::<T>(),
        ordered::<T>(),
        t1.ok(),
        t2.ok(),
        t1.rank == t2.rank,
        t1.bag().len() + t2.bag().len() <= usize::MAX,
    ensures
        t.ok(),
        t.bag() == t1.bag().add(t2.bag()),
        t.elem == (if le(t1.elem, t2.elem) {
            t1.elem
        } else {
            t2.elem
        }),
        t.rank == t1.rank + 1,
{
    if at_most(&t1.elem, &t2.elem) {
        let kids = t1.kids();
        assert(forest_ok(kids) && forest_falling(kids, t1.rank as nat));
        let t = Tree::node(t1.rank + 1, t1.elem.clone(), Stack::cons(t2, kids));
        proof {
            assert forall|y: T| t.below().contains(y) implies le(t.elem, y) by {
                if t2.bag().contains(y) {
                    assert(le(t1.elem, t2.elem) && (le(t2.elem, y) || y == t2.elem));
                }
            }
        }
        t
    } else {
        let kids = t2.kids();
        assert(forest_ok(kids) && forest_falling(kids, t2.rank as nat));
        let t = Tree::node(t1.rank + 1, t2.elem.clone(), Stack::cons(t1, kids));
        proof {
            assert forall|y: T| t.below().contains(y) implies le(t.elem, y) by {
                if t1.bag().contains(y) {
                    assert(le(t2.elem, t1.elem) && (le(t1.elem, y) || y == t1.elem));
                }
            }
        }
        t
    }
}

/// The tree of one element.
pub(crate) fn leaf<T: PartialOrd>(x: T) -> (t: Tree<T>)
    ensures
        t.ok(),
        t.bag() == Multiset::<T>::empty().insert(x),
        t.rank == 0,
{
    Tree { rank: 0, elem: x, children: None }
}

/// The trees with `t` among them: put in front where its rank is below that
/// of the first tree, else linked with the first and carried on.
pub(crate) fn ins_tree<T: Clone + PartialOrd>(t: Tree<T>, ts: Stack<Tree<T>>) -> (r: Stack<Tree<T>>)
    requires
        faithful::<T>(),
        ordered::<T>(),
        t.ok(),
        forest_ok(ts),
        forest_rising(ts, t.rank as nat),
        t.bag().len() + forest_bag(ts).len() <= usize::MAX,
    ensures
        forest_ok(r),
        forest_rising(r, t.rank as nat),
        forest_bag(r) == t.bag().add(forest_bag(ts)),
    decreases ts@.len(),
{
    match ts.as_cell() {
        Cell::Nil => {
            let none = Stack::empty();
            assert(forest_rising(none, (t.rank + 1) as nat));
            Stack::cons(t, none)
        },
        Cell::Cons(tp, tsp) => {
            if t.rank < tp.rank {
                proof {
                    lemma_rising_from(ts, tp.rank as nat, (t.rank + 1) as nat);
                }
                Stack::cons(t, ts)
            } else {
                let both = link(t, tp.clone());
                ins_tree(both, tsp.clone())
            }
        },
    }
}

/// The trees of two forests together, lesser ranks first; trees of one rank
/// are linked.
pub(crate) fn merge<T: Clone + PartialOrd>(
    ts1: Stack<Tree<T>>,
    ts2: Stack<Tree<T>>,
    Ghost(lo): Ghost<nat>,
) -> (r: Stack<Tree<T>>)
    requires
        faithful::<T>(),
        ordered::<T>(),
        forest_ok(ts1),
        forest_ok(ts2),
        forest_rising(ts1, lo),
        forest_rising(ts2, lo),
        forest_bag(ts1).len() + forest_bag(ts2).len() <= usize::MAX,
    ensures
        forest_ok(r),
        forest_rising(r, lo),
        forest_bag(r) == forest_bag(ts1).add(forest_bag(ts2)),
    decreases ts1@.len() + ts2@.len(),
{
    match ts1.as_cell() {
        Cell::Nil => ts2,
        Cell::Cons(t1, ts1p) => match ts2.as_cell() {
            Cell::Nil => ts1,
            Cell::Cons(t2, ts2p) => {
                if t1.rank < t2.rank {
                    let rest = merge(ts1p.clone(), ts2.clone(), Ghost((t1.rank + 1) as nat));
                    Stack::cons(t1.clone(), rest)
                } else if t2.rank < t1.rank {
                    let rest = merge(ts1.clone(), ts2p.clone(), Ghost((t2.rank + 1) as nat));
                    Stack::cons(t2.clone(), rest)
                } else {
                    let rest = merge(ts1p.clone(), ts2p.clone(), Ghost((t1.rank + 1) as nat));
                    ins_tree(link(t1.clone(), t2.clone()), rest)
                }
            },
        },
    }
}

/// The tree with the least root, the first of those that compare alike, and
/// the other trees.
pub(crate) fn remove_min_tree<T: Clone + PartialOrd>(ts: Stack<Tree<T>>, Ghost(lo): Ghost<nat>) -> (r: Result<
    (Tree<T>, Stack<Tree<T>>),
    Error,
>)
    requires
        faithful::<T>(),
        ordered::<T>(),
        forest_ok(ts),
        forest_rising(ts, lo),
    ensures
        match r {
            Ok((t, rest)) => {
                &&& t.ok()
                &&& forest_ok(rest)
                &&& forest_rising(rest, lo)
                &&& forest_bag(ts) == t.bag().add(forest_bag(rest))
                &&& is_min(t.elem, forest_bag(ts))
            },
            Err(e) => e == Error::Empty && ts@.len() == 0,
        },
    decreases ts@.len(),
{
    match ts.as_cell() {
        Cell::Nil => Err(Error::Empty),
        Cell::Cons(t, rest) => {
            proof {
                lemma_root_is_min(*t);
            }
            match rest.as_cell() {
                Cell::Nil => {
                    assert(forest_bag(*rest) == Multiset::<T>::empty());
                    let none = Stack::empty();
                    Ok((t.clone(), none))
                },
                Cell::Cons(_, _) => match remove_min_tree(rest.clone(), Ghost((t.rank + 1) as nat)) {
                    Err(e) => Err(e),
                    Ok((tp, tsp)) => {
                        if at_most(&t.elem, &tp.elem) {
                            proof {
                                assert forall|y: T| forest_bag(ts).contains(y) implies le(
                                    t.elem,
                                    y,
                                ) by {
                                    if forest_bag(*rest).contains(y) {
                                        assert(le(t.elem, tp.elem) && le(tp.elem, y));
                                    }
                                }
                            }
                            proof {
                                lemma_rising_from(*rest, (t.rank + 1) as nat, lo);
                            }
                            Ok((t.clone(), rest.clone()))
                        } else {
                            let kept = Stack::cons(t.clone(), tsp);
                            proof {
                                assert forall|y: T| forest_bag(ts).contains(y) implies le(
                                    tp.elem,
                                    y,
                                ) by {
                                    if t.bag().contains(y) {
                                        assert(le(tp.elem, t.elem) && le(t.elem, y));
                                    }
                                }
                            }
                            Ok((tp, kept))
                        }
                    },
                },
            }
        },
    }
}

/// The subtrees of `t`, last put first, merged with the trees `ts`: what is
/// left of a forest when the root of `t` is taken out.
pub(crate) fn without_root<T: Clone + PartialOrd>(t: &Tree<T>, ts: Stack<Tree<T>>) -> (r: Stack<Tree<T>>)
    requires
        faithful::<T>(),
        ordered::<T>(),
        t.ok(),
        forest_ok(ts),
        forest_rising(ts, 0),
        t.bag().len() + forest_bag(ts).len() <= usize::MAX,
    ensures
        forest_ok(r),
        forest_rising(r, 0),
        forest_bag(r) == t.below().add(forest_bag(ts)),
{
    let below = t.kids();
    let kids = below.reverse();
    proof {
        lemma_forest_seq(below);
        lemma_forest_seq(kids);
        lemma_seq_bag_reverse(below@);
        lemma_falling_seq(below, t.rank as nat);
        lemma_rising_seq(kids, 0);
    }
    merge(kids, ts, Ghost(0))
}

/// A heap kept as a list of heap-ordered binomial trees of growing rank, as
/// the ones of a binary number.
#[verifier::reject_recursive_types(T)]
pub struct BinomialHeap<T: PartialOrd>(Stack<Tree<T>>);

impl<T: PartialOrd> View for BinomialHeap<T> {
    type V = Multiset<T>;

    closed spec fn view(&self) -> Multiset<T> {
        forest_bag(self.0)
    }
}

impl<T: PartialOrd> Clone for BinomialHeap<T> {
    fn clone(&self) -> (h: Self)
        ensures
            h == *self,
    {
        proof {
            use_type_invariant(self);
        }
        BinomialHeap(self.0.clone())
    }
}

impl<T: PartialOrd> BinomialHeap<T> {
    #[verifier::type_invariant]
    spec fn wf(&self) -> bool {
        &&& forest_ok(self.0)
        &&& forest_rising(self.0, 0)
        &&& forest_bag(self.0).len() <= usize::MAX
    }

    /// The heap with no element.
    pub fn empty() -> (h: Self)
        ensures
            h@ == Multiset::<T>::empty(),
    {
        BinomialHeap(Stack::empty())
    }

    /// Whether the heap holds no element.
    pub fn is_empty(&self) -> (b: bool)
        ensures
            b == (self@.len() == 0),
    {
        proof {
            if self.0.cell() is Cons {
                lemma_tree_bag(self.0.cell()->Cons_0);
            }
        }
        self.0.is_empty()
    }
}

impl<T: Clone + PartialOrd> BinomialHeap<T> {
    /// The heap with `x` once more.
    pub fn insert(&self, x: T) -> (h: Self)
        requires
            faithful::<T>(),
            ordered::<T>(),
            self@.len() < usize::MAX,
        ensures
            h@ == self@.insert(x),
    {
        proof {
            use_type_invariant(self);
        }
        let ts = ins_tree(leaf(x), self.0.clone());
        BinomialHeap(ts)
    }

    /// The heap of the elements of both heaps.
    pub fn merge(&self, other: &Self) -> (h: Self)
        requires
            faithful::<T>(),
            ordered::<T>(),
            self@.len() + other@.len() <= usize::MAX,
        ensures
            h@ == self@.add(other@),
    {
        proof {
            use_type_invariant(self);
            use_type_invariant(other);
        }
        BinomialHeap(merge(self.0.clone(), other.0.clone(), Ghost(0)))
    }

    /// A least element, the one that `delete_min` takes out.
    pub fn find_min(&self) -> (r: Option<T>)
        requires
            faithful::<T>(),
            ordered::<T>(),
        ensures
            match r {
                Some(m) => is_min(m, self@),
                None => self@.len() == 0,
            },
    {
        proof {
            use_type_invariant(self);
        }
        match remove_min_tree(self.0.clone(), Ghost(0)) {
            Ok((t, _)) => Some(t.root()),
            Err(_) => None,
        }
    }

    /// The heap without one of its least elements; `Error::Empty` for the empty
    /// heap.
    pub fn delete_min(&self) -> (r: Result<Self, Error>)
        requires
            faithful::<T>(),
            ordered::<T>(),
        ensures
            match r {
                Ok(h) => min_removed(self@, h@),
                Err(e) => e == Error::Empty && self@.len() == 0,
            },
    {
        proof {
            use_type_invariant(self);
        }
        let (t, ts2) = match remove_min_tree(self.0.clone(), Ghost(0)) {
            Ok(found) => found,
            Err(e) => {
                return Err(e);
            },
        };
        let ts = without_root(&t, ts2);
        proof {
            assert(is_min(t.elem, self@) && forest_bag(ts) == self@.remove(t.elem));
        }
        Ok(BinomialHeap(ts))
    }
}

impl<T: Clone + PartialOrd> BinomialHeap<T> {
    /// The heap of the elements of a list.
    pub fn from_list(xs: Stack<T>) -> (h: Self)
        requires
            faithful::<T>(),
            ordered::<T>(),
            xs@.len() <= usize::MAX,
        ensures
            h@ == xs@.to_multiset(),
    {
        crate::heap::from_list(xs)
    }
}

impl<T: Clone + PartialOrd> Heap<T> for BinomialHeap<T> {
    open spec fn elems(&self) -> Multiset<T> {
        self@
    }

    fn empty() -> (h: Self) {
        BinomialHeap::empty()
    }

    fn is_empty(&self) -> (b: bool) {
        BinomialHeap::is_empty(self)
    }

    fn insert(&self, val: T) -> (h: Self) {
        BinomialHeap::insert(self, val)
    }

    fn merge(&self, other: &Self) -> (h: Self) {
        BinomialHeap::merge(self, other)
    }

    fn find_min(&self) -> (r: Option<T>) {
        BinomialHeap::find_min(self)
    }

    fn delete_min(&self) -> (r: Result<Self, Error>) {
        BinomialHeap::delete_min(self)
    }
}

} // verus!
