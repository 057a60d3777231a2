use vstd::multiset::Multiset;
use vstd::prelude::*;
use crate::element::faithful;
use crate::element::is_min;
use crate::element::min_removed;
use crate::element::ordered;
use crate::error::Error;
use crate::heap::binomial_heap::forest_bag;
use crate::heap::binomial_heap::forest_ok;
use crate::heap::binomial_heap::forest_rising;
use crate::heap::binomial_heap::ins_tree;
use crate::heap::binomial_heap::leaf;
use crate::heap::binomial_heap::lemma_tree_bag;
use crate::heap::binomial_heap::merge;
use crate::heap::binomial_heap::remove_min_tree;
use crate::heap::binomial_heap::without_root;
use crate::heap::binomial_heap::Tree;
use crate::heap::Heap;
use crate::lazy::Lazy;
use crate::stack::Stack;

verus! {

/// A binomial heap whose list of trees is suspended: inserting and merging
/// only note what is to be done, and the first query does it.
#[verifier::reject_recursive_types(T)]
pub struct LazyBinomialHeap<T: PartialOrd> {
    trees: Lazy<Stack<Tree<T>>>,
    bag: Ghost<Multiset<T>>,
}

impl<T: PartialOrd> View for LazyBinomialHeap<T> {
    type V = Multiset<T>;

    closed spec fn view(&self) -> Multiset<T> {
        self.bag@
    }
}

impl<T: PartialOrd> Clone for LazyBinomialHeap<T> {
    fn clone(&self) -> (h: Self)
        ensures
            h == *self,
    {
        proof {
            use_type_invariant(self);
        }
        LazyBinomialHeap { trees: self.trees.clone(), bag: self.bag }
    }
}

/// Whether a list of trees is a forest with the elements `bag`.
spec fn holds<T: PartialOrd>(l: Stack<Tree<T>>, bag: Multiset<T>) -> bool {
    forest_ok(l) && forest_rising(l, 0) && forest_bag(l) == bag
}

impl<T: PartialOrd> LazyBinomialHeap<T> {
    /// Whatever the suspension gives is a forest of heap-ordered trees with
    /// the elements of the heap.
    #[verifier::type_invariant]
    spec fn wf(&self) -> bool {
        &&& forall|l: Stack<Tree<T>>| #[trigger] self.trees.yields(l) ==> holds(l, self.bag@)
        &&& self.bag@.len() <= usize::MAX
    }
}

impl<T: Clone + PartialOrd + 'static> LazyBinomialHeap<T> {
    /// The heap with no element.
    pub fn empty() -> (h: Self)
        ensures
            h@ == Multiset::<T>::empty(),
    {
        let nothing = || -> (l: Stack<Tree<T>>)
            ensures
                holds(l, Multiset::<T>::empty())
        {
            Stack::empty()
        };
        LazyBinomialHeap { trees: Lazy::new(nothing), bag: Ghost(Multiset::empty()) }
    }

    /// Whether the heap holds no element.
    pub fn is_empty(&self) -> (b: bool)
        requires
            faithful::<T>(),
            ordered::<T>(),
        ensures
            b == (self@.len() == 0),
    {
        proof {
            use_type_invariant(self);
        }
        let ts = self.trees.force();
        proof {
            if ts.cell() is Cons {
                lemma_tree_bag(ts.cell()->Cons_0);
            }
        }
        ts.is_empty()
    }

    /// The heap with `x` once more. Nothing is done before the result is asked.
    pub fn insert(&self, x: T) -> (h: Self)
        requires
            faithful::<T>(),
            ordered::<T>(),
            self@.len() < usize::MAX,
        ensures
            h@ == self@.insert(x),
    {
        proof {
            use_type_invariant(self);
        }
        let trees = self.trees.clone();
        let ghost bag = self@.insert(x);
        let ghost before = self@;
        let later = move || -> (l: Stack<Tree<T>>)
            ensures
                holds(l, bag)
        {
            let ts = trees.force();
            let l = ins_tree(leaf(x.clone()), ts);
            assert(forest_bag(l) =~= bag);
            l
        };
        LazyBinomialHeap { trees: Lazy::new(later), bag: Ghost(bag) }
    }

    /// The heap of the elements of both heaps. Nothing is done before the
    /// result is asked.
    pub fn merge(&self, other: &Self) -> (h: Self)
        requires
            faithful::<T>(),
            ordered::<T>(),
            self@.len() + other@.len() <= usize::MAX,
        ensures
            h@ == self@.add(other@),
    {
        proof {
            use_type_invariant(self);
            use_type_invariant(other);
        }
        let mine = self.trees.clone();
        let theirs = other.trees.clone();
        let ghost bag = self@.add(other@);
        let later = move || -> (l: Stack<Tree<T>>)
            ensures
                holds(l, bag)
        {
            let ts1 = mine.force();
            let ts2 = theirs.force();
            merge(ts1, ts2, Ghost(0))
        };
        LazyBinomialHeap { trees: Lazy::new(later), bag: Ghost(bag) }
    }

    /// A least element, the one that `delete_min` takes out.
    pub fn find_min(&self) -> (r: Option<T>)
        requires
            faithful::<T>(),
            ordered::<T>(),
        ensures
            match r {
                Some(m) => is_min(m, self@),
                None => self@.len() == 0,
            },
    {
        proof {
            use_type_invariant(self);
        }
        let ts = self.trees.force();
        match remove_min_tree(ts, Ghost(0)) {
            Ok((t, _)) => Some(t.elem),
            Err(_) => None,
        }
    }

    /// The heap without a least element. The least tree is looked for at
    /// once, so that the empty heap is refused; merging its subtrees into the
    /// rest is put off.
    pub fn delete_min(&self) -> (r: Result<Self, Error>)
        requires
            faithful::<T>(),
            ordered::<T>(),
        ensures
            match r {
                Ok(h) => min_removed(self@, h@),
                Err(e) => e == Error::Empty && self@.len() == 0,
            },
    {
        proof {
            use_type_invariant(self);
        }
        let ts = self.trees.force();
        let (t, rest) = match remove_min_tree(ts, Ghost(0)) {
            Ok(found) => found,
            Err(e) => {
                return Err(e);
            },
        };
        let ghost bag = self@.remove(t.elem);
        proof {
            assert(t.below().add(forest_bag(rest)) =~= bag);
        }
        let later = move || -> (l: Stack<Tree<T>>)
            ensures
                holds(l, bag)
        {
            without_root(&t, rest)
        };
        let h = LazyBinomialHeap { trees: Lazy::new(later), bag: Ghost(bag) };
        Ok(h)
    }
}

impl<T: Clone + PartialOrd + 'static> LazyBinomialHeap<T> {
    /// The heap of the elements of a list.
    pub fn from_list(xs: Stack<T>) -> (h: Self)
        requires
            faithful::<T>(),
            ordered::<T>(),
            xs@.len() <= usize::MAX,
        ensures
            h@ == xs@.to_multiset(),
    {
        crate::heap::from_list(xs)
    }
}

impl<T: Clone + PartialOrd + 'static> Heap<T> for LazyBinomialHeap<T> {
    open spec fn elems(&self) -> Multiset<T> {
        self@
    }

    fn empty() -> (h: Self) {
        LazyBinomialHeap::empty()
    }

    fn is_empty(&self) -> (b: bool) {
        LazyBinomialHeap::is_empty(self)
    }

    fn insert(&self, val: T) -> (h: Self) {
        LazyBinomialHeap::insert(self, val)
    }

    fn merge(&self, other: &Self) -> (h: Self) {
        LazyBinomialHeap::merge(self, other)
    }

    fn find_min(&self) -> (r: Option<T>) {
        LazyBinomialHeap::find_min(self)
    }

    fn delete_min(&self) -> (r: Result<Self, Error>) {
        LazyBinomialHeap::delete_min(self)
    }
}

} // verus!
