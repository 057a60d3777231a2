use vstd::multiset::Multiset;
use vstd::prelude::*;
use std::sync::Arc;
use crate::element::at_most;
use crate::element::faithful;
use crate::element::is_min;
use crate::element::le;
use crate::element::min_removed;
use crate::element::ordered;
use crate::error::Error;
use crate::heap::Heap;
use crate::stack::Cell;
use crate::stack::Stack;

verus! {

/// A heap-ordered tree of any width: merging puts the tree with the greater
/// root under the other, and removing the root merges its subtrees in pairs.
pub struct PairingHeap<T: PartialOrd>(Arc<Tree<T>>);

enum Tree<T: PartialOrd> {
    Empty,
    Node(T, Stack<PairingHeap<T>>),
}

/// The elements of all heaps of a list.
spec fn heaps_bag<T: PartialOrd>(l: Stack<PairingHeap<T>>) -> Multiset<T>
    decreases l,
{
    match l.cell() {
        Cell::Nil => Multiset::empty(),
        Cell::Cons(h, rest) => h@.add(heaps_bag(rest)),
    }
}

impl<T: PartialOrd> View for PairingHeap<T> {
    type V = Multiset<T>;

    closed spec fn view(&self) -> Multiset<T>
        decreases self,
    {
        match *self.0 {
            Tree::Empty => Multiset::empty(),
            Tree::Node(x, hs) => heaps_bag(hs).insert(x),
        }
    }
}

impl<T: PartialOrd> Clone for PairingHeap<T> {
    fn clone(&self) -> (h: Self)
        ensures
            h == *self,
    {
        proof {
            use_type_invariant(self);
        }
        PairingHeap(self.0.clone())
    }
}

impl<T: PartialOrd> PairingHeap<T> {
    /// The root is not above anything below it.
    #[verifier::type_invariant]
    spec fn wf(&self) -> bool {
        match *self.0 {
            Tree::Empty => true,
            Tree::Node(x, hs) => forall|y: T| heaps_bag(hs).contains(y) ==> le(x, y),
        }
    }

    /// The heap with no element.
    pub fn empty() -> (h: Self)
        ensures
            h@ == Multiset::<T>::empty(),
    {
        PairingHeap(Arc::new(Tree::Empty))
    }

    /// Whether the heap holds no element.
    pub fn is_empty(&self) -> (b: bool)
        ensures
            b == (self@.len() == 0),
    {
        match &*self.0 {
            Tree::Empty => true,
            Tree::Node(x, _) => false,
        }
    }

    fn node(x: T, hs: Stack<Self>) -> (h: Self)
        requires
            forall|y: T| heaps_bag(hs).contains(y) ==> le(x, y),
        ensures
            h@ == heaps_bag(hs).insert(x),
    {
        let tree = Arc::new(Tree::Node(x, hs));
        PairingHeap(tree)
    }
}

impl<T: Clone + PartialOrd> PairingHeap<T> {
    /// A least element; `None` for the empty heap.
    pub fn find_min(&self) -> (r: Option<T>)
        requires
            faithful::<T>(),
            ordered::<T>(),
        ensures
            match r {
                Some(m) => is_min(m, self@),
                None => self@.len() == 0,
            },
    {
        proof {
            use_type_invariant(self);
        }
        match &*self.0 {
            Tree::Empty => None,
            Tree::Node(x, hs) => Some(x.clone()),
        }
    }

    /// The heap of the elements of both heaps.
    pub fn merge(&self, other: &Self) -> (h: Self)
        requires
            faithful::<T>(),
            ordered::<T>(),
        ensures
            h@ == self@.add(other@),
    {
        proof {
            use_type_invariant(self);
            use_type_invariant(other);
        }
        match &*self.0 {
            Tree::Empty => other.clone(),
            Tree::Node(x, hs1) => match &*other.0 {
                Tree::Empty => self.clone(),
                Tree::Node(y, hs2) => {
                    if at_most(x, y) {
                        let hs = Stack::cons(other.clone(), hs1.clone());
                        proof {
                            assert forall|z: T| heaps_bag(hs).contains(z) implies le(*x, z) by {
                                if other@.contains(z) && z != *y {
                                    assert(le(*x, *y) && le(*y, z));
                                }
                            }
                        }
                        Self::node(x.clone(), hs)
                    } else {
                        let hs = Stack::cons(self.clone(), hs2.clone());
                        proof {
                            assert forall|z: T| heaps_bag(hs).contains(z) implies le(*y, z) by {
                                if self@.contains(z) && z != *x {
                                    assert(le(*y, *x) && le(*x, z));
                                }
                            }
                        }
                        Self::node(y.clone(), hs)
                    }
                },
            },
        }
    }

    /// The heap with `x` once more.
    pub fn insert(&self, x: T) -> (h: Self)
        requires
            faithful::<T>(),
            ordered::<T>(),
        ensures
            h@ == self@.insert(x),
    {
        let none = Stack::empty();
        let one = Self::node(x, none);
        self.merge(&one)
    }

    /// The heaps of a list as one: merged two by two from the left, and the
    /// pairs from the right.
    fn merge_pairs(hs: Stack<Self>) -> (h: Self)
        requires
            faithful::<T>(),
            ordered::<T>(),
        ensures
            h@ == heaps_bag(hs),
        decreases hs@.len(),
    {
        match hs.as_cell() {
            Cell::Nil => Self::empty(),
            Cell::Cons(h1, rest) => match rest.as_cell() {
                Cell::Nil => {
                    assert(heaps_bag(*rest) == Multiset::<T>::empty());
                    h1.clone()
                },
                Cell::Cons(h2, rest2) => {
                    assert(hs@.len() == rest@.len() + 1 && rest@.len() == rest2@.len() + 1);
                    let h = h1.merge(h2).merge(&Self::merge_pairs(rest2.clone()));
                    proof {
                        assert(heaps_bag(*rest) == h2@.add(heaps_bag(*rest2)));
                    }
                    h
                },
            },
        }
    }

    /// The heap without one of its least elements; `Error::Empty` for the empty
    /// heap.
    pub fn delete_min(&self) -> (r: Result<Self, Error>)
        requires
            faithful::<T>(),
            ordered::<T>(),
        ensures
            match r {
                Ok(h) => min_removed(self@, h@),
                Err(e) => e == Error::Empty && self@.len() == 0,
            },
    {
        proof {
            use_type_invariant(self);
        }
        match &*self.0 {
            Tree::Empty => Err(Error::Empty),
            Tree::Node(x, hs) => {
                let h = Self::merge_pairs(hs.clone());
                proof {
                    assert(is_min(*x, self@) && h@ == self@.remove(*x));
                }
                Ok(h)
            },
        }
    }
}

impl<T: Clone + PartialOrd> PairingHeap<T> {
    /// The heap of the elements of a list.
    pub fn from_list(xs: Stack<T>) -> (h: Self)
        requires
            faithful::<T>(),
            ordered::<T>(),
            xs@.len() <= usize::MAX,
        ensures
            h@ == xs@.to_multiset(),
    {
        crate::heap::from_list(xs)
    }
}

impl<T: Clone + PartialOrd> Heap<T> for PairingHeap<T> {
    open spec fn elems(&self) -> Multiset<T> {
        self@
    }

    fn empty() -> (h: Self) {
        PairingHeap::empty()
    }

    fn is_empty(&self) -> (b: bool) {
        PairingHeap::is_empty(self)
    }

    fn insert(&self, val: T) -> (h: Self) {
        PairingHeap::insert(self, val)
    }

    fn merge(&self, other: &Self) -> (h: Self) {
        PairingHeap::merge(self, other)
    }

    fn find_min(&self) -> (r: Option<T>) {
        PairingHeap::find_min(self)
    }

    fn delete_min(&self) -> (r: Result<Self, Error>) {
        PairingHeap::delete_min(self)
    }
}

} // verus!
