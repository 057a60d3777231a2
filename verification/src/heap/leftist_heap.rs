use vstd::multiset::Multiset;
use vstd::prelude::*;
use std::sync::Arc;
use crate::element::at_most;
use crate::element::faithful;
use crate::element::is_min;
use crate::element::le;
use crate::element::min_removed;
use crate::element::ordered;
use crate::error::Error;
use crate::heap::Heap;
use crate::stack::Stack;

verus! {

/// A heap-ordered binary tree whose right spine is never longer than the left
/// one: two heaps merge along their right spines.
pub struct LeftistHeap<T: PartialOrd>(Arc<Tree<T>>);

enum Tree<T: PartialOrd> {
    Empty,
    /// The rank (the length of the right spine), the root, and the two
    /// subtrees.
    Node(usize, T, LeftistHeap<T>, LeftistHeap<T>),
}

impl<T: PartialOrd> View for LeftistHeap<T> {
    type V = Multiset<T>;

    closed spec fn view(&self) -> Multiset<T>
        decreases self,
    {
        match *self.0 {
            Tree::Empty => Multiset::empty(),
            Tree::Node(_, x, a, b) => a@.add(b@).insert(x),
        }
    }
}

impl<T: PartialOrd> Clone for LeftistHeap<T> {
    fn clone(&self) -> (h: Self)
        ensures
            h == *self,
    {
        proof {
            use_type_invariant(self);
        }
        LeftistHeap(self.0.clone())
    }
}

impl<T: PartialOrd> LeftistHeap<T> {
    /// The length of the right spine.
    closed spec fn spec_rank(&self) -> nat {
        match *self.0 {
            Tree::Empty => 0,
            Tree::Node(r, _, _, _) => r as nat,
        }
    }

    /// The root is not above anything below it, the stored rank is that of
    /// the right subtree and one, and the right subtree's is not above the
    /// left one's.
    #[verifier::type_invariant]
    spec fn wf(&self) -> bool {
        match *self.0 {
            Tree::Empty => true,
            Tree::Node(r, x, a, b) => {
                &&& forall|y: T| a@.contains(y) || b@.contains(y) ==> le(x, y)
                &&& r == b.spec_rank() + 1
                &&& a.spec_rank() >= b.spec_rank()
                &&& r <= self@.len() <= usize::MAX
            },
        }
    }

    /// The elements are the root and those of the two subtrees.
    proof fn lemma_view(&self)
        ensures
            self@ == (match *self.0 {
                Tree::Empty => Multiset::empty(),
                Tree::Node(_, x, a, b) => a@.add(b@).insert(x),
            }),
    {
    }

    /// The heap with no element.
    pub fn empty() -> (h: Self)
        ensures
            h@ == Multiset::<T>::empty(),
    {
        LeftistHeap(Arc::new(Tree::Empty))
    }

    /// Whether the heap holds no element.
    pub fn is_empty(&self) -> (b: bool)
        ensures
            b == (self@.len() == 0),
    {
        match &*self.0 {
            Tree::Empty => true,
            Tree::Node(_, x, _, _) => {
                proof {
                    self.lemma_view();
                }
                false
            },
        }
    }

    fn rank(&self) -> (r: usize)
        ensures
            r == self.spec_rank(),
            r <= self@.len(),
    {
        proof {
            use_type_invariant(self);
        }
        match &*self.0 {
            Tree::Empty => 0,
            Tree::Node(r, _, _, _) => *r,
        }
    }

    /// The tree of `x` over `a` and `b`, the one of lesser rank to the right.
    fn make_node(x: T, a: Self, b: Self) -> (h: Self)
        requires
            forall|y: T| a@.contains(y) || b@.contains(y) ==> le(x, y),
            a@.len() + b@.len() < usize::MAX,
        ensures
            h@ == a@.add(b@).insert(x),
    {
        let ra = a.rank();
        let rb = b.rank();
        if ra >= rb {
            let tree = Arc::new(Tree::Node(rb + 1, x, a, b));
            LeftistHeap(tree)
        } else {
            let tree = Arc::new(Tree::Node(ra + 1, x, b, a));
            LeftistHeap(tree)
        }
    }
}

impl<T: Clone + PartialOrd> LeftistHeap<T> {
    /// The heap with `x` once more.
    pub fn insert(&self, val: T) -> (h: Self)
        requires
            faithful::<T>(),
            ordered::<T>(),
            self@.len() < usize::MAX,
        ensures
            h@ == self@.insert(val),
    {
        let e = Self::empty();
        let one = Self::make_node(val, e.clone(), e);
        self.merge(&one)
    }

    /// The heap of the elements of both heaps.
    pub fn merge(&self, other: &Self) -> (h: Self)
        requires
            faithful::<T>(),
            ordered::<T>(),
            self@.len() + other@.len() <= usize::MAX,
        ensures
            h@ == self@.add(other@),
        decreases self@.len() + other@.len(),
    {
        proof {
            use_type_invariant(self);
            use_type_invariant(other);
            self.lemma_view();
            other.lemma_view();
        }
        match &*other.0 {
            Tree::Empty => self.clone(),
            Tree::Node(_, y, a2, b2) => match &*self.0 {
                Tree::Empty => other.clone(),
                Tree::Node(_, x, a1, b1) => {
                    if at_most(x, y) {
                        let right = b1.merge(other);
                        proof {
                            assert forall|z: T| a1@.contains(z) || right@.contains(z) implies le(
                                *x,
                                z,
                            ) by {
                                if other@.contains(z) && z != *y {
                                    assert(le(*x, *y) && le(*y, z));
                                }
                            }
                        }
                        Self::make_node(x.clone(), a1.clone(), right)
                    } else {
                        let right = self.merge(b2);
                        proof {
                            assert forall|z: T| a2@.contains(z) || right@.contains(z) implies le(
                                *y,
                                z,
                            ) by {
                                if self@.contains(z) && z != *x {
                                    assert(le(*y, *x) && le(*x, z));
                                }
                            }
                        }
                        Self::make_node(y.clone(), a2.clone(), right)
                    }
                },
            },
        }
    }

    /// A least element; `None` for the empty heap.
    pub fn find_min(&self) -> (r: Option<T>)
        requires
            faithful::<T>(),
            ordered::<T>(),
        ensures
            match r {
                Some(m) => is_min(m, self@),
                None => self@.len() == 0,
            },
    {
        proof {
            use_type_invariant(self);
            self.lemma_view();
        }
        match &*self.0 {
            Tree::Empty => None,
            Tree::Node(_, x, a, b) => Some(x.clone()),
        }
    }

    /// The heap without one of its least elements; `Error::Empty` for the empty
    /// heap.
    pub fn delete_min(&self) -> (r: Result<Self, Error>)
        requires
            faithful::<T>(),
            ordered::<T>(),
        ensures
            match r {
                Ok(h) => min_removed(self@, h@),
                Err(e) => e == Error::Empty && self@.len() == 0,
            },
    {
        proof {
            use_type_invariant(self);
        }
        match &*self.0 {
            Tree::Empty => Err(Error::Empty),
            Tree::Node(_, x, a, b) => {
                let h = a.merge(b);
                assert(is_min(*x, self@) && h@ == self@.remove(*x));
                Ok(h)
            },
        }
    }

    /// Inserts by walking down the left spine, without building a heap of one
    /// element to merge.
    pub fn insert2(&self, x: T) -> (h: Self)
        requires
            faithful::<T>(),
            ordered::<T>(),
            self@.len() < usize::MAX,
        ensures
            h@ == self@.insert(x),
        decreases self@.len(),
    {
        proof {
            use_type_invariant(self);
            self.lemma_view();
        }
        let e = Self::empty();
        match &*self.0 {
            Tree::Empty => Self::make_node(x, e.clone(), e),
            Tree::Node(_, y, a, b) => {
                if at_most(&x, y) {
                    let left = a.clone().insert2(y.clone());
                    proof {
                        assert forall|z: T| left@.contains(z) || b@.contains(z) implies le(x, z) by {
                            if z != *y {
                                assert(le(x, *y) && le(*y, z));
                            }
                        }
                    }
                    Self::make_node(x, left, b.clone())
                } else {
                    let left = a.clone().insert2(x);
                    Self::make_node(y.clone(), left, b.clone())
                }
            },
        }
    }

    /// The heap of the elements of a list.
    pub fn from_list(xs: Stack<T>) -> (h: Self)
        requires
            faithful::<T>(),
            ordered::<T>(),
            xs@.len() <= usize::MAX,
        ensures
            h@ == xs@.to_multiset(),
    {
        crate::heap::from_list(xs)
    }
}

impl<T: Clone + PartialOrd> Heap<T> for LeftistHeap<T> {
    open spec fn elems(&self) -> Multiset<T> {
        self@
    }

    fn empty() -> (h: Self) {
        LeftistHeap::empty()
    }

    fn is_empty(&self) -> (b: bool) {
        LeftistHeap::is_empty(self)
    }

    fn insert(&self, val: T) -> (h: Self) {
        LeftistHeap::insert(self, val)
    }

    fn merge(&self, other: &Self) -> (h: Self) {
        LeftistHeap::merge(self, other)
    }

    fn find_min(&self) -> (r: Option<T>) {
        LeftistHeap::find_min(self)
    }

    fn delete_min(&self) -> (r: Result<Self, Error>) {
        LeftistHeap::delete_min(self)
    }
}

} // verus!
