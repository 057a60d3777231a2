use vstd::multiset::Multiset;
use vstd::prelude::*;
use std::sync::Arc;
use crate::element::at_most;
use crate::element::faithful;
use crate::element::is_min;
use crate::element::le;
use crate::element::lemma_lt_trans;
use crate::element::lt;
use crate::element::min_removed;
use crate::element::ordered;
use crate::error::Error;
use crate::heap::Heap;
use crate::stack::Stack;

verus! {

enum Tree<T: PartialOrd> {
    Empty,
    Node(T, SplayHeap<T>, SplayHeap<T>),
}

/// A search tree used as a heap: the least element is the leftmost, and
/// every insertion splits the tree around the new element, which halves the
/// depth of the path it walks.
pub struct SplayHeap<T: PartialOrd>(Arc<Tree<T>>);

impl<T: PartialOrd> View for SplayHeap<T> {
    type V = Multiset<T>;

    closed spec fn view(&self) -> Multiset<T>
        decreases self,
    {
        match *self.0 {
            Tree::Empty => Multiset::empty(),
            Tree::Node(x, a, b) => a@.add(b@).insert(x),
        }
    }
}

impl<T: PartialOrd> Clone for SplayHeap<T> {
    fn clone(&self) -> (h: Self)
        ensures
            h == *self,
    {
        proof {
            use_type_invariant(self);
        }
        SplayHeap(self.0.clone())
    }
}

/// Whether nothing in `s` is above `x`.
spec fn below<T: PartialOrd>(s: Multiset<T>, x: T) -> bool {
    forall|y: T| s.contains(y) ==> le(y, x)
}

/// Whether nothing in `s` is below `x`.
spec fn above<T: PartialOrd>(s: Multiset<T>, x: T) -> bool {
    forall|y: T| s.contains(y) ==> le(x, y)
}

/// Whether everything in `s` is above `x`.
spec fn beyond<T: PartialOrd>(s: Multiset<T>, x: T) -> bool {
    forall|y: T| s.contains(y) ==> lt(x, y)
}

impl<T: PartialOrd> SplayHeap<T> {
    /// Nothing to the left of a root is above it, nothing to the right is
    /// below it.
    #[verifier::type_invariant]
    spec fn wf(&self) -> bool {
        match *self.0 {
            Tree::Empty => true,
            Tree::Node(x, a, b) => below(a@, x) && above(b@, x),
        }
    }

    /// The elements are the root and those of the two subtrees.
    proof fn lemma_view(&self)
        ensures
            self@ == (match *self.0 {
                Tree::Empty => Multiset::empty(),
                Tree::Node(x, a, b) => a@.add(b@).insert(x),
            }),
            *self.0 matches Tree::Node(x, a, b) ==> self@.len() == a@.len() + b@.len() + 1,
    {
    }

    /// The heap with no element.
    pub fn empty() -> (h: Self)
        ensures
            h@ == Multiset::<T>::empty(),
    {
        SplayHeap(Arc::new(Tree::Empty))
    }

    /// Whether the heap holds no element.
    pub fn is_empty(&self) -> (b: bool)
        ensures
            b == (self@.len() == 0),
    {
        proof {
            self.lemma_view();
        }
        match &*self.0 {
            Tree::Empty => true,
            Tree::Node(_, _, _) => false,
        }
    }

    fn node(x: T, a: Self, b: Self) -> (h: Self)
        requires
            below(a@, x),
            above(b@, x),
        ensures
            h@ == a@.add(b@).insert(x),
    {
        let tree = Arc::new(Tree::Node(x, a, b));
        SplayHeap(tree)
    }
}

impl<T: Clone + PartialOrd> SplayHeap<T> {
    /// The elements not above `pivot` and those strictly above it, as two
    /// trees. The path that is walked is rotated two steps at a time.
    fn partition(&self, pivot: T) -> (r: (Self, Self))
        requires
            faithful::<T>(),
            ordered::<T>(),
        ensures
            r.0@.add(r.1@) == self@,
            below(r.0@, pivot),
            above(r.1@, pivot),
            beyond(r.1@, pivot),
        decreases self@.len(),
    {
        proof {
            use_type_invariant(self);
        }
        match &*self.0 {
            Tree::Empty => (Self::empty(), Self::empty()),
            Tree::Node(x, a, b) => {
                proof {
                    use_type_invariant(a);
                    use_type_invariant(b);
                }
                if at_most(x, &pivot) {
                    match &*b.0 {
                        Tree::Empty => {
                            let r = (self.clone(), Self::empty());
                            proof {
                                assert forall|y: T| self@.contains(y) implies le(y, pivot) by {
                                    if y != *x {
                                        assert(a@.contains(y));
                                    }
                                }
                            }
                            r
                        },
                        Tree::Node(y, b1, b2) => {
                            proof {
                                assert(le(*y, pivot) || le(pivot, *y));
                                assert forall|z: T| b1@.contains(z) implies le(*x, z) by {
                                }
                                assert forall|z: T| b2@.contains(z) implies le(*x, z) by {
                                }
                            }
                            if at_most(y, &pivot) {
                                let (small, big) = b2.partition(pivot);
                                let left = Self::node(x.clone(), a.clone(), b1.clone());
                                proof {
                                    assert forall|z: T| left@.contains(z) implies le(z, *y) by {
                                        if z != *x && !a@.contains(z) {
                                            assert(b1@.contains(z));
                                        }
                                    }
                                }
                                let r = (Self::node(y.clone(), left, small), big);
                                proof {
                                    assert forall|z: T| r.0@.contains(z) implies le(z, pivot) by {
                                        if !small@.contains(z) {
                                            if z != *y {
                                                assert(le(z, *y) && le(*y, pivot));
                                            }
                                        }
                                    }
                                }
                                r
                            } else {
                                let (small, big) = b1.partition(pivot);
                                let r = (
                                    Self::node(x.clone(), a.clone(), small),
                                    Self::node(y.clone(), big, b2.clone()),
                                );
                                proof {
                                    assert forall|z: T| r.0@.contains(z) implies le(z, pivot) by {
                                        if !small@.contains(z) && z != *x {
                                            assert(le(z, *x) && le(*x, pivot));
                                        }
                                    }
                                    assert forall|z: T| r.1@.contains(z) implies le(pivot, z) by {
                                        if !big@.contains(z) && z != *y {
                                            assert(le(pivot, *y) && le(*y, z));
                                        }
                                    }
                                    assert(lt(pivot, *y) <==> !le(*y, pivot));
                                    assert forall|z: T| r.1@.contains(z) implies lt(pivot, z) by {
                                        if !big@.contains(z) && z != *y {
                                            assert(b2@.contains(z));
                                            lemma_lt_trans(pivot, *y, z);
                                        }
                                    }
                                }
                                r
                            }
                        },
                    }
                } else {
                    match &*a.0 {
                        Tree::Empty => {
                            let r = (Self::empty(), self.clone());
                            proof {
                                assert forall|y: T| self@.contains(y) implies le(pivot, y) by {
                                    if y != *x {
                                        assert(le(pivot, *x) && le(*x, y));
                                    }
                                }
                                assert(lt(pivot, *x) <==> !le(*x, pivot));
                                assert forall|y: T| self@.contains(y) implies lt(pivot, y) by {
                                    if y != *x {
                                        assert(b@.contains(y));
                                        lemma_lt_trans(pivot, *x, y);
                                    }
                                }
                            }
                            r
                        },
                        Tree::Node(y, a1, a2) => {
                            if at_most(y, &pivot) {
                                let (small, big) = a2.partition(pivot);
                                let r = (
                                    Self::node(y.clone(), a1.clone(), small),
                                    Self::node(x.clone(), big, b.clone()),
                                );
                                proof {
                                    assert forall|z: T| r.0@.contains(z) implies le(z, pivot) by {
                                        if !small@.contains(z) && z != *y {
                                            assert(le(z, *y) && le(*y, pivot));
                                        }
                                    }
                                    assert forall|z: T| r.1@.contains(z) implies le(pivot, z) by {
                                        if !big@.contains(z) && z != *x {
                                            assert(le(pivot, *x) && le(*x, z));
                                        }
                                    }
                                    assert(lt(pivot, *x) <==> !le(*x, pivot));
                                    assert forall|z: T| r.1@.contains(z) implies lt(pivot, z) by {
                                        if !big@.contains(z) && z != *x {
                                            assert(b@.contains(z));
                                            lemma_lt_trans(pivot, *x, z);
                                        }
                                    }
                                }
                                r
                            } else {
                                let (small, big) = a1.partition(pivot);
                                let right = Self::node(x.clone(), a2.clone(), b.clone());
                                proof {
                                    assert forall|z: T| right@.contains(z) implies le(*y, z) by {
                                        if z != *x && !a2@.contains(z) {
                                            assert(le(*y, *x) && le(*x, z));
                                        }
                                    }
                                }
                                let r = (small, Self::node(y.clone(), big, right));
                                proof {
                                    assert forall|z: T| r.1@.contains(z) implies le(pivot, z) by {
                                        if !big@.contains(z) {
                                            if z != *y {
                                                assert(le(pivot, *y) && le(*y, z));
                                            }
                                        }
                                    }
                                    assert(lt(pivot, *y) <==> !le(*y, pivot));
                                    assert forall|z: T| r.1@.contains(z) implies lt(pivot, z) by {
                                        if !big@.contains(z) && z != *y {
                                            assert(right@.contains(z));
                                            lemma_lt_trans(pivot, *y, z);
                                        }
                                    }
                                }
                                r
                            }
                        },
                    }
                }
            },
        }
    }

    /// The heap with `x` once more.
    pub fn insert(&self, x: T) -> (h: Self)
        requires
            faithful::<T>(),
            ordered::<T>(),
        ensures
            h@ == self@.insert(x),
    {
        let (a, b) = self.partition(x.clone());
        Self::node(x, a, b)
    }

    /// The heap of the elements of both heaps.
    pub fn merge(&self, other: &Self) -> (h: Self)
        requires
            faithful::<T>(),
            ordered::<T>(),
        ensures
            h@ == self@.add(other@),
        decreases self@.len() + other@.len(),
    {
        proof {
            use_type_invariant(self);
        }
        match &*self.0 {
            Tree::Empty => other.clone(),
            Tree::Node(x, a, b) => {
                let (ta, tb) = other.partition(x.clone());
                let left = ta.merge(a);
                let right = tb.merge(b);
                Self::node(x.clone(), left, right)
            },
        }
    }

    /// The leftmost element.
    pub fn find_min(&self) -> (r: Option<T>)
        requires
            faithful::<T>(),
            ordered::<T>(),
        ensures
            match r {
                Some(m) => is_min(m, self@),
                None => self@.len() == 0,
            },
        decreases self@.len(),
    {
        proof {
            use_type_invariant(self);
        }
        match &*self.0 {
            Tree::Empty => None,
            Tree::Node(x, a, b) => {
                proof {
                    a.lemma_view();
                }
                match &*a.0 {
                    Tree::Empty => Some(x.clone()),
                    _ => {
                        let r = a.find_min();
                        proof {
                            let m = r->Some_0;
                            assert forall|y: T| self@.contains(y) implies le(m, y) by {
                                if !a@.contains(y) {
                                    if y != *x {
                                        assert(le(m, *x) && le(*x, y));
                                    }
                                }
                            }
                        }
                        r
                    },
                }
            },
        }
    }

    /// The tree without its leftmost element.
    pub fn delete_min(&self) -> (r: Result<Self, Error>)
        requires
            faithful::<T>(),
            ordered::<T>(),
        ensures
            match r {
                Ok(h) => min_removed(self@, h@),
                Err(e) => e == Error::Empty && self@.len() == 0,
            },
        decreases self@.len(),
    {
        proof {
            use_type_invariant(self);
        }
        match &*self.0 {
            Tree::Empty => Err(Error::Empty),
            Tree::Node(y, a, c) => {
                proof {
                    use_type_invariant(a);
                }
                match &*a.0 {
                    Tree::Empty => {
                        proof {
                            assert(is_min(*y, self@) && c@ == self@.remove(*y));
                        }
                        Ok(c.clone())
                    },
                    Tree::Node(x, a2, b) => {
                        proof {
                            a2.lemma_view();
                        }
                        match &*a2.0 {
                            Tree::Empty => {
                                let h = Self::node(y.clone(), b.clone(), c.clone());
                                proof {
                                    assert forall|z: T| self@.contains(z) implies le(*x, z) by {
                                        if z != *x && !b@.contains(z) {
                                            assert(le(*x, *y) && (z == *y || le(*y, z)));
                                        }
                                    }
                                    assert(is_min(*x, self@) && h@ == self@.remove(*x));
                                }
                                Ok(h)
                            },
                            Tree::Node(_, _, _) => {
                                let left = match a2.delete_min() {
                                    Ok(left) => left,
                                    Err(e) => {
                                        return Err(e);
                                    },
                                };
                                let right = Self::node(y.clone(), b.clone(), c.clone());
                                proof {
                                    let m = choose|m: T| is_min(m, a2@) && left@ == a2@.remove(m);
                                    assert forall|z: T| right@.contains(z) implies le(*x, z) by {
                                        if !b@.contains(z) {
                                            assert(le(*x, *y) && (z == *y || le(*y, z)));
                                        }
                                    }
                                    assert forall|z: T| self@.contains(z) implies le(m, z) by {
                                        if !a2@.contains(z) {
                                            if z != *x {
                                                assert(le(m, *x) && le(*x, z));
                                            }
                                        }
                                    }
                                }
                                let h = Self::node(x.clone(), left, right);
                                proof {
                                    let m = choose|m: T| is_min(m, a2@) && left@ == a2@.remove(m);
                                    assert(is_min(m, self@) && h@ == self@.remove(m));
                                }
                                Ok(h)
                            },
                        }
                    },
                }
            },
        }
    }
}

impl<T: Clone + PartialOrd> SplayHeap<T> {
    /// The heap of the elements of a list.
    pub fn from_list(xs: Stack<T>) -> (h: Self)
        requires
            faithful::<T>(),
            ordered::<T>(),
            xs@.len() <= usize::MAX,
        ensures
            h@ == xs@.to_multiset(),
    {
        crate::heap::from_list(xs)
    }
}

impl<T: Clone + PartialOrd> Heap<T> for SplayHeap<T> {
    open spec fn elems(&self) -> Multiset<T> {
        self@
    }

    fn empty() -> (h: Self) {
        SplayHeap::empty()
    }

    fn is_empty(&self) -> (b: bool) {
        SplayHeap::is_empty(self)
    }

    fn insert(&self, val: T) -> (h: Self) {
        SplayHeap::insert(self, val)
    }

    fn merge(&self, other: &Self) -> (h: Self) {
        SplayHeap::merge(self, other)
    }

    fn find_min(&self) -> (r: Option<T>) {
        SplayHeap::find_min(self)
    }

    fn delete_min(&self) -> (r: Result<Self, Error>) {
        SplayHeap::delete_min(self)
    }
}

} // verus!
