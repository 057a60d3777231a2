use vstd::prelude::*;
use std::sync::Arc;
use crate::element::alike;
use crate::element::at_most;
use crate::element::faithful;
use crate::element::le;
use crate::element::lemma_lt_trans;
use crate::element::less;
use crate::element::linear;
use crate::element::lt;
use crate::element::ordered;

verus! {

enum TreeImpl<T> {
    Empty,
    Node(T, Tree<T>, Tree<T>),
}

/// A persistent binary tree. As a search tree it is a set of its elements,
/// or, over pairs, a finite map from the first to the second component.
pub struct Tree<T>(Arc<TreeImpl<T>>);

impl<T> Clone for Tree<T> {
    fn clone(&self) -> (r: Self)
        ensures
            r == *self,
    {
        Tree(self.0.clone())
    }
}

/// A persistent set of ordered elements.
pub trait UnbalancedSet<T: Clone + PartialOrd>: Sized {
    /// The elements.
    spec fn elems(&self) -> Set<T>;

    /// Whether the value is kept as a set has to be kept: every operation
    /// hands out valid sets only.
    spec fn valid(&self) -> bool;

    fn empty() -> (s: Self)
        ensures
            s.valid(),
            s.elems() == Set::<T>::empty(),
    ;

    /// The set with `val`; the set itself where it holds an element that
    /// compares alike with `val`.
    fn insert(&self, val: T) -> (s: Self)
        requires
            self.valid(),
            faithful::<T>(),
            ordered::<T>(),
        ensures
            s.valid(),
            s.elems() == (if holds_alike(self.elems(), val) {
                self.elems()
            } else {
                self.elems().insert(val)
            }),
    ;

    /// Whether the set holds an element that compares alike with `val`.
    fn member(&self, val: &T) -> (b: bool)
        requires
            self.valid(),
            ordered::<T>(),
        ensures
            b == holds_alike(self.elems(), *val),
    ;
}

/// A persistent finite map with ordered keys.
pub trait FiniteMap<K: Clone + PartialOrd, V: Clone>: Sized {
    /// The bindings.
    spec fn bindings(&self) -> Map<K, V>;

    /// Whether the value is kept as a map has to be kept: every operation
    /// hands out valid maps only.
    spec fn valid_map(&self) -> bool;

    fn empty() -> (m: Self)
        ensures
            m.valid_map(),
            m.bindings() == Map::<K, V>::empty(),
    ;

    /// The map with `key` bound to `value`, in place of what it was bound to.
    fn bind(&self, key: K, value: V) -> (m: Self)
        requires
            self.valid_map(),
            linear::<K>(),
            faithful::<K>(),
            faithful::<V>(),
        ensures
            m.valid_map(),
            m.bindings() == self.bindings().insert(key, value),
    ;

    fn lookup(&self, key: K) -> (r: Option<V>)
        requires
            self.valid_map(),
            linear::<K>(),
            faithful::<V>(),
        ensures
            r == if self.bindings().dom().contains(key) {
                Some(self.bindings()[key])
            } else {
                None
            },
    ;
}

/// Whether `s` holds an element that compares alike with `x`.
pub open spec fn holds_alike<T: PartialOrd>(s: Set<T>, x: T) -> bool {
    exists|y: T| s.contains(y) && alike(x, y)
}

/// Whether everything in `s` is below `x`.
pub open spec fn all_below<T: PartialOrd>(s: Set<T>, x: T) -> bool {
    forall|y: T| s.contains(y) ==> lt(y, x)
}

/// Whether everything in `s` is above `x`.
pub open spec fn all_above<T: PartialOrd>(s: Set<T>, x: T) -> bool {
    forall|y: T| s.contains(y) ==> lt(x, y)
}

impl<T> Tree<T> {
    /// The elements of the tree, as a set.
    pub closed spec fn set(self) -> Set<T>
        decreases self,
    {
        match *self.0 {
            TreeImpl::Empty => Set::empty(),
            TreeImpl::Node(x, l, r) => l.set().union(r.set()).insert(x),
        }
    }

    /// The number of nodes.
    pub closed spec fn size(self) -> nat
        decreases self,
    {
        match *self.0 {
            TreeImpl::Empty => 0,
            TreeImpl::Node(_, l, r) => 1 + l.size() + r.size(),
        }
    }

    /// Whether the tree is the complete tree of the given depth with `x` in
    /// every node.
    pub closed spec fn is_complete(self, x: T, depth: nat) -> bool
        decreases self,
    {
        match *self.0 {
            TreeImpl::Empty => depth == 0,
            TreeImpl::Node(y, l, r) => {
                &&& depth > 0
                &&& y == x
                &&& l.is_complete(x, (depth - 1) as nat)
                &&& r.is_complete(x, (depth - 1) as nat)
            },
        }
    }

    /// Whether `x` is in every node, and in every node the two subtrees
    /// differ in size by one node at most.
    pub closed spec fn is_balanced(self, x: T) -> bool
        decreases self,
    {
        match *self.0 {
            TreeImpl::Empty => true,
            TreeImpl::Node(y, l, r) => {
                &&& y == x
                &&& l.size() <= r.size() <= l.size() + 1
                &&& l.is_balanced(x)
                &&& r.is_balanced(x)
            },
        }
    }

    /// The number of nodes, each counted as often as a path leads to it.
    pub fn count(&self) -> (n: usize)
        requires
            self.size() <= usize::MAX,
        ensures
            n == self.size(),
        decreases self,
    {
        match &*self.0 {
            TreeImpl::Empty => 0,
            TreeImpl::Node(_, l, r) => 1 + l.count() + r.count(),
        }
    }

    fn nil() -> (t: Self)
        ensures
            *t.0 is Empty,
            t.size() == 0,
            forall|y: T| #[trigger] t.is_balanced(y),
    {
        Tree(Arc::new(TreeImpl::Empty))
    }

    fn node(x: T, l: Self, r: Self) -> (t: Self)
        ensures
            *t.0 == TreeImpl::Node(x, l, r),
            t.size() == 1 + l.size() + r.size(),
            t.is_balanced(x) == (l.size() <= r.size() <= l.size() + 1 && l.is_balanced(x)
                && r.is_balanced(x)),
    {
        Tree(Arc::new(TreeImpl::Node(x, l, r)))
    }
}

impl<T: PartialOrd> Tree<T> {
    /// Whether the tree is a search tree: in every node, what is to the left
    /// is below the element and what is to the right is above it.
    pub closed spec fn is_search_tree(self) -> bool
        decreases self,
    {
        match *self.0 {
            TreeImpl::Empty => true,
            TreeImpl::Node(x, l, r) => {
                &&& all_below(l.set(), x)
                &&& all_above(r.set(), x)
                &&& l.is_search_tree()
                &&& r.is_search_tree()
            },
        }
    }
}

impl<T: Clone + PartialOrd> Tree<T> {
    /// Walks down with the last element that `x` was not above as the one
    /// candidate, which is compared with `x` only at the bottom.
    fn member2(&self, x: &T, z: Option<&T>) -> (b: bool)
        requires
            ordered::<T>(),
            self.is_search_tree(),
            z matches Some(c) ==> le(*x, *c) && all_below(self.set(), *c),
        ensures
            b == (holds_alike(self.set(), *x) || (z matches Some(c) && alike(*x, *c))),
        decreases self,
    {
        match &*self.0 {
            TreeImpl::Empty => match z {
                Some(c) => at_most(c, x),
                None => false,
            },
            TreeImpl::Node(y, left, right) => {
                if at_most(x, y) {
                    let b = left.member2(x, Some(y));
                    proof {
                        if z is Some {
                            let c = *z.unwrap();
                            lemma_lt_trans(*x, *y, c);
                        }
                        if holds_alike(left.set(), *x) {
                            let w = choose|w: T| left.set().contains(w) && alike(*x, w);
                        }
                    }
                    b
                } else {
                    let b = right.member2(x, z);
                    proof {
                        if holds_alike(right.set(), *x) {
                            let w = choose|w: T| right.set().contains(w) && alike(*x, w);
                        }
                        if z is Some {
                            let c = *z.unwrap();
                            assert forall|w: T| right.set().contains(w) implies lt(w, c) by {
                            }
                        }
                    }
                    b
                }
            },
        }
    }

    /// The tree with `x`, copied along the path to it; nothing, and nothing
    /// copied, where the tree holds an element that compares alike with `x`.
    /// The candidate is as in `member2`.
    fn insert_nodup2(&self, x: T, z: Option<T>) -> (r: Option<Self>)
        requires
            faithful::<T>(),
            ordered::<T>(),
            self.is_search_tree(),
            z matches Some(c) ==> le(x, c) && all_below(self.set(), c),
        ensures
            match r {
                Some(t) => {
                    &&& t.is_search_tree()
                    &&& t.set() == self.set().insert(x)
                    &&& !holds_alike(self.set(), x)
                    &&& z matches Some(c) ==> !alike(x, c)
                },
                None => holds_alike(self.set(), x) || (z matches Some(c) && alike(x, c)),
            },
        decreases self,
    {
        match &*self.0 {
            TreeImpl::Empty => {
                let dup = match &z {
                    Some(c) => at_most(c, &x),
                    None => false,
                };
                if dup {
                    None
                } else {
                    let t = Self::node(x, self.clone(), self.clone());
                    Some(t)
                }
            },
            TreeImpl::Node(y, left, right) => {
                if at_most(&x, y) {
                    proof {
                        if z is Some {
                            let c = z.unwrap();
                            lemma_lt_trans(x, *y, c);
                        }
                    }
                    match left.insert_nodup2(x, Some(y.clone())) {
                        Some(l2) => {
                            let t = Self::node(y.clone(), l2, right.clone());
                            Some(t)
                        },
                        None => {
                            proof {
                                if holds_alike(left.set(), x) {
                                    let w = choose|w: T| left.set().contains(w) && alike(x, w);
                                    assert(self.set().contains(w) && alike(x, w));
                                }
                            }
                            None
                        },
                    }
                } else {
                    proof {
                        assert forall|w: T| left.set().contains(w) implies !alike(x, w) by {
                        }
                        if z is Some {
                            let c = z.unwrap();
                        }
                    }
                    match right.insert_nodup2(x, z) {
                        Some(r2) => {
                            let t = Self::node(y.clone(), left.clone(), r2);
                            proof {
                                assert forall|w: T| self.set().contains(w) implies !alike(x, w) by {
                                    if right.set().contains(w) {
                                        assert(!holds_alike(right.set(), x));
                                    }
                                }
                            }
                            Some(t)
                        },
                        None => {
                            proof {
                                if holds_alike(right.set(), x) {
                                    let w = choose|w: T| right.set().contains(w) && alike(x, w);
                                    assert(self.set().contains(w) && alike(x, w));
                                }
                            }
                            None
                        },
                    }
                }
            },
        }
    }

    /// The complete tree of the given depth with `x` in every node; the two
    /// subtrees of a node are one tree, shared.
    pub fn complete(x: T, depth: usize) -> (t: Self)
        requires
            faithful::<T>(),
        ensures
            t.is_complete(x, depth as nat),
        decreases depth,
    {
        if depth == 0 {
            Self::nil()
        } else {
            let c = Self::complete(x.clone(), depth - 1);
            Self::node(x, c.clone(), c)
        }
    }
}

/// The number of nodes of the tree that `create` builds for `size`.
pub open spec fn grown(size: nat) -> nat
    decreases size,
{
    if size == 0 {
        0
    } else {
        2 * grown(size / 2) + 1 + size % 2
    }
}

impl<T: Clone + PartialOrd> Tree<T> {
    /// A tree with `x` in every node whose subtrees differ in size by one
    /// node at most, everywhere: `grown(size)` nodes, with equal subtrees
    /// shared.
    pub fn create(x: T, size: usize) -> (t: Self)
        requires
            faithful::<T>(),
        ensures
            t.is_balanced(x),
            t.size() == grown(size as nat),
    {
        if size == 0 {
            Self::nil()
        } else {
            let (a, b) = Self::create2(x.clone(), size / 2);
            if size % 2 == 0 {
                Self::node(x, a.clone(), a)
            } else {
                Self::node(x, a, b)
            }
        }
    }

    /// Two trees as `create` builds them, the second one node larger than the
    /// first.
    fn create2(x: T, size: usize) -> (r: (Self, Self))
        requires
            faithful::<T>(),
        ensures
            r.0.is_balanced(x),
            r.1.is_balanced(x),
            r.0.size() == grown(size as nat),
            r.1.size() == grown(size as nat) + 1,
        decreases size,
    {
        if size == 0 {
            let e = Self::nil();
            assert(e.is_balanced(x));
            (e.clone(), Self::node(x, e.clone(), e))
        } else if size % 2 == 0 {
            let (a, b) = Self::create2(x.clone(), size / 2);
            let small = Self::node(x.clone(), a.clone(), a.clone());
            let large = Self::node(x, a, b);
            assert(small.size() == grown(size as nat));
            (small, large)
        } else {
            let (a, b) = Self::create2(x.clone(), size / 2);
            let small = Self::node(x.clone(), a, b.clone());
            let large = Self::node(x, b.clone(), b);
            assert(small.size() == grown(size as nat));
            (small, large)
        }
    }
}

impl<K, V> Tree<(K, V)> {
    /// The bindings of the tree: each key with the value in its node.
    pub closed spec fn map(self) -> Map<K, V>
        decreases self,
    {
        match *self.0 {
            TreeImpl::Empty => Map::empty(),
            TreeImpl::Node(e, l, r) => l.map().union_prefer_right(r.map()).insert(e.0, e.1),
        }
    }
}

impl<K: PartialOrd, V> Tree<(K, V)> {
    /// Whether the tree is a search tree over its keys.
    pub closed spec fn is_search_map(self) -> bool
        decreases self,
    {
        match *self.0 {
            TreeImpl::Empty => true,
            TreeImpl::Node(e, l, r) => {
                &&& all_below(l.map().dom(), e.0)
                &&& all_above(r.map().dom(), e.0)
                &&& l.is_search_map()
                &&& r.is_search_map()
            },
        }
    }
}

impl<K: Clone + PartialOrd, V: Clone> FiniteMap<K, V> for Tree<(K, V)> {
    open spec fn bindings(&self) -> Map<K, V> {
        self.map()
    }

    open spec fn valid_map(&self) -> bool {
        self.is_search_map()
    }

    fn empty() -> (m: Self) {
        Self::nil()
    }

    fn bind(&self, key: K, value: V) -> (m: Self)
        decreases self,
    {
        match &*self.0 {
            TreeImpl::Empty => Self::node((key, value), self.clone(), self.clone()),
            TreeImpl::Node(e, left, right) => {
                proof {
                    assert(lt(e.0, key) <==> !le(key, e.0));
                    assert(alike(key, e.0) ==> key == e.0);
                }
                if less(&e.0, &key) {
                    let r2 = right.bind(key, value);
                    let m = Self::node((e.0.clone(), e.1.clone()), left.clone(), r2);
                    proof {
                        assert forall|k: K| left.map().dom().contains(k) implies k != key by {
                        }
                    }
                    m
                } else if less(&key, &e.0) {
                    let l2 = left.bind(key, value);
                    Self::node((e.0.clone(), e.1.clone()), l2, right.clone())
                } else {
                    let m = Self::node((key, value), left.clone(), right.clone());
                    assert(m.map() =~= self.map().insert(key, value));
                    m
                }
            },
        }
    }

    fn lookup(&self, key: K) -> (r: Option<V>)
        decreases self,
    {
        match &*self.0 {
            TreeImpl::Empty => None,
            TreeImpl::Node(e, left, right) => {
                proof {
                    assert(le(key, e.0) || le(e.0, key));
                    assert(alike(key, e.0) ==> key == e.0);
                }
                if less(&e.0, &key) {
                    right.lookup(key)
                } else if less(&key, &e.0) {
                    proof {
                        assert forall|k: K| right.map().dom().contains(k) implies k != key by {
                            lemma_lt_trans(key, e.0, k);
                        }
                    }
                    left.lookup(key)
                } else {
                    Some(e.1.clone())
                }
            },
        }
    }
}

impl<T: Clone + PartialOrd> UnbalancedSet<T> for Tree<T> {
    open spec fn elems(&self) -> Set<T> {
        self.set()
    }

    open spec fn valid(&self) -> bool {
        self.is_search_tree()
    }

    fn empty() -> (s: Self) {
        Self::nil()
    }

    fn insert(&self, x: T) -> (s: Self) {
        match self.insert_nodup2(x, None) {
            Some(t) => t,
            None => self.clone(),
        }
    }

    fn member(&self, x: &T) -> (b: bool) {
        self.member2(x, None)
    }
}

} // verus!
