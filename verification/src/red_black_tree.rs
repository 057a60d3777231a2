use vstd::prelude::*;
use std::sync::Arc;
use crate::element::alike;
use crate::element::faithful;
use crate::element::lemma_lt_trans;
use crate::element::less;
use crate::element::lt;
use crate::element::ordered;

verus! {

/// A set kept as a search tree with red and black nodes: no red node has a
/// red child, and every path from the root to an empty place passes the same
/// number of black nodes, so that no path is more than twice as long as
/// another. `insert` rotates the path it has walked where a red node has got
/// a red child.
pub struct RedBlackTree<T: PartialOrd>(Arc<Tree<T>>);

enum Tree<T: PartialOrd> {
    Empty,
    Node { color: Color, elem: T, left: RedBlackTree<T>, right: RedBlackTree<T> },
}

#[derive(Debug, Clone, Copy, PartialEq, Eq, Structural)]
enum Color {
    Red,
    Black,
}

/// Whether everything in `s` is below `x`.
spec fn all_below<T: PartialOrd>(s: Set<T>, x: T) -> bool {
    forall|y: T| s.contains(y) ==> lt(y, x)
}

/// Whether everything in `s` is above `x`.
spec fn all_above<T: PartialOrd>(s: Set<T>, x: T) -> bool {
    forall|y: T| s.contains(y) ==> lt(x, y)
}

/// Whether `s` holds an element that compares alike with `x`.
pub open spec fn holds_alike<T: PartialOrd>(s: Set<T>, x: T) -> bool {
    exists|y: T| s.contains(y) && alike(x, y)
}

impl<T: PartialOrd> View for RedBlackTree<T> {
    type V = Set<T>;

    closed spec fn view(&self) -> Set<T>
        decreases self,
    {
        match *self.0 {
            Tree::Empty => Set::empty(),
            Tree::Node { color, elem, left, right } => left@.union(right@).insert(elem),
        }
    }
}

impl<T: PartialOrd> Clone for RedBlackTree<T> {
    fn clone(&self) -> (r: Self)
        ensures
            r == *self,
    {
        proof {
            use_type_invariant(self);
        }
        RedBlackTree(self.0.clone())
    }
}

impl<T: PartialOrd> RedBlackTree<T> {
    /// Whether the root is a red node.
    pub closed spec fn is_red(self) -> bool {
        match *self.0 {
            Tree::Empty => false,
            Tree::Node { color, elem, left, right } => color == Color::Red,
        }
    }

    /// The number of black nodes on the leftmost path from the root to an
    /// empty place.
    pub closed spec fn black_height(self) -> nat
        decreases self,
    {
        match *self.0 {
            Tree::Empty => 0,
            Tree::Node { color, elem, left, right } => left.black_height() + (if color
                == Color::Black {
                1nat
            } else {
                0nat
            }),
        }
    }

    /// The element at the root, where there is one.
    pub closed spec fn spec_root(self) -> Option<T> {
        match *self.0 {
            Tree::Empty => None,
            Tree::Node { color, elem, left, right } => Some(elem),
        }
    }

    /// The number of nodes on the longest path from the root to an empty
    /// place.
    pub closed spec fn spec_depth(self) -> nat
        decreases self,
    {
        match *self.0 {
            Tree::Empty => 0,
            Tree::Node { color, elem, left, right } => 1 + if left.spec_depth()
                >= right.spec_depth() {
                left.spec_depth()
            } else {
                right.spec_depth()
            },
        }
    }

    /// The number of nodes on the longest path from the root to an empty
    /// place.
    pub fn depth(&self) -> (d: usize)
        requires
            self.spec_depth() <= usize::MAX,
        ensures
            d == self.spec_depth(),
        decreases self,
    {
        match &*self.0 {
            Tree::Empty => 0,
            Tree::Node { color: _, elem: _, left, right } => {
                let l = left.depth();
                let r = right.depth();
                if l >= r {
                    1 + l
                } else {
                    1 + r
                }
            },
        }
    }

    /// Whether the root, where it is red, has no red child.
    spec fn proper(self) -> bool {
        match *self.0 {
            Tree::Empty => true,
            Tree::Node { color, elem, left, right } => color == Color::Red ==> !left.is_red()
                && !right.is_red(),
        }
    }

    /// Whether the tree keeps the rules everywhere but, perhaps, at the root,
    /// which may be red over a red child. In every node, what is to the left
    /// is below the element and what is to the right above it, the two
    /// subtrees have the same number of black nodes on every path, and no red
    /// node below the root has a red child.
    spec fn almost(self) -> bool
        decreases self,
    {
        match *self.0 {
            Tree::Empty => true,
            Tree::Node { color, elem, left, right } => {
                &&& all_below(left@, elem)
                &&& all_above(right@, elem)
                &&& left.black_height() == right.black_height()
                &&& left.almost()
                &&& left.proper()
                &&& right.almost()
                &&& right.proper()
            },
        }
    }

    /// Whether the tree is a red-black tree: a search tree in which no red
    /// node has a red child, every path from the root to an empty place
    /// passes the same number of black nodes, and the root is black.
    pub closed spec fn is_red_black(&self) -> bool {
        self.almost() && !self.is_red()
    }

    /// Every tree keeps the rules below its root.
    #[verifier::type_invariant]
    spec fn wf(&self) -> bool {
        self.almost()
    }

    proof fn lemma_view(&self)
        ensures
            self@ == (match *self.0 {
                Tree::Empty => Set::empty(),
                Tree::Node { color, elem, left, right } => left@.union(right@).insert(elem),
            }),
    {
    }

    /// Whether the tree is a red root with `top` over two black nodes: the
    /// element and the two subtrees of `l` to the left, those of `r` to the
    /// right.
    spec fn is_fork(self, top: T, l: (T, Self, Self), r: (T, Self, Self)) -> bool {
        match *self.0 {
            Tree::Empty => false,
            Tree::Node { color, elem, left, right } => {
                &&& color == Color::Red
                &&& elem == top
                &&& *left.0 == (Tree::Node { color: Color::Black, elem: l.0, left: l.1, right: l.2 })
                &&& *right.0 == (Tree::Node {
                    color: Color::Black,
                    elem: r.0,
                    left: r.1,
                    right: r.2,
                })
            },
        }
    }

    /// Whether `s` is what rebalancing makes of a node of the colour `color`
    /// with the element `z` over `a` and `d`. Under a black node, a red child
    /// with a red child is brought up: of the three elements, in their order,
    /// the middle one becomes a red root, the other two black nodes under it,
    /// and the four subtrees hang under those two, in their order. The left
    /// child is looked at first, and of the children of a child the left one
    /// first. Where there is no such child, or the node is red, the node is
    /// built as it is.
    spec fn rebalanced(color: Color, z: T, a: Self, d: Self, s: Self) -> bool {
        let plain = *s.0 == (Tree::Node { color, elem: z, left: a, right: d });
        if color == Color::Black {
            match *a.0 {
                Tree::Node { color: ca, elem: y, left: a1, right: c } => {
                    if ca == Color::Red && a1.is_red() {
                        *a1.0 matches Tree::Node { color: cx, elem: x, left: a2, right: b }
                            && s.is_fork(y, (x, a2, b), (z, c, d))
                    } else if ca == Color::Red && c.is_red() {
                        *c.0 matches Tree::Node { color: cx, elem: x, left: b, right: c2 }
                            && s.is_fork(x, (y, a1, b), (z, c2, d))
                    } else {
                        Self::rebalanced_right(z, a, d, s)
                    }
                },
                Tree::Empty => Self::rebalanced_right(z, a, d, s),
            }
        } else {
            plain
        }
    }

    /// `rebalanced`, for a black node whose left child needs no rotation.
    spec fn rebalanced_right(z: T, a: Self, d: Self, s: Self) -> bool {
        match *d.0 {
            Tree::Node { color: cd, elem: y, left: b, right: d2 } => {
                if cd == Color::Red && b.is_red() {
                    *b.0 matches Tree::Node { color: cx, elem: x, left: b2, right: c } && s.is_fork(
                        x,
                        (z, a, b2),
                        (y, c, d2),
                    )
                } else if cd == Color::Red && d2.is_red() {
                    *d2.0 matches Tree::Node { color: cx, elem: x, left: c, right: d3 }
                        && s.is_fork(y, (z, a, b), (x, c, d3))
                } else {
                    *s.0 == (Tree::Node { color: Color::Black, elem: z, left: a, right: d })
                }
            },
            Tree::Empty => *s.0 == (Tree::Node { color: Color::Black, elem: z, left: a, right: d }),
        }
    }

    /// The set with no element.
    pub fn empty() -> (s: Self)
        ensures
            s@ == Set::<T>::empty(),
            s.is_red_black(),
            s.black_height() == 0,
            !s.is_red(),
    {
        let s = RedBlackTree(Arc::new(Tree::Empty));
        proof {
            s.lemma_view();
        }
        s
    }

    fn node(color: Color, x: T, left: Self, right: Self) -> (s: Self)
        requires
            all_below(left@, x),
            all_above(right@, x),
            left.black_height() == right.black_height(),
            left.proper(),
            right.proper(),
        ensures
            s@ == left@.union(right@).insert(x),
            *s.0 == (Tree::Node { color, elem: x, left, right }),
            s.almost(),
            s.black_height() == left.black_height() + (if color == Color::Black {
                1nat
            } else {
                0nat
            }),
    {
        proof {
            use_type_invariant(&left);
            use_type_invariant(&right);
        }
        let tree = Arc::new(Tree::Node { color, elem: x, left, right });
        proof {
            RedBlackTree(tree).lemma_view();
        }
        RedBlackTree(tree)
    }
}

impl<T: Clone + PartialOrd> RedBlackTree<T> {
    /// The element at the root; `None` for the empty set.
    pub fn root(&self) -> (r: Option<T>)
        requires
            faithful::<T>(),
        ensures
            r == self.spec_root(),
    {
        match &*self.0 {
            Tree::Empty => None,
            Tree::Node { color: _, elem, left: _, right: _ } => Some(elem.clone()),
        }
    }

    /// Whether the set holds an element that compares alike with `x`.
    pub fn member(&self, x: T) -> (b: bool)
        requires
            ordered::<T>(),
        ensures
            b == holds_alike(self@, x),
        decreases self,
    {
        proof {
            use_type_invariant(self);
            self.lemma_view();
        }
        match &*self.0 {
            Tree::Empty => false,
            Tree::Node { color: _, elem: y, left, right } => {
                if less(&x, y) {
                    let b = left.member(x);
                    proof {
                        assert forall|z: T| self@.contains(z) && alike(x, z) implies left@.contains(
                            z,
                        ) by {
                            lemma_lt_trans(x, *y, z);
                            lemma_lt_trans(z, x, *y);
                            if right@.contains(z) {
                                assert(lt(*y, z));
                            }
                        }
                    }
                    b
                } else if less(y, &x) {
                    let b = right.member(x);
                    proof {
                        assert forall|z: T| self@.contains(z) && alike(x, z) implies right@.contains(
                            z,
                        ) by {
                            lemma_lt_trans(*y, x, z);
                            lemma_lt_trans(z, *y, x);
                            if left@.contains(z) {
                                assert(lt(z, *y));
                            }
                        }
                    }
                    b
                } else {
                    assert(self@.contains(*y) && alike(x, *y));
                    true
                }
            },
        }
    }

    /// The set with `x`; the set itself where it holds an element that
    /// compares alike with `x`. The result is a red-black tree again.
    pub fn insert(&self, x: T) -> (s: Self)
        requires
            faithful::<T>(),
            ordered::<T>(),
            self.is_red_black(),
        ensures
            s@ == (if holds_alike(self@, x) {
                self@
            } else {
                self@.insert(x)
            }),
            s.is_red_black(),
    {
        let t = self.ins(x);
        proof {
            use_type_invariant(&t);
            t.lemma_view();
        }
        match &*t.0 {
            Tree::Node { color: _, elem, left, right } => Self::node(
                Color::Black,
                elem.clone(),
                left.clone(),
                right.clone(),
            ),
            Tree::Empty => unreached(),
        }
    }

    /// The tree with `x` as a red leaf, rebalanced along the path to it. The
    /// number of black nodes on a path stays; the root may come out red over
    /// a red child where it was red before.
    fn ins(&self, x: T) -> (s: Self)
        requires
            faithful::<T>(),
            ordered::<T>(),
            self.proper(),
        ensures
            s@ == (if holds_alike(self@, x) {
                self@
            } else {
                self@.insert(x)
            }),
            *s.0 is Node,
            s.black_height() == self.black_height(),
            !self.is_red() ==> s.proper(),
        decreases self,
    {
        proof {
            use_type_invariant(self);
            self.lemma_view();
        }
        match &*self.0 {
            Tree::Empty => {
                let s = Self::node(Color::Red, x, Self::empty(), Self::empty());
                assert(s@ =~= self@.insert(x));
                assert(!holds_alike(self@, x));
                s
            },
            Tree::Node { color, elem, left: a, right: b } => {
                if less(&x, elem) {
                    let a2 = a.ins(x);
                    proof {
                        assert forall|z: T| self@.contains(z) && alike(x, z) implies a@.contains(
                            z,
                        ) by {
                            lemma_lt_trans(x, *elem, z);
                            lemma_lt_trans(z, x, *elem);
                            if b@.contains(z) {
                                assert(lt(*elem, z));
                            }
                        }
                        assert(holds_alike(self@, x) == holds_alike(a@, x));
                        assert(a2@.union(b@).insert(*elem) =~= (if holds_alike(self@, x) {
                            self@
                        } else {
                            self@.insert(x)
                        }));
                        assert forall|z: T| a2@.contains(z) implies lt(z, *elem) by {
                            if !a@.contains(z) {
                                assert(z == x);
                            }
                        }
                    }
                    Self::balance(*color, elem.clone(), a2, b.clone())
                } else if less(elem, &x) {
                    let b2 = b.ins(x);
                    proof {
                        assert forall|z: T| self@.contains(z) && alike(x, z) implies b@.contains(
                            z,
                        ) by {
                            lemma_lt_trans(*elem, x, z);
                            lemma_lt_trans(z, *elem, x);
                            if a@.contains(z) {
                                assert(lt(z, *elem));
                            }
                        }
                        assert(holds_alike(self@, x) == holds_alike(b@, x));
                        assert(a@.union(b2@).insert(*elem) =~= (if holds_alike(self@, x) {
                            self@
                        } else {
                            self@.insert(x)
                        }));
                        assert forall|z: T| b2@.contains(z) implies lt(*elem, z) by {
                            if !b@.contains(z) {
                                assert(z == x);
                            }
                        }
                    }
                    Self::balance(*color, elem.clone(), a.clone(), b2)
                } else {
                    assert(self@.contains(*elem) && alike(x, *elem));
                    self.clone()
                }
            },
        }
    }

    /// The node of the colour `color` with `z` over `a` and `d`, rebalanced:
    /// where the node is black and a red child has a red child, the middle
    /// one of the three elements becomes a red root over two black children.
    /// Both children are looked at, the left one first.
    fn balance(color: Color, z: T, a: Self, d: Self) -> (s: Self)
        requires
            faithful::<T>(),
            ordered::<T>(),
            all_below(a@, z),
            all_above(d@, z),
            a.black_height() == d.black_height(),
            a.proper() || d.proper(),
            color == Color::Red ==> a.proper() && d.proper(),
        ensures
            s@ == a@.union(d@).insert(z),
            *s.0 is Node,
            Self::rebalanced(color, z, a, d, s),
            s.black_height() == a.black_height() + (if color == Color::Black {
                1nat
            } else {
                0nat
            }),
            color == Color::Black ==> s.proper(),
    {
        proof {
            use_type_invariant(&a);
            use_type_invariant(&d);
            a.lemma_view();
            d.lemma_view();
        }
        match color {
            Color::Red => {
                return Self::node(Color::Red, z, a, d);
            },
            Color::Black => {},
        }
        match &*a.0 {
            Tree::Node { color: Color::Red, elem: y, left: a1, right: c } => {
                proof {
                    use_type_invariant(a1);
                    use_type_invariant(c);
                    a1.lemma_view();
                    c.lemma_view();
                }
                match &*a1.0 {
                    Tree::Node { color: Color::Red, elem: x, left: a2, right: b } => {
                        proof {
                            use_type_invariant(a2);
                            use_type_invariant(b);
                            assert(a@.contains(*y) && a@.contains(*x));
                            assert forall|w: T| c@.contains(w) implies lt(w, z) by {
                                assert(a@.contains(w));
                            }
                            assert forall|w: T| d@.contains(w) implies lt(*y, w) by {
                                lemma_lt_trans(*y, z, w);
                            }
                        }
                        let right = Self::node(Color::Black, z, c.clone(), d);
                        let left = Self::node(Color::Black, x.clone(), a2.clone(), b.clone());
                        let s = Self::node(Color::Red, y.clone(), left, right);
                        assert(s@ =~= a@.union(d@).insert(z));
                        return s;
                    },
                    _ => {},
                }
                match &*c.0 {
                    Tree::Node { color: Color::Red, elem: x, left: b, right: c2 } => {
                        proof {
                            use_type_invariant(b);
                            use_type_invariant(c2);
                            assert(a@.contains(*y) && a@.contains(*x) && c@.contains(*x));
                            assert forall|w: T| b@.contains(w) implies lt(*y, w) by {
                                assert(c@.contains(w));
                            }
                            assert forall|w: T| c2@.contains(w) implies lt(w, z) by {
                                assert(c@.contains(w));
                                assert(a@.contains(w));
                            }
                            assert forall|w: T| d@.contains(w) implies lt(*x, w) by {
                                lemma_lt_trans(*x, z, w);
                            }
                            assert forall|w: T| a1@.contains(w) implies lt(w, *x) by {
                                lemma_lt_trans(w, *y, *x);
                            }
                        }
                        let left = Self::node(Color::Black, y.clone(), a1.clone(), b.clone());
                        let right = Self::node(Color::Black, z, c2.clone(), d);
                        let s = Self::node(Color::Red, x.clone(), left, right);
                        assert(s@ =~= a@.union(d@).insert(z));
                        return s;
                    },
                    _ => {},
                }
            },
            _ => {},
        }
        match &*d.0 {
            Tree::Node { color: Color::Red, elem: y, left: b, right: d2 } => {
                proof {
                    use_type_invariant(b);
                    use_type_invariant(d2);
                    b.lemma_view();
                    d2.lemma_view();
                }
                match &*b.0 {
                    Tree::Node { color: Color::Red, elem: x, left: b2, right: c } => {
                        proof {
                            use_type_invariant(b2);
                            use_type_invariant(c);
                            assert(d@.contains(*y) && d@.contains(*x) && b@.contains(*x));
                            assert forall|w: T| b2@.contains(w) implies lt(z, w) by {
                                assert(b@.contains(w));
                                assert(d@.contains(w));
                            }
                            assert forall|w: T| c@.contains(w) implies lt(w, *y) by {
                                assert(b@.contains(w));
                            }
                            assert forall|w: T| a@.contains(w) implies lt(w, *x) by {
                                lemma_lt_trans(w, z, *x);
                            }
                            assert forall|w: T| d2@.contains(w) implies lt(*x, w) by {
                                lemma_lt_trans(*x, *y, w);
                            }
                        }
                        let left = Self::node(Color::Black, z, a, b2.clone());
                        let right = Self::node(Color::Black, y.clone(), c.clone(), d2.clone());
                        let s = Self::node(Color::Red, x.clone(), left, right);
                        assert(s@ =~= a@.union(d@).insert(z));
                        return s;
                    },
                    _ => {},
                }
                match &*d2.0 {
                    Tree::Node { color: Color::Red, elem: x, left: c, right: d3 } => {
                        proof {
                            use_type_invariant(c);
                            use_type_invariant(d3);
                            assert(d@.contains(*y) && d@.contains(*x));
                            assert forall|w: T| b@.contains(w) implies lt(z, w) by {
                                assert(d@.contains(w));
                            }
                            assert forall|w: T| a@.contains(w) implies lt(w, *y) by {
                                lemma_lt_trans(w, z, *y);
                            }
                        }
                        let left = Self::node(Color::Black, z, a, b.clone());
                        let right = Self::node(Color::Black, x.clone(), c.clone(), d3.clone());
                        let s = Self::node(Color::Red, y.clone(), left, right);
                        assert(s@ =~= a@.union(d@).insert(z));
                        return s;
                    },
                    _ => {},
                }
            },
            _ => {},
        }
        Self::node(Color::Black, z, a, d)
    }
}

} // verus!
