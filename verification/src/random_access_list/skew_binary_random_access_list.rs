use vstd::prelude::*;
use std::sync::Arc;
use crate::element::faithful;
use crate::error::Error;
use crate::random_access_list::RandomAceessList;
use crate::stack::Cell;
use crate::stack::Stack;

verus! {

/// A list kept as a list of complete trees, each with its size: putting an
/// element in front makes one tree of the first two where they are equally
/// large, with the element as its root, and a tree of one element else.
pub struct SkewBinaryRandomAccessList<T>(Stack<(usize, ATree<T>)>);

struct ATree<T>(Arc<Tree<T>>);

enum Tree<T> {
    Leaf(T),
    /// The first element, and the two halves of the rest.
    Node(T, ATree<T>, ATree<T>),
}

impl<T> Clone for ATree<T> {
    fn clone(&self) -> (r: Self)
        ensures
            r == *self,
    {
        proof {
            use_type_invariant(self);
        }
        ATree(self.0.clone())
    }
}

impl<T> Clone for SkewBinaryRandomAccessList<T> {
    fn clone(&self) -> (r: Self)
        ensures
            r == *self,
    {
        proof {
            use_type_invariant(self);
        }
        SkewBinaryRandomAccessList(self.0.clone())
    }
}

impl<T> ATree<T> {
    /// The elements: the root, then the left half, then the right half.
    spec fn elems(self) -> Seq<T>
        decreases self,
    {
        match *self.0 {
            Tree::Leaf(x) => seq![x],
            Tree::Node(x, a, b) => seq![x] + a.elems() + b.elems(),
        }
    }

    /// The two halves of a tree are equally large.
    #[verifier::type_invariant]
    spec fn wf(self) -> bool {
        match *self.0 {
            Tree::Leaf(_) => true,
            Tree::Node(_, a, b) => a.elems().len() == b.elems().len(),
        }
    }

    proof fn lemma_elems(self)
        ensures
            self.elems() == (match *self.0 {
                Tree::Leaf(x) => seq![x],
                Tree::Node(x, a, b) => seq![x] + a.elems() + b.elems(),
            }),
            self.elems().len() >= 1,
    {
    }

    fn leaf(x: T) -> (t: Self)
        ensures
            t.elems() == seq![x],
    {
        let tree = Arc::new(Tree::Leaf(x));
        proof {
            ATree(tree).lemma_elems();
        }
        ATree(tree)
    }

    fn node(x: T, t1: ATree<T>, t2: ATree<T>) -> (t: Self)
        requires
            t1.elems().len() == t2.elems().len(),
        ensures
            t.elems() == seq![x] + t1.elems() + t2.elems(),
    {
        let tree = Arc::new(Tree::Node(x, t1, t2));
        proof {
            ATree(tree).lemma_elems();
        }
        ATree(tree)
    }
}

impl<T: Clone> ATree<T> {
    fn lookup(&self, w: usize, i: usize) -> (r: Option<T>)
        requires
            faithful::<T>(),
            w == self.elems().len(),
        ensures
            r == if i < w {
                Some(self.elems()[i as int])
            } else {
                None
            },
        decreases self.elems().len(),
    {
        proof {
            use_type_invariant(self);
        }
        match &*self.0 {
            Tree::Leaf(x) => {
                if i == 0 {
                    Some(x.clone())
                } else {
                    None
                }
            },
            Tree::Node(x, t1, t2) => {
                if i == 0 {
                    Some(x.clone())
                } else if i <= w / 2 {
                    t1.lookup(w / 2, i - 1)
                } else {
                    t2.lookup(w / 2, i - 1 - w / 2)
                }
            },
        }
    }

    fn update(&self, w: usize, i: usize, y: T) -> (r: Result<Self, Error>)
        requires
            faithful::<T>(),
            w == self.elems().len(),
        ensures
            match r {
                Ok(t) => i < w && t.elems() == self.elems().update(i as int, y),
                Err(e) => i >= w && e == Error::InvalidIndex,
            },
        decreases self.elems().len(),
    {
        proof {
            use_type_invariant(self);
        }
        match &*self.0 {
            Tree::Leaf(_) => {
                if i == 0 {
                    let t = Self::leaf(y);
                    Ok(t)
                } else {
                    Err(Error::InvalidIndex)
                }
            },
            Tree::Node(x, t1, t2) => {
                if i == 0 {
                    let t = Self::node(y, t1.clone(), t2.clone());
                    Ok(t)
                } else if i <= w / 2 {
                    match t1.update(w / 2, i - 1, y) {
                        Ok(left) => {
                            let t = Self::node(x.clone(), left, t2.clone());
                            Ok(t)
                        },
                        Err(e) => Err(e),
                    }
                } else {
                    match t2.update(w / 2, i - 1 - w / 2, y) {
                        Ok(right) => {
                            let t = Self::node(x.clone(), t1.clone(), right);
                            Ok(t)
                        },
                        Err(e) => Err(e),
                    }
                }
            },
        }
    }
}

/// The elements of the trees of a list, in the order of the list.
spec fn trees_elems<T>(l: Stack<(usize, ATree<T>)>) -> Seq<T>
    decreases l,
{
    match l.cell() {
        Cell::Nil => Seq::empty(),
        Cell::Cons(e, rest) => e.1.elems() + trees_elems(rest),
    }
}

/// Whether each tree of a list comes with its size.
spec fn trees_ok<T>(l: Stack<(usize, ATree<T>)>) -> bool
    decreases l,
{
    match l.cell() {
        Cell::Nil => true,
        Cell::Cons(e, rest) => e.0 == e.1.elems().len() && trees_ok(rest),
    }
}

fn lookup_trees<T: Clone>(ts: &Stack<(usize, ATree<T>)>, i: usize) -> (r: Option<T>)
    requires
        faithful::<T>(),
        trees_ok(*ts),
    ensures
        r == if i < trees_elems(*ts).len() {
            Some(trees_elems(*ts)[i as int])
        } else {
            None
        },
    decreases ts@.len(),
{
    match ts.as_cell() {
        Cell::Nil => None,
        Cell::Cons(e, rest) => {
            if i < e.0 {
                e.1.lookup(e.0, i)
            } else {
                lookup_trees(rest, i - e.0)
            }
        },
    }
}

fn update_trees<T: Clone>(ts: &Stack<(usize, ATree<T>)>, i: usize, y: T) -> (r: Result<
    Stack<(usize, ATree<T>)>,
    Error,
>)
    requires
        faithful::<T>(),
        trees_ok(*ts),
    ensures
        match r {
            Ok(l) => {
                &&& i < trees_elems(*ts).len()
                &&& trees_ok(l)
                &&& trees_elems(l) == trees_elems(*ts).update(i as int, y)
            },
            Err(e) => i >= trees_elems(*ts).len() && e == Error::InvalidIndex,
        },
    decreases ts@.len(),
{
    match ts.as_cell() {
        Cell::Nil => Err(Error::InvalidIndex),
        Cell::Cons(e, rest) => {
            if i < e.0 {
                match e.1.update(e.0, i, y) {
                    Ok(t) => {
                        let l = Stack::cons((e.0, t), rest.clone());
                        Ok(l)
                    },
                    Err(e) => Err(e),
                }
            } else {
                match update_trees(rest, i - e.0, y) {
                    Ok(more) => {
                        let l = Stack::cons((e.0, e.1.clone()), more);
                        Ok(l)
                    },
                    Err(e) => Err(e),
                }
            }
        },
    }
}

impl<T> View for SkewBinaryRandomAccessList<T> {
    type V = Seq<T>;

    closed spec fn view(&self) -> Seq<T> {
        trees_elems(self.0)
    }
}

impl<T> SkewBinaryRandomAccessList<T> {
    #[verifier::type_invariant]
    spec fn wf(&self) -> bool {
        trees_ok(self.0) && trees_elems(self.0).len() <= usize::MAX
    }

    /// The list with no element.
    pub fn empty() -> (l: Self)
        ensures
            l@ == Seq::<T>::empty(),
    {
        SkewBinaryRandomAccessList(Stack::empty())
    }

    /// Whether the list holds no element.
    pub fn is_empty(&self) -> (b: bool)
        ensures
            b == (self@.len() == 0),
    {
        proof {
            use_type_invariant(self);
            if self.0.cell() is Cons {
                self.0.cell()->Cons_0.1.lemma_elems();
            }
        }
        self.0.is_empty()
    }

    /// The list with `x` in front of the elements of `xs`.
    pub fn cons(x: T, xs: &Self) -> (l: Self)
        requires
            xs@.len() < usize::MAX,
        ensures
            l@ == seq![x] + xs@,
    {
        proof {
            use_type_invariant(xs);
        }
        match xs.0.as_cell() {
            Cell::Cons(e1, ts) => match ts.as_cell() {
                Cell::Cons(e2, rest) => {
                    proof {
                        assert(trees_ok(*ts));
                        assert(trees_elems(*ts) == e2.1.elems() + trees_elems(*rest));
                    }
                    if e1.0 == e2.0 {
                        let t = ATree::node(x, e1.1.clone(), e2.1.clone());
                        let l = Stack::cons((1 + e1.0 + e2.0, t), rest.clone());
                        SkewBinaryRandomAccessList(l)
                    } else {
                        let l = Stack::cons((1, ATree::leaf(x)), xs.0.clone());
                        SkewBinaryRandomAccessList(l)
                    }
                },
                Cell::Nil => {
                    let l = Stack::cons((1, ATree::leaf(x)), xs.0.clone());
                    SkewBinaryRandomAccessList(l)
                },
            },
            Cell::Nil => {
                let l = Stack::cons((1, ATree::leaf(x)), xs.0.clone());
                SkewBinaryRandomAccessList(l)
            },
        }
    }

    /// The list without its first element; `None` for the empty list.
    pub fn tail(&self) -> (r: Option<Self>)
        ensures
            match r {
                Some(l) => self@.len() > 0 && l@ == self@.skip(1),
                None => self@.len() == 0,
            },
    {
        proof {
            use_type_invariant(self);
        }
        match self.0.as_cell() {
            Cell::Nil => None,
            Cell::Cons(e, ts) => {
                proof {
                    use_type_invariant(&e.1);
                }
                match &*e.1.0 {
                    Tree::Leaf(_) => Some(SkewBinaryRandomAccessList(ts.clone())),
                    Tree::Node(_, t1, t2) => {
                        let half = e.0 / 2;
                        let inner = Stack::cons((half, t2.clone()), ts.clone());
                        proof {
                            assert(trees_ok(inner));
                        }
                        let l = Stack::cons((half, t1.clone()), inner);
                        proof {
                            assert(trees_elems(l) == t1.elems() + trees_elems(inner));
                        }
                        Some(SkewBinaryRandomAccessList(l))
                    },
                }
            },
        }
    }
}

impl<T: Clone> SkewBinaryRandomAccessList<T> {
    /// The first element; `None` for the empty list.
    pub fn head(&self) -> (r: Option<T>)
        requires
            faithful::<T>(),
        ensures
            r == if self@.len() == 0 {
                None
            } else {
                Some(self@[0])
            },
    {
        proof {
            use_type_invariant(self);
        }
        match self.0.as_cell() {
            Cell::Nil => None,
            Cell::Cons(e, _) => {
                match &*e.1.0 {
                    Tree::Leaf(x) => Some(x.clone()),
                    Tree::Node(x, _, _) => Some(x.clone()),
                }
            },
        }
    }

    /// The element at index `i`; `None` where `i` is not below the length.
    pub fn lookup(&self, i: usize) -> (r: Option<T>)
        requires
            faithful::<T>(),
        ensures
            r == if i < self@.len() {
                Some(self@[i as int])
            } else {
                None
            },
    {
        proof {
            use_type_invariant(self);
        }
        lookup_trees(&self.0, i)
    }

    /// The list with `y` at index `i`; `Error::InvalidIndex` where `i` is not
    /// below the length.
    pub fn update(&self, i: usize, y: T) -> (r: Result<Self, Error>)
        requires
            faithful::<T>(),
        ensures
            match r {
                Ok(l) => i < self@.len() && l@ == self@.update(i as int, y),
                Err(e) => i >= self@.len() && e == Error::InvalidIndex,
            },
    {
        proof {
            use_type_invariant(self);
        }
        match update_trees(&self.0, i, y) {
            Ok(l) => Ok(SkewBinaryRandomAccessList(l)),
            Err(e) => Err(e),
        }
    }
}

impl<T: Clone> RandomAceessList<T> for SkewBinaryRandomAccessList<T> {
    open spec fn elems(&self) -> Seq<T> {
        self@
    }

    fn empty() -> (l: Self) {
        SkewBinaryRandomAccessList::empty()
    }

    fn is_empty(&self) -> (b: bool) {
        SkewBinaryRandomAccessList::is_empty(self)
    }

    fn cons(x: T, xs: &Self) -> (l: Self) {
        SkewBinaryRandomAccessList::cons(x, xs)
    }

    fn head(&self) -> (r: Option<T>) {
        SkewBinaryRandomAccessList::head(self)
    }

    fn tail(&self) -> (r: Option<Self>) {
        SkewBinaryRandomAccessList::tail(self)
    }

    fn lookup(&self, idx: usize) -> (r: Option<T>) {
        SkewBinaryRandomAccessList::lookup(self, idx)
    }

    fn update(&self, idx: usize, val: T) -> (r: Result<Self, Error>) {
        SkewBinaryRandomAccessList::update(self, idx, val)
    }
}

} // verus!
