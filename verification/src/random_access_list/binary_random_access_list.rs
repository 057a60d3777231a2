use vstd::prelude::*;
use std::sync::Arc;
use crate::element::faithful;
use crate::error::Error;
use crate::random_access_list::RandomAceessList;
use crate::stack::Cell;
use crate::stack::Stack;

verus! {

/// A list kept as the digits of a binary number, lowest place first: the
/// place of weight `w` is a zero, or a one that holds `w` elements as the
/// leaves of a complete tree.
pub struct BinaryRandomAccessList<T>(Stack<Digit<T>>);

enum Digit<T> {
    Zero,
    One(ATree<T>),
}

enum Tree<T> {
    Leaf(T),
    /// The number of leaves, and the two halves.
    Node(usize, ATree<T>, ATree<T>),
}

struct ATree<T>(Arc<Tree<T>>);

impl<T> Clone for ATree<T> {
    fn clone(&self) -> (r: Self)
        ensures
            r == *self,
    {
        proof {
            use_type_invariant(self);
        }
        ATree(self.0.clone())
    }
}

impl<T> Clone for Digit<T> {
    fn clone(&self) -> (r: Self)
        ensures
            r == *self,
    {
        match self {
            Digit::Zero => Digit::Zero,
            Digit::One(t) => Digit::One(t.clone()),
        }
    }
}

impl<T> Clone for BinaryRandomAccessList<T> {
    fn clone(&self) -> (r: Self)
        ensures
            r == *self,
    {
        proof {
            use_type_invariant(self);
        }
        BinaryRandomAccessList(self.0.clone())
    }
}

impl<T> ATree<T> {
    /// The leaves, left to right.
    spec fn elems(self) -> Seq<T>
        decreases self,
    {
        match *self.0 {
            Tree::Leaf(x) => seq![x],
            Tree::Node(_, a, b) => a.elems() + b.elems(),
        }
    }

    /// The two halves of a tree are equally large, and the tree knows its
    /// size.
    #[verifier::type_invariant]
    spec fn wf(self) -> bool {
        match *self.0 {
            Tree::Leaf(_) => true,
            Tree::Node(w, a, b) => {
                &&& w == a.elems().len() + b.elems().len()
                &&& a.elems().len() == b.elems().len()
                &&& a.elems().len() >= 1
            },
        }
    }

    proof fn lemma_elems(self)
        ensures
            self.elems() == (match *self.0 {
                Tree::Leaf(x) => seq![x],
                Tree::Node(_, a, b) => a.elems() + b.elems(),
            }),
    {
    }

    fn leaf(x: T) -> (t: Self)
        ensures
            t.elems() == seq![x],
    {
        let tree = Arc::new(Tree::Leaf(x));
        proof {
            ATree(tree).lemma_elems();
        }
        ATree(tree)
    }

    fn size(&self) -> (n: usize)
        ensures
            n == self.elems().len(),
            n >= 1,
    {
        proof {
            use_type_invariant(self);
        }
        match &*self.0 {
            Tree::Leaf(_) => 1,
            Tree::Node(n, _, _) => *n,
        }
    }

    /// The tree of `self` and `other`, which is as large.
    fn link(&self, other: &Self) -> (t: Self)
        requires
            self.elems().len() == other.elems().len(),
            self.elems().len() + other.elems().len() <= usize::MAX,
        ensures
            t.elems() == self.elems() + other.elems(),
    {
        let tree = Arc::new(Tree::Node(self.size() + other.size(), self.clone(), other.clone()));
        proof {
            ATree(tree).lemma_elems();
        }
        ATree(tree)
    }
}

impl<T: Clone> ATree<T> {
    fn lookup(&self, i: usize) -> (r: Option<T>)
        requires
            faithful::<T>(),
        ensures
            r == if i < self.elems().len() {
                Some(self.elems()[i as int])
            } else {
                None
            },
        decreases self.elems().len(),
    {
        proof {
            use_type_invariant(self);
        }
        match &*self.0 {
            Tree::Leaf(x) => {
                if i == 0 {
                    Some(x.clone())
                } else {
                    None
                }
            },
            Tree::Node(w, t1, t2) => {
                if i < *w / 2 {
                    t1.lookup(i)
                } else {
                    t2.lookup(i - *w / 2)
                }
            },
        }
    }

    fn update(&self, i: usize, y: T) -> (r: Result<Self, Error>)
        requires
            faithful::<T>(),
        ensures
            match r {
                Ok(t) => i < self.elems().len() && t.elems() == self.elems().update(i as int, y),
                Err(e) => i >= self.elems().len() && e == Error::InvalidIndex,
            },
        decreases self.elems().len(),
    {
        proof {
            use_type_invariant(self);
        }
        match &*self.0 {
            Tree::Leaf(_) => {
                if i == 0 {
                    let t = Self::leaf(y);
                    Ok(t)
                } else {
                    Err(Error::InvalidIndex)
                }
            },
            Tree::Node(w, t1, t2) => {
                if i < *w / 2 {
                    match t1.update(i, y) {
                        Ok(left) => {
                            let tree = Arc::new(Tree::Node(*w, left, t2.clone()));
                            proof {
                                ATree(tree).lemma_elems();
                            }
                            Ok(ATree(tree))
                        },
                        Err(e) => Err(e),
                    }
                } else {
                    match t2.update(i - *w / 2, y) {
                        Ok(right) => {
                            let tree = Arc::new(Tree::Node(*w, t1.clone(), right));
                            proof {
                                ATree(tree).lemma_elems();
                            }
                            Ok(ATree(tree))
                        },
                        Err(e) => Err(e),
                    }
                }
            },
        }
    }
}

/// The elements of the trees of a list of digits, in the order of the list.
spec fn digits_elems<T>(l: Stack<Digit<T>>) -> Seq<T>
    decreases l,
{
    match l.cell() {
        Cell::Nil => Seq::empty(),
        Cell::Cons(d, rest) => match d {
            Digit::Zero => digits_elems(rest),
            Digit::One(t) => t.elems() + digits_elems(rest),
        },
    }
}

/// Whether the digits are those of places of weight `w`, `2 * w` and so on:
/// each tree as large as the weight of its place, and no zero at the end.
spec fn digits_ok<T>(l: Stack<Digit<T>>, w: nat) -> bool
    decreases l,
{
    match l.cell() {
        Cell::Nil => true,
        Cell::Cons(d, rest) => {
            &&& digits_ok(rest, 2 * w)
            &&& match d {
                Digit::Zero => rest.cell() is Cons,
                Digit::One(t) => t.elems().len() == w,
            }
        },
    }
}

/// Digits that are there hold an element.
proof fn lemma_digits_nonempty<T>(l: Stack<Digit<T>>, w: nat)
    requires
        digits_ok(l, w),
        w >= 1,
        l.cell() is Cons,
    ensures
        digits_elems(l).len() >= w,
    decreases l,
{
    match l.cell() {
        Cell::Nil => {},
        Cell::Cons(d, rest) => match d {
            Digit::Zero => {
                lemma_digits_nonempty(rest, 2 * w);
            },
            Digit::One(t) => {},
        },
    }
}

/// The digits with the tree `t` added at the lowest place.
fn cons_tree<T>(t: ATree<T>, ts: &Stack<Digit<T>>, Ghost(w): Ghost<nat>) -> (r: Stack<Digit<T>>)
    requires
        digits_ok(*ts, w),
        t.elems().len() == w,
        w >= 1,
        w + digits_elems(*ts).len() <= usize::MAX,
    ensures
        digits_ok(r, w),
        digits_elems(r) == t.elems() + digits_elems(*ts),
        r.cell() is Cons,
    decreases ts@.len(),
{
    match ts.as_cell() {
        Cell::Nil => {
            let none = Stack::empty();
            let r = Stack::cons(Digit::One(t), none);
            assert(digits_ok(none, 2 * w));
            r
        },
        Cell::Cons(d, rest) => match d {
            Digit::Zero => Stack::cons(Digit::One(t), rest.clone()),
            Digit::One(tp) => {
                let both = t.link(tp);
                let more = cons_tree(both, rest, Ghost(2 * w));
                Stack::cons(Digit::Zero, more)
            },
        },
    }
}

/// The tree of the lowest place that holds one, split down to the lowest
/// place, and the digits without it.
fn uncons_tree<T>(ts: &Stack<Digit<T>>, Ghost(w): Ghost<nat>) -> (r: Result<
    (ATree<T>, Stack<Digit<T>>),
    Error,
>)
    requires
        digits_ok(*ts, w),
        w >= 1,
    ensures
        match r {
            Ok((t, rest)) => {
                &&& t.elems().len() == w
                &&& digits_ok(rest, w)
                &&& digits_elems(*ts) == t.elems() + digits_elems(rest)
            },
            Err(e) => e == Error::Empty && ts.cell() is Nil,
        },
    decreases ts@.len(),
{
    match ts.as_cell() {
        Cell::Nil => Err(Error::Empty),
        Cell::Cons(d, rest) => match d {
            Digit::One(t) => match rest.as_cell() {
                Cell::Nil => {
                    let none = Stack::empty();
                    Ok((t.clone(), none))
                },
                Cell::Cons(_, _) => Ok((t.clone(), Stack::cons(Digit::Zero, rest.clone()))),
            },
            Digit::Zero => match uncons_tree(rest, Ghost(2 * w)) {
                Err(e) => Err(e),
                Ok((t, more)) => {
                    proof {
                        use_type_invariant(&t);
                    }
                    match &*t.0 {
                        Tree::Node(_, t1, t2) => {
                            let kept = Stack::cons(Digit::One(t2.clone()), more);
                            Ok((t1.clone(), kept))
                        },
                        Tree::Leaf(_) => unreached(),
                    }
                },
            },
        },
    }
}

fn lookup_digits<T: Clone>(ts: &Stack<Digit<T>>, i: usize, Ghost(w): Ghost<nat>) -> (r: Option<T>)
    requires
        faithful::<T>(),
        digits_ok(*ts, w),
    ensures
        r == if i < digits_elems(*ts).len() {
            Some(digits_elems(*ts)[i as int])
        } else {
            None
        },
    decreases ts@.len(),
{
    match ts.as_cell() {
        Cell::Nil => None,
        Cell::Cons(d, rest) => match d {
            Digit::Zero => lookup_digits(rest, i, Ghost(2 * w)),
            Digit::One(t) => {
                if i < t.size() {
                    t.lookup(i)
                } else {
                    lookup_digits(rest, i - t.size(), Ghost(2 * w))
                }
            },
        },
    }
}

fn update_digits<T: Clone>(ts: &Stack<Digit<T>>, i: usize, y: T, Ghost(w): Ghost<nat>) -> (r: Result<
    Stack<Digit<T>>,
    Error,
>)
    requires
        faithful::<T>(),
        digits_ok(*ts, w),
    ensures
        match r {
            Ok(l) => {
                &&& i < digits_elems(*ts).len()
                &&& digits_ok(l, w)
                &&& digits_elems(l) == digits_elems(*ts).update(i as int, y)
                &&& l.cell() is Cons
            },
            Err(e) => i >= digits_elems(*ts).len() && e == Error::InvalidIndex,
        },
    decreases ts@.len(),
{
    match ts.as_cell() {
        Cell::Nil => Err(Error::InvalidIndex),
        Cell::Cons(d, rest) => match d {
            Digit::Zero => match update_digits(rest, i, y, Ghost(2 * w)) {
                Ok(more) => Ok(Stack::cons(Digit::Zero, more)),
                Err(e) => Err(e),
            },
            Digit::One(t) => {
                if i < t.size() {
                    match t.update(i, y) {
                        Ok(tree) => {
                            let l = Stack::cons(Digit::One(tree), rest.clone());
                            Ok(l)
                        },
                        Err(e) => Err(e),
                    }
                } else {
                    match update_digits(rest, i - t.size(), y, Ghost(2 * w)) {
                        Ok(more) => {
                            let l = Stack::cons(Digit::One(t.clone()), more);
                            Ok(l)
                        },
                        Err(e) => Err(e),
                    }
                }
            },
        },
    }
}

impl<T> View for BinaryRandomAccessList<T> {
    type V = Seq<T>;

    closed spec fn view(&self) -> Seq<T> {
        digits_elems(self.0)
    }
}

impl<T> BinaryRandomAccessList<T> {
    #[verifier::type_invariant]
    spec fn wf(&self) -> bool {
        digits_ok(self.0, 1) && digits_elems(self.0).len() <= usize::MAX
    }

    /// The list with no element.
    pub fn empty() -> (l: Self)
        ensures
            l@ == Seq::<T>::empty(),
    {
        BinaryRandomAccessList(Stack::empty())
    }

    /// Whether the list holds no element.
    pub fn is_empty(&self) -> (b: bool)
        ensures
            b == (self@.len() == 0),
    {
        proof {
            use_type_invariant(self);
            if self.0.cell() is Cons {
                lemma_digits_nonempty(self.0, 1);
            }
        }
        self.0.is_empty()
    }

    /// The list with `x` in front of the elements of `xs`.
    pub fn cons(x: T, xs: &Self) -> (l: Self)
        requires
            xs@.len() < usize::MAX,
        ensures
            l@ == seq![x] + xs@,
    {
        proof {
            use_type_invariant(xs);
        }
        BinaryRandomAccessList(cons_tree(ATree::leaf(x), &xs.0, Ghost(1)))
    }

    /// The list without its first element; `None` for the empty list.
    pub fn tail(&self) -> (r: Option<Self>)
        ensures
            match r {
                Some(l) => self@.len() > 0 && l@ == self@.skip(1),
                None => self@.len() == 0,
            },
    {
        proof {
            use_type_invariant(self);
        }
        match uncons_tree(&self.0, Ghost(1)) {
            Ok((t, rest)) => Some(BinaryRandomAccessList(rest)),
            Err(_) => None,
        }
    }
}

impl<T: Clone> BinaryRandomAccessList<T> {
    /// The first element; `None` for the empty list.
    pub fn head(&self) -> (r: Option<T>)
        requires
            faithful::<T>(),
        ensures
            r == if self@.len() == 0 {
                None
            } else {
                Some(self@[0])
            },
    {
        proof {
            use_type_invariant(self);
        }
        match uncons_tree(&self.0, Ghost(1)) {
            Ok((t, _)) => {
                proof {
                    use_type_invariant(&t);
                }
                match &*t.0 {
                    Tree::Leaf(x) => Some(x.clone()),
                    Tree::Node(_, _, _) => unreached(),
                }
            },
            Err(_) => None,
        }
    }

    /// The element at index `i`; `None` where `i` is not below the length.
    pub fn lookup(&self, i: usize) -> (r: Option<T>)
        requires
            faithful::<T>(),
        ensures
            r == if i < self@.len() {
                Some(self@[i as int])
            } else {
                None
            },
    {
        proof {
            use_type_invariant(self);
        }
        lookup_digits(&self.0, i, Ghost(1))
    }

    /// The list with `y` at index `i`; `Error::InvalidIndex` where `i` is not
    /// below the length.
    pub fn update(&self, i: usize, y: T) -> (r: Result<Self, Error>)
        requires
            faithful::<T>(),
        ensures
            match r {
                Ok(l) => i < self@.len() && l@ == self@.update(i as int, y),
                Err(e) => i >= self@.len() && e == Error::InvalidIndex,
            },
    {
        proof {
            use_type_invariant(self);
        }
        match update_digits(&self.0, i, y, Ghost(1)) {
            Ok(l) => Ok(BinaryRandomAccessList(l)),
            Err(e) => Err(e),
        }
    }
}

impl<T: Clone> RandomAceessList<T> for BinaryRandomAccessList<T> {
    open spec fn elems(&self) -> Seq<T> {
        self@
    }

    fn empty() -> (l: Self) {
        BinaryRandomAccessList::empty()
    }

    fn is_empty(&self) -> (b: bool) {
        BinaryRandomAccessList::is_empty(self)
    }

    fn cons(x: T, xs: &Self) -> (l: Self) {
        BinaryRandomAccessList::cons(x, xs)
    }

    fn head(&self) -> (r: Option<T>) {
        BinaryRandomAccessList::head(self)
    }

    fn tail(&self) -> (r: Option<Self>) {
        BinaryRandomAccessList::tail(self)
    }

    fn lookup(&self, idx: usize) -> (r: Option<T>) {
        BinaryRandomAccessList::lookup(self, idx)
    }

    fn update(&self, idx: usize, val: T) -> (r: Result<Self, Error>) {
        BinaryRandomAccessList::update(self, idx, val)
    }
}

} // verus!
