use vstd::prelude::*;
use std::sync::Arc;
use crate::element::faithful;
use crate::error::Error;
use crate::lazy::Op;
use crate::lazy::Stream;

verus! {

/// A persistent singly linked list: every version shares its tail with the
/// versions it was derived from.
pub struct Stack<T>(pub Arc<Cell<T>>);

/// A cell of a list: the end, or an element and the rest of the list.
pub enum Cell<T> {
    Nil,
    Cons(T, Stack<T>),
}

impl<T> View for Stack<T> {
    type V = Seq<T>;

    open spec fn view(&self) -> Seq<T> {
        self.cell().elems()
    }
}

impl<T> Cell<T> {
    /// The elements of the list that starts at this cell, first to last.
    pub open spec fn elems(self) -> Seq<T>
        decreases self,
    {
        match self {
            Cell::Nil => Seq::empty(),
            Cell::Cons(x, xs) => seq![x] + xs.cell().elems(),
        }
    }
}

impl<T> Clone for Stack<T> {
    fn clone(&self) -> (r: Self)
        ensures
            r == *self,
    {
        Stack(self.0.clone())
    }
}

impl<T> Stack<T> {
    /// The first cell of the list.
    pub open spec fn cell(self) -> Cell<T> {
        *self.0
    }

    /// The first cell, to match on.
    pub fn as_cell(&self) -> (c: &Cell<T>)
        ensures
            *c == self.cell(),
    {
        &*self.0
    }

    /// The list with no element.
    pub fn empty() -> (r: Self)
        ensures
            r@ == Seq::<T>::empty(),
            r.cell() is Nil,
    {
        Stack(Arc::new(Cell::Nil))
    }

    /// Whether the list holds no element.
    pub fn is_empty(&self) -> (r: bool)
        ensures
            r == (self@.len() == 0),
    {
        matches!(&*self.0, Cell::Nil)
    }

    /// The list with `head` in front of `tail`, which is shared.
    pub fn cons(head: T, tail: Self) -> (r: Self)
        ensures
            r@ == seq![head] + tail@,
            r.cell() == Cell::Cons(head, tail),
    {
        Stack(Arc::new(Cell::Cons(head, tail)))
    }

    /// The list without its first element, shared with `self`; `None` for the
    /// empty list.
    pub fn tail(&self) -> (r: Option<Self>)
        ensures
            match r {
                Some(t) => self.cell() matches Cell::Cons(_, xs) && t == xs && t@ == self@.skip(1),
                None => self@.len() == 0,
            },
    {
        match &*self.0 {
            Cell::Nil => None,
            Cell::Cons(_, xs) => Some(xs.clone()),
        }
    }

    /// All suffixes of the list, longest first, the empty one last.
    pub fn suffixes(&self) -> (r: Stack<Self>)
        ensures
            r@.len() == self@.len() + 1,
            forall|i: int| 0 <= i <= self@.len() ==> (#[trigger] r@[i])@ == self@.skip(i),
        decreases self@.len(),
    {
        match &*self.0 {
            Cell::Nil => Stack::cons(Self::empty(), Stack::empty()),
            Cell::Cons(_, tail) => {
                let rest = tail.suffixes();
                Stack::cons(self.clone(), rest)
            },
        }
    }

    /// What is left after the first `n` elements, shared with `self`; nothing
    /// where there are fewer.
    pub fn drop(&self, n: usize) -> (r: Self)
        ensures
            r@ == self@.skip(if n <= self@.len() { n as int } else { self@.len() as int }),
        decreases self@.len(),
    {
        if n == 0 {
            return self.clone();
        }
        match &*self.0 {
            Cell::Nil => Self::empty(),
            Cell::Cons(_, xs) => xs.drop(n - 1),
        }
    }

    /// The number of elements.
    pub fn size(&self) -> (r: usize)
        requires
            self@.len() <= usize::MAX,
        ensures
            r == self@.len(),
    {
        let mut n: usize = 0;
        let mut xs = self.clone();
        loop
            invariant
                self@.len() <= usize::MAX,
                n + xs@.len() == self@.len(),
            decreases xs@.len(),
        {
            let next = match xs.tail() {
                None => {
                    return n;
                },
                Some(t) => t,
            };
            n = n + 1;
            xs = next;
        }
    }
}

impl<T: Clone> Stack<T> {
    /// The first element; `None` for the empty list.
    pub fn head(&self) -> (r: Option<T>)
        requires
            faithful::<T>(),
        ensures
            r == if self@.len() == 0 { None } else { Some(self@[0]) },
    {
        match &*self.0 {
            Cell::Nil => None,
            Cell::Cons(x, _) => Some(x.clone()),
        }
    }

    /// The list with the element at `idx` replaced by `new`; the cells behind
    /// `idx` are shared with `self`.
    pub fn update(&self, idx: usize, new: T) -> (r: Result<Self, Error>)
        requires
            faithful::<T>(),
        ensures
            match r {
                Ok(s) => idx < self@.len() && s@ == self@.update(idx as int, new),
                Err(e) => idx >= self@.len() && e == Error::InvalidIndex,
            },
        decreases self@.len(),
    {
        match &*self.0 {
            Cell::Nil => Err(Error::InvalidIndex),
            Cell::Cons(head, tail) => {
                if idx == 0 {
                    let s = Self::cons(new, tail.clone());
                    Ok(s)
                } else {
                    match tail.update(idx - 1, new) {
                        Ok(rest) => {
                            let s = Self::cons(head.clone(), rest);
                            Ok(s)
                        },
                        Err(e) => Err(e),
                    }
                }
            },
        }
    }

    /// The elements of `self`, then `other`, which is shared.
    pub fn extend(&self, other: Self) -> (r: Self)
        requires
            faithful::<T>(),
        ensures
            r@ == self@ + other@,
        decreases self@.len(),
    {
        match &*self.0 {
            Cell::Nil => other,
            Cell::Cons(x, xs) => Self::cons(x.clone(), xs.extend(other)),
        }
    }

    /// The list of what `f` gives for each element, in the same order.
    pub fn map<U: Clone, F: Fn(T) -> U>(&self, f: F) -> (r: Stack<U>)
        requires
            faithful::<T>(),
            forall|i: int| 0 <= i < self@.len() ==> call_requires(f, (#[trigger] self@[i],)),
        ensures
            r@.len() == self@.len(),
            forall|i: int| 0 <= i < self@.len() ==> call_ensures(f, (self@[i],), #[trigger] r@[i]),
        decreases self@.len(),
    {
        match &*self.0 {
            Cell::Nil => Stack::empty(),
            Cell::Cons(x, xs) => {
                assert(self@[0] == *x);
                assert forall|i: int| 0 <= i < xs@.len() implies call_requires(
                    f,
                    (#[trigger] xs@[i],),
                ) by {
                    assert(xs@[i] == self@[i + 1]);
                }
                let y = f(x.clone());
                let rest = xs.map(f);
                Stack::cons(y, rest)
            },
        }
    }

    /// The elements in the opposite order.
    pub fn reverse(&self) -> (r: Self)
        requires
            faithful::<T>(),
        ensures
            r@ == self@.reverse(),
    {
        self.reverse_rec(Self::empty())
    }

    fn reverse_rec(&self, dest: Self) -> (r: Self)
        requires
            faithful::<T>(),
        ensures
            r@ == self@.reverse() + dest@,
        decreases self@.len(),
    {
        match &*self.0 {
            Cell::Nil => dest,
            Cell::Cons(x, xs) => xs.reverse_rec(Self::cons(x.clone(), dest)),
        }
    }

    /// The first `n` elements, or all of them where there are fewer.
    pub fn take(&self, n: usize) -> (r: Self)
        requires
            faithful::<T>(),
        ensures
            r@ == self@.take(if n <= self@.len() { n as int } else { self@.len() as int }),
        decreases self@.len(),
    {
        if n == 0 {
            return Self::empty();
        }
        match &*self.0 {
            Cell::Nil => Self::empty(),
            Cell::Cons(x, xs) => Self::cons(x.clone(), xs.take(n - 1)),
        }
    }

    /// The same elements as a lazy sequence; a cell of it is built when it is
    /// forced.
    pub fn to_stream(&self) -> (s: Stream<T>)
        requires
            faithful::<T>(),
        ensures
            s@ == self@,
            s.rank() == self@.len(),
    {
        match &*self.0 {
            Cell::Nil => Stream::empty(),
            Cell::Cons(x, xs) => Stream::suspend(
                Op::FromList(x.clone(), xs.clone()),
                Ghost(self@),
                Ghost(self@.len()),
            ),
        }
    }
}

} // verus!
