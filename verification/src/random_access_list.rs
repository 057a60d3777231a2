use vstd::prelude::*;
use crate::element::faithful;
use crate::error::Error;

pub mod binary_random_access_list;
pub mod skew_binary_random_access_list;

verus! {

/// A persistent list that also finds and replaces the element at an index.
pub trait RandomAceessList<T: Clone>: Sized {
    /// The elements, first to last.
    spec fn elems(&self) -> Seq<T>;

    fn empty() -> (l: Self)
        ensures
            l.elems() == Seq::<T>::empty(),
    ;

    fn is_empty(&self) -> (b: bool)
        ensures
            b == (self.elems().len() == 0),
    ;

    fn cons(x: T, xs: &Self) -> (l: Self)
        requires
            faithful::<T>(),
            xs.elems().len() < usize::MAX,
        ensures
            l.elems() == seq![x] + xs.elems(),
    ;

    fn head(&self) -> (r: Option<T>)
        requires
            faithful::<T>(),
        ensures
            r == if self.elems().len() == 0 {
                None
            } else {
                Some(self.elems()[0])
            },
    ;

    fn tail(&self) -> (r: Option<Self>)
        requires
            faithful::<T>(),
        ensures
            match r {
                Some(l) => self.elems().len() > 0 && l.elems() == self.elems().skip(1),
                None => self.elems().len() == 0,
            },
    ;

    fn lookup(&self, idx: usize) -> (r: Option<T>)
        requires
            faithful::<T>(),
        ensures
            r == if idx < self.elems().len() {
                Some(self.elems()[idx as int])
            } else {
                None
            },
    ;

    fn update(&self, idx: usize, val: T) -> (r: Result<Self, Error>)
        requires
            faithful::<T>(),
        ensures
            match r {
                Ok(l) => idx < self.elems().len() && l.elems() == self.elems().update(
                    idx as int,
                    val,
                ),
                Err(e) => idx >= self.elems().len() && e == Error::InvalidIndex,
            },
    ;
}

} // verus!
