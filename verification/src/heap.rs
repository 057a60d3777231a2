use vstd::multiset::Multiset;
use vstd::prelude::*;
use crate::element::faithful;
use crate::element::is_min;
use crate::element::le;
use crate::element::min_removed;
use crate::element::ordered;
use crate::error::Error;
use crate::stack::Cell;
use crate::stack::Stack;

pub mod binomial_heap;
pub mod lazy_binomial_heap;
pub mod lazy_pairing_heap;
pub mod leftist_heap;
pub mod pairing_heap;
pub mod scheduled_binomial_heap;
pub mod splay_heap;

verus! {

/// A persistent priority queue: the least element is found and removed
/// first.
pub trait Heap<T: Clone + PartialOrd>: Sized + Clone {
    /// The elements, each as often as it was inserted and not yet removed.
    spec fn elems(&self) -> Multiset<T>;

    fn empty() -> (h: Self)
        ensures
            h.elems() == Multiset::<T>::empty(),
    ;

    fn is_empty(&self) -> (b: bool)
        requires
            faithful::<T>(),
            ordered::<T>(),
        ensures
            b == (self.elems().len() == 0),
    ;

    fn insert(&self, val: T) -> (h: Self)
        requires
            faithful::<T>(),
            ordered::<T>(),
            self.elems().len() < usize::MAX,
        ensures
            h.elems() == self.elems().insert(val),
    ;

    fn merge(&self, other: &Self) -> (h: Self)
        requires
            faithful::<T>(),
            ordered::<T>(),
            self.elems().len() + other.elems().len() <= usize::MAX,
        ensures
            h.elems() == self.elems().add(other.elems()),
    ;

    fn find_min(&self) -> (r: Option<T>)
        requires
            faithful::<T>(),
            ordered::<T>(),
        ensures
            match r {
                Some(m) => is_min(m, self.elems()),
                None => self.elems().len() == 0,
            },
    ;

    fn delete_min(&self) -> (r: Result<Self, Error>)
        requires
            faithful::<T>(),
            ordered::<T>(),
        ensures
            match r {
                Ok(h) => min_removed(self.elems(), h.elems()),
                Err(e) => e == Error::Empty && self.elems().len() == 0,
            },
    ;
}

/// Persistence: what a version answers is fixed by its own elements. A least
/// element found in a version `h` is a least element of `h` whatever was
/// inserted into, merged with or removed from `h` to derive other versions;
/// two such answers compare alike.
pub proof fn lemma_heap_persistent<T: Clone + PartialOrd, H: Heap<T>>(h: H, before: T, after: T)
    requires
        is_min(before, h.elems()),
        is_min(after, h.elems()),
    ensures
        le(before, after) && le(after, before),
{
}

/// Heap order: taking least elements out one after the other gives them in
/// ascending order. What is taken out second is not below what was taken out
/// first.
pub proof fn lemma_heap_order<T: Clone + PartialOrd, H: Heap<T>>(h: H, rest: H, m1: T, m2: T)
    requires
        is_min(m1, h.elems()),
        rest.elems() == h.elems().remove(m1),
        is_min(m2, rest.elems()),
    ensures
        le(m1, m2),
{
}

/// The elements of all heaps of a sequence together.
pub open spec fn total<T: Clone + PartialOrd, H: Heap<T>>(s: Seq<H>) -> Multiset<T>
    decreases s.len(),
{
    if s.len() == 0 {
        Multiset::empty()
    } else {
        total(s.drop_last()).add(s.last().elems())
    }
}

/// A heap more at the front adds its elements.
pub proof fn lemma_total_front<T: Clone + PartialOrd, H: Heap<T>>(h: H, s: Seq<H>)
    ensures
        total(seq![h] + s) == h.elems().add(total(s)),
    decreases s.len(),
{
    let all = seq![h] + s;
    if s.len() == 0 {
        assert(all.drop_last() =~= Seq::<H>::empty());
    } else {
        lemma_total_front(h, s.drop_last());
        assert(all.drop_last() =~= seq![h] + s.drop_last());
        assert(total(all) == total(all.drop_last()).add(all.last().elems()));
    }
}

/// One-element heaps, one for each element of a sequence, hold its elements.
pub proof fn lemma_singles<T: Clone + PartialOrd, H: Heap<T>>(xs: Seq<T>, hs: Seq<H>)
    requires
        hs.len() == xs.len(),
        forall|i: int| 0 <= i < xs.len() ==> (#[trigger] hs[i]).elems() == Multiset::<T>::empty().insert(xs[i]),
    ensures
        total(hs) == xs.to_multiset(),
    decreases xs.len(),
{
    if xs.len() == 0 {
        xs.to_multiset_ensures();
    } else {
        lemma_singles::<T, H>(xs.drop_last(), hs.drop_last());
        xs.drop_last().to_multiset_ensures();
        assert(xs.drop_last().push(xs.last()) =~= xs);
        assert(total(hs) =~= xs.to_multiset());
    }
}

/// Merges the heaps of `xs` two by two onto `ys`; when `xs` runs out, goes
/// over `ys` in the same way, until one heap is left.
pub fn tournament<T: Clone + PartialOrd, H: Heap<T>>(xs: Stack<H>, ys: Stack<H>) -> (h: H)
    requires
        faithful::<T>(),
        ordered::<T>(),
        faithful::<H>(),
        total(xs@).len() + total(ys@).len() <= usize::MAX,
    ensures
        h.elems() == total(xs@).add(total(ys@)),
    decreases xs@.len() + ys@.len(),
        (if xs@.len() == 0 {
            1nat
        } else if xs@.len() == 1 && ys@.len() > 0 {
            2nat
        } else {
            0nat
        }),
{
    match xs.as_cell() {
        Cell::Nil => {
            if ys.is_empty() {
                H::empty()
            } else {
                let none = Stack::empty();
                tournament(ys, none)
            }
        },
        Cell::Cons(x1, rest) => match rest.as_cell() {
            Cell::Nil => {
                proof {
                    lemma_total_front(*x1, rest@);
                }
                if ys.is_empty() {
                    x1.clone()
                } else {
                    let more = Stack::cons(x1.clone(), ys);
                    proof {
                        lemma_total_front(*x1, ys@);
                    }
                    tournament(rest.clone(), more)
                }
            },
            Cell::Cons(x2, rest2) => {
                proof {
                    lemma_total_front(*x1, rest@);
                    lemma_total_front(*x2, rest2@);
                }
                let both = x1.merge(x2);
                let more = Stack::cons(both, ys);
                proof {
                    lemma_total_front(both, ys@);
                }
                tournament(rest2.clone(), more)
            },
        },
    }
}

/// The heap of the elements of a list: one-element heaps, merged two by two,
/// pass after pass, until one heap is left; the empty heap for the empty
/// list.
pub fn from_list<T: Clone + PartialOrd, H: Heap<T>>(xs: Stack<T>) -> (h: H)
    requires
        faithful::<T>(),
        ordered::<T>(),
        faithful::<H>(),
        xs@.len() <= usize::MAX,
    ensures
        h.elems() == xs@.to_multiset(),
{
    let single = |x: T| -> (h: H)
        requires
            faithful::<T>(),
            ordered::<T>(),
        ensures
            h.elems() == Multiset::<T>::empty().insert(x)
    {
        H::empty().insert(x)
    };
    let heaps = xs.map(single);
    proof {
        lemma_singles::<T, H>(xs@, heaps@);
        xs@.to_multiset_ensures();
    }
    tournament(heaps, Stack::empty())
}

} // verus!
