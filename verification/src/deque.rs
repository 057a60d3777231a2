use vstd::prelude::*;
use crate::element::faithful;

pub mod bankers_deque;
pub mod native_deque;
pub mod real_time_deque;

verus! {

/// A persistent double-ended queue.
pub trait Deque<T: Clone>: Sized {
    /// The elements, front to back.
    spec fn elems(&self) -> Seq<T>;

    fn empty() -> (q: Self)
        ensures
            q.elems() == Seq::<T>::empty(),
    ;

    fn is_empty(&self) -> (b: bool)
        requires
            faithful::<T>(),
        ensures
            b == (self.elems().len() == 0),
    ;

    fn cons(x: T, xs: &Self) -> (q: Self)
        requires
            faithful::<T>(),
            2 * xs.elems().len() + 3 <= usize::MAX,
        ensures
            q.elems() == seq![x] + xs.elems(),
    ;

    fn head(&self) -> (r: Option<T>)
        requires
            faithful::<T>(),
        ensures
            r == if self.elems().len() == 0 {
                None
            } else {
                Some(self.elems()[0])
            },
    ;

    fn tail(&self) -> (r: Option<Self>)
        requires
            faithful::<T>(),
        ensures
            match r {
                Some(q) => self.elems().len() > 0 && q.elems() == self.elems().skip(1),
                None => self.elems().len() == 0,
            },
    ;

    fn snoc(&self, x: T) -> (q: Self)
        requires
            faithful::<T>(),
            2 * self.elems().len() + 3 <= usize::MAX,
        ensures
            q.elems() == self.elems().push(x),
    ;

    fn last(&self) -> (r: Option<T>)
        requires
            faithful::<T>(),
        ensures
            r == if self.elems().len() == 0 {
                None
            } else {
                Some(self.elems().last())
            },
    ;

    fn init(&self) -> (r: Option<Self>)
        requires
            faithful::<T>(),
        ensures
            match r {
                Some(q) => self.elems().len() > 0 && q.elems() == self.elems().drop_last(),
                None => self.elems().len() == 0,
            },
    ;
}

/// Persistence: what a version answers is fixed by its own elements. Two
/// `head`s of a version `q` agree, and so do two `last`s, whatever versions
/// were derived from `q` between the two calls.
pub proof fn lemma_deque_persistent<T: Clone, Q: Deque<T>>(
    q: Q,
    head_before: Option<T>,
    head_after: Option<T>,
    last_before: Option<T>,
    last_after: Option<T>,
)
    requires
        q.elems().len() > 0,
        head_before == Some(q.elems()[0]),
        head_after == Some(q.elems()[0]),
        last_before == Some(q.elems().last()),
        last_after == Some(q.elems().last()),
    ensures
        head_before == head_after,
        last_before == last_after,
{
}

/// The two ends do not disturb each other: what `cons` puts in front is what
/// `tail` takes away, what `snoc` puts behind is what `init` takes away, and
/// putting in front and behind can be done in either order.
pub proof fn lemma_deque_ends<T>(s: Seq<T>, x: T, y: T)
    ensures
        (seq![x] + s).skip(1) == s,
        s.push(y).drop_last() == s,
        (seq![x] + s).push(y) == seq![x] + s.push(y),
        (seq![x] + s)[0] == x,
        s.push(y).last() == y,
{
    assert((seq![x] + s).skip(1) =~= s);
    assert(s.push(y).drop_last() =~= s);
    assert((seq![x] + s).push(y) =~= seq![x] + s.push(y));
}

/// Moving what lies behind the first `i` elements of the front to the end of
/// the back, reversed, keeps the elements of the deque.
pub proof fn lemma_split_front<T>(f: Seq<T>, r: Seq<T>, i: int)
    requires
        0 <= i <= f.len(),
    ensures
        f.take(i) + (r + f.skip(i).reverse()).reverse() == f + r.reverse(),
{
    assert((r + f.skip(i).reverse()).reverse() =~= f.skip(i) + r.reverse());
    assert(f.take(i) + (f.skip(i) + r.reverse()) =~= f + r.reverse());
}

/// Moving what lies behind the first `j` elements of the back to the end of
/// the front, reversed, keeps the elements of the deque.
pub proof fn lemma_split_back<T>(f: Seq<T>, r: Seq<T>, j: int)
    requires
        0 <= j <= r.len(),
    ensures
        (f + r.skip(j).reverse()) + r.take(j).reverse() == f + r.reverse(),
{
    assert(r.skip(j).reverse() + r.take(j).reverse() =~= r.reverse());
    assert((f + r.skip(j).reverse()) + r.take(j).reverse() =~= f + (r.skip(j).reverse()
        + r.take(j).reverse()));
}

} // verus!
