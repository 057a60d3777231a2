use vstd::multiset::Multiset;
use vstd::prelude::*;
use vstd::std_specs::cmp::PartialOrdIs;
use vstd::std_specs::cmp::PartialOrdSpec;

verus! {

/// Whether cloning a `T` always gives back a value equal to the one cloned.
///
/// The collections of this crate hand out and keep copies of their elements by
/// `clone`; their contracts speak of the elements themselves, so they ask for
/// an element type whose `clone` is faithful.
pub open spec fn faithful<T: Clone>() -> bool {
    forall|a: T, b: T| #[trigger] call_ensures(T::clone, (&a,), b) ==> a == b
}

/// `a <= b`, as the comparison operators of `T` decide it.
pub open spec fn le<T: PartialOrd>(a: T, b: T) -> bool {
    a.is_le(&b)
}

/// `a < b`, as the comparison operators of `T` decide it.
pub open spec fn lt<T: PartialOrd>(a: T, b: T) -> bool {
    a.is_lt(&b)
}

/// Whether neither of `a` and `b` is below the other.
pub open spec fn alike<T: PartialOrd>(a: T, b: T) -> bool {
    le(a, b) && le(b, a)
}

/// Whether the comparison operators of `T` make a total preorder: any two
/// values compare, `<=` is transitive, and `<` is `<=` the other way round,
/// negated. The heaps and search trees of this crate ask for such an element
/// type.
pub open spec fn ordered<T: PartialOrd>() -> bool {
    &&& T::obeys_partial_cmp_spec()
    &&& forall|a: T, b: T| #[trigger] le(a, b) || le(b, a)
    &&& forall|a: T, b: T, c: T| #[trigger] le(a, b) && #[trigger] le(b, c) ==> le(a, c)
    &&& forall|a: T, b: T| #[trigger] lt(a, b) <==> !le(b, a)
}

/// Whether the comparison operators of `T` make a total order: a total
/// preorder in which only equal values compare alike. The finite map of this
/// crate asks for such a key type.
pub open spec fn linear<T: PartialOrd>() -> bool {
    &&& ordered::<T>()
    &&& forall|a: T, b: T| #[trigger] alike(a, b) ==> a == b
}

/// `<` is transitive, also where one of the two steps is `<=`.
pub proof fn lemma_lt_trans<T: PartialOrd>(a: T, b: T, c: T)
    requires
        ordered::<T>(),
    ensures
        lt(a, b) && lt(b, c) ==> lt(a, c),
        lt(a, b) && le(b, c) ==> lt(a, c),
        le(a, b) && lt(b, c) ==> lt(a, c),
        lt(a, b) ==> le(a, b),
{
}

/// Whether `m` is in `s` and nothing in `s` is below it.
pub open spec fn is_min<T: PartialOrd>(m: T, s: Multiset<T>) -> bool {
    &&& s.contains(m)
    &&& forall|y: T| s.contains(y) ==> le(m, y)
}

/// Whether `after` is `before` without one of its least elements.
pub open spec fn min_removed<T: PartialOrd>(before: Multiset<T>, after: Multiset<T>) -> bool {
    exists|m: T| is_min(m, before) && after == before.remove(m)
}

/// Whether `a` is below `b`.
pub fn less<T: PartialOrd>(a: &T, b: &T) -> (r: bool)
    requires
        ordered::<T>(),
    ensures
        r == lt(*a, *b),
{
    *a < *b
}

/// Whether `a` is not above `b`.
pub fn at_most<T: PartialOrd>(a: &T, b: &T) -> (r: bool)
    requires
        ordered::<T>(),
    ensures
        r == le(*a, *b),
{
    *a <= *b
}

} // verus!
