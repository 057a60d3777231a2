use vstd::multiset::Multiset;
use vstd::prelude::*;
use vstd::rwlock::RwLock;
use vstd::rwlock::RwLockPredicate;
use std::sync::Arc;
use crate::element::at_most;
use crate::element::faithful;
use crate::element::is_min;
use crate::element::le;
use crate::element::min_removed;
use crate::element::ordered;
use crate::error::Error;
use crate::heap::Heap;
use crate::stack::Stack;
use crate::lazy::Memo;

verus! {

/// A pairing heap that merges its subtrees in pairs as they arrive: a root
/// with at most one subtree that waits for its partner, and a suspended heap
/// of the pairs merged so far.
#[verifier::reject_recursive_types(T)]
pub struct LazyPairingHeap<T: PartialOrd>(Arc<Tree<T>>);

#[verifier::reject_recursive_types(T)]
enum Tree<T: PartialOrd> {
    Empty,
    Node(T, LazyPairingHeap<T>, Pairs<T>),
}

/// What a suspended heap has put off.
#[verifier::reject_recursive_types(T)]
enum Pending<T: PartialOrd> {
    /// The empty heap.
    Nothing,
    /// The two heaps merged, and the result merged with what the suspension
    /// gives.
    Merge(LazyPairingHeap<T>, LazyPairingHeap<T>, Pairs<T>),
}

#[verifier::reject_recursive_types(T)]
struct PairsInv<T> {
    bag: Multiset<T>,
    rank: nat,
}

/// A suspended heap: a memo cell that holds the merge to do, or its result.
#[verifier::reject_recursive_types(T)]
struct Pairs<T: PartialOrd> {
    cell: Arc<RwLock<Memo<Pending<T>, LazyPairingHeap<T>>, PairsInv<T>>>,
    bag: Ghost<Multiset<T>>,
    rank: Ghost<nat>,
}

impl<T: PartialOrd> View for LazyPairingHeap<T> {
    type V = Multiset<T>;

    closed spec fn view(&self) -> Multiset<T>
        decreases self,
    {
        match *self.0 {
            Tree::Empty => Multiset::empty(),
            Tree::Node(x, a, m) => a@.add(m.bag@).insert(x),
        }
    }
}

impl<T: PartialOrd> RwLockPredicate<Memo<Pending<T>, LazyPairingHeap<T>>> for PairsInv<T> {
    closed spec fn inv(self, v: Memo<Pending<T>, LazyPairingHeap<T>>) -> bool {
        match v {
            Memo::Pending(p) => match p {
                Pending::Nothing => self.bag == Multiset::<T>::empty(),
                Pending::Merge(a, b, m) => self.bag == a@.add(b@).add(m.bag@) && m.rank@
                    < self.rank,
            },
            Memo::Forced(h) => h@ == self.bag,
        }
    }
}

impl<T: PartialOrd> Clone for LazyPairingHeap<T> {
    fn clone(&self) -> (h: Self)
        ensures
            h == *self,
    {
        proof {
            use_type_invariant(self);
        }
        LazyPairingHeap(self.0.clone())
    }
}

impl<T: PartialOrd> Clone for Pairs<T> {
    fn clone(&self) -> (r: Self)
        ensures
            r == *self,
    {
        proof {
            use_type_invariant(self);
        }
        Pairs { cell: self.cell.clone(), bag: self.bag, rank: self.rank }
    }
}

impl<T: PartialOrd> Pairs<T> {
    #[verifier::type_invariant]
    spec fn wf(&self) -> bool {
        self.cell.pred() == (PairsInv { bag: self.bag@, rank: self.rank@ })
    }

    /// The suspension of the empty heap.
    fn nothing() -> (r: Self)
        ensures
            r.bag@ == Multiset::<T>::empty(),
    {
        let ghost inv = PairsInv { bag: Multiset::<T>::empty(), rank: 0 };
        Pairs {
            cell: Arc::new(RwLock::new(Memo::Pending(Pending::Nothing), Ghost(inv))),
            bag: Ghost(Multiset::empty()),
            rank: Ghost(0),
        }
    }

    /// The suspension of `a` merged with `b`, merged with what `m` gives.
    fn later(a: LazyPairingHeap<T>, b: LazyPairingHeap<T>, m: Pairs<T>) -> (r: Self)
        ensures
            r.bag@ == a@.add(b@).add(m.bag@),
    {
        let ghost bag = a@.add(b@).add(m.bag@);
        let ghost rank = m.rank@ + 1;
        let ghost inv = PairsInv { bag, rank };
        Pairs {
            cell: Arc::new(RwLock::new(Memo::Pending(Pending::Merge(a, b, m)), Ghost(inv))),
            bag: Ghost(bag),
            rank: Ghost(rank),
        }
    }
}

impl<T: PartialOrd> LazyPairingHeap<T> {
    /// The root is not above anything below it.
    #[verifier::type_invariant]
    spec fn wf(&self) -> bool {
        match *self.0 {
            Tree::Empty => true,
            Tree::Node(x, a, m) => forall|y: T| a@.contains(y) || m.bag@.contains(y) ==> le(x, y),
        }
    }

    /// The elements are the root, those of the subtree and those of the
    /// suspended heap.
    proof fn lemma_view(&self)
        ensures
            self@ == (match *self.0 {
                Tree::Empty => Multiset::empty(),
                Tree::Node(x, a, m) => a@.add(m.bag@).insert(x),
            }),
    {
    }

    /// The heap with no element.
    pub fn empty() -> (h: Self)
        ensures
            h@ == Multiset::<T>::empty(),
    {
        LazyPairingHeap(Arc::new(Tree::Empty))
    }

    /// Whether the heap holds no element.
    pub fn is_empty(&self) -> (b: bool)
        ensures
            b == (self@.len() == 0),
    {
        proof {
            self.lemma_view();
        }
        match &*self.0 {
            Tree::Empty => true,
            Tree::Node(x, _, _) => false,
        }
    }

    fn node(x: T, a: Self, m: Pairs<T>) -> (h: Self)
        requires
            forall|y: T| a@.contains(y) || m.bag@.contains(y) ==> le(x, y),
        ensures
            h@ == a@.add(m.bag@).insert(x),
    {
        let tree = Arc::new(Tree::Node(x, a, m));
        LazyPairingHeap(tree)
    }
}

impl<T: Clone + PartialOrd + 'static> Pairs<T> {
    /// The suspended heap; a merge that was put off is done by the first
    /// call and kept.
    fn force(&self) -> (h: LazyPairingHeap<T>)
        requires
            faithful::<T>(),
            ordered::<T>(),
        ensures
            h@ == self.bag@,
        decreases self.rank@,
    {
        proof {
            use_type_invariant(self);
        }
        let (st, handle) = self.cell.acquire_write();
        let h = match st {
            Memo::Pending(p) => match p {
                Pending::Nothing => LazyPairingHeap::empty(),
                Pending::Merge(a, b, m) => {
                    let rest = m.force();
                    a.merge(&b).merge(&rest)
                },
            },
            Memo::Forced(h) => h,
        };
        let r = h.clone();
        handle.release_write(Memo::Forced(h));
        r
    }
}

/// `a` put under the root of `b`, which is not above the root of `a`: as the
/// subtree that waits where there is none, else merged with the one that
/// waits into the suspended heap.
fn link<T: Clone + PartialOrd + 'static>(b: &LazyPairingHeap<T>, a: &LazyPairingHeap<T>) -> (h: LazyPairingHeap<T>)
    requires
        faithful::<T>(),
        ordered::<T>(),
        b@.len() > 0,
        forall|x: T| is_min(x, b@) ==> (forall|y: T| a@.contains(y) ==> le(x, y)),
    ensures
        h@ == b@.add(a@),
{
    proof {
        use_type_invariant(b);
        b.lemma_view();
    }
    let a = a.clone();
    match &*b.0 {
        Tree::Node(x, waiting, m) => {
            proof {
                assert(is_min(*x, b@));
            }
            if waiting.is_empty() {
                LazyPairingHeap::node(x.clone(), a, m.clone())
            } else {
                let pairs = Pairs::later(a, waiting.clone(), m.clone());
                LazyPairingHeap::node(x.clone(), LazyPairingHeap::empty(), pairs)
            }
        },
        Tree::Empty => unreached(),
    }
}

impl<T: Clone + PartialOrd + 'static> LazyPairingHeap<T> {
    /// The heap of the elements of both heaps.
    pub fn merge(&self, other: &Self) -> (h: Self)
        requires
            faithful::<T>(),
            ordered::<T>(),
        ensures
            h@ == self@.add(other@),
    {
        proof {
            use_type_invariant(self);
            use_type_invariant(other);
            self.lemma_view();
            other.lemma_view();
        }
        match &*self.0 {
            Tree::Empty => other.clone(),
            Tree::Node(x, a1, m1) => match &*other.0 {
                Tree::Empty => self.clone(),
                Tree::Node(y, a2, m2) => {
                    if at_most(x, y) {
                        proof {
                            assert forall|m: T| is_min(m, self@) implies (forall|z: T|
                                other@.contains(z) ==> le(m, z)) by {
                                assert forall|z: T| other@.contains(z) implies le(m, z) by {
                                    if z != *y {
                                        assert(le(*x, *y) && le(*y, z));
                                    }
                                    assert(le(m, *x) && le(*x, z));
                                }
                            }
                        }
                        link(self, other)
                    } else {
                        proof {
                            assert forall|m: T| is_min(m, other@) implies (forall|z: T|
                                self@.contains(z) ==> le(m, z)) by {
                                assert forall|z: T| self@.contains(z) implies le(m, z) by {
                                    if z != *x {
                                        assert(le(*y, *x) && le(*x, z));
                                    }
                                    assert(le(m, *y) && le(*y, z));
                                }
                            }
                        }
                        link(other, self)
                    }
                },
            },
        }
    }

    /// The heap with `x` once more.
    pub fn insert(&self, x: T) -> (h: Self)
        requires
            faithful::<T>(),
            ordered::<T>(),
        ensures
            h@ == self@.insert(x),
    {
        let one = Self::node(x, Self::empty(), Pairs::nothing());
        one.merge(self)
    }

    /// A least element; `None` for the empty heap.
    pub fn find_min(&self) -> (r: Option<T>)
        requires
            faithful::<T>(),
            ordered::<T>(),
        ensures
            match r {
                Some(m) => is_min(m, self@),
                None => self@.len() == 0,
            },
    {
        proof {
            use_type_invariant(self);
            self.lemma_view();
        }
        match &*self.0 {
            Tree::Empty => None,
            Tree::Node(x, a, m) => Some(x.clone()),
        }
    }

    /// The heap without one of its least elements; `Error::Empty` for the empty
    /// heap.
    pub fn delete_min(&self) -> (r: Result<Self, Error>)
        requires
            faithful::<T>(),
            ordered::<T>(),
        ensures
            match r {
                Ok(h) => min_removed(self@, h@),
                Err(e) => e == Error::Empty && self@.len() == 0,
            },
    {
        proof {
            use_type_invariant(self);
        }
        match &*self.0 {
            Tree::Empty => Err(Error::Empty),
            Tree::Node(x, a, m) => {
                let h = a.merge(&m.force());
                proof {
                    assert(is_min(*x, self@) && h@ == self@.remove(*x));
                }
                Ok(h)
            },
        }
    }
}

impl<T: Clone + PartialOrd + 'static> LazyPairingHeap<T> {
    /// The heap of the elements of a list.
    pub fn from_list(xs: Stack<T>) -> (h: Self)
        requires
            faithful::<T>(),
            ordered::<T>(),
            xs@.len() <= usize::MAX,
        ensures
            h@ == xs@.to_multiset(),
    {
        crate::heap::from_list(xs)
    }
}

impl<T: Clone + PartialOrd + 'static> Heap<T> for LazyPairingHeap<T> {
    open spec fn elems(&self) -> Multiset<T> {
        self@
    }

    fn empty() -> (h: Self) {
        LazyPairingHeap::empty()
    }

    fn is_empty(&self) -> (b: bool) {
        LazyPairingHeap::is_empty(self)
    }

    fn insert(&self, val: T) -> (h: Self) {
        LazyPairingHeap::insert(self, val)
    }

    fn merge(&self, other: &Self) -> (h: Self) {
        LazyPairingHeap::merge(self, other)
    }

    fn find_min(&self) -> (r: Option<T>) {
        LazyPairingHeap::find_min(self)
    }

    fn delete_min(&self) -> (r: Result<Self, Error>) {
        LazyPairingHeap::delete_min(self)
    }
}

} // verus!
