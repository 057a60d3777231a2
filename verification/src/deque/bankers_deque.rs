use vstd::prelude::*;
use crate::deque::lemma_split_back;
use crate::deque::lemma_split_front;
use crate::deque::Deque;
use crate::element::faithful;
use crate::lazy::Stream;
use crate::lazy::StreamCell;

verus! {

/// A double-ended queue of two lazy sequences, neither more than about twice
/// as long as the other: a side that has grown beyond that hands its far half
/// to the other side, reversed, as one suspended step.
pub struct BankersDeque<T> {
    lenf: usize,
    f: Stream<T>,
    lenr: usize,
    r: Stream<T>,
}

impl<T> View for BankersDeque<T> {
    type V = Seq<T>;

    closed spec fn view(&self) -> Seq<T> {
        self.f@ + self.r@.reverse()
    }
}

impl<T> Clone for BankersDeque<T> {
    fn clone(&self) -> (q: Self)
        ensures
            q == *self,
    {
        proof {
            use_type_invariant(self);
        }
        BankersDeque { lenf: self.lenf, f: self.f.clone(), lenr: self.lenr, r: self.r.clone() }
    }
}

impl<T> BankersDeque<T> {
    #[verifier::type_invariant]
    spec fn wf(&self) -> bool {
        &&& self.lenf == self.f@.len()
        &&& self.lenr == self.r@.len()
        &&& self.lenf <= 2 * self.lenr + 1
        &&& self.lenr <= 2 * self.lenf + 1
        &&& 2 * (self.lenf + self.lenr) + 1 <= usize::MAX
    }

    /// The deque with no element.
    pub fn empty() -> (q: Self)
        ensures
            q@ == Seq::<T>::empty(),
    {
        let f = Stream::empty();
        let r = Stream::empty();
        assert(f@ + r@.reverse() =~= Seq::<T>::empty());
        BankersDeque { lenf: 0, f, lenr: 0, r }
    }

    /// Whether the deque holds no element.
    pub fn is_empty(&self) -> (b: bool)
        ensures
            b == (self@.len() == 0),
    {
        proof {
            use_type_invariant(self);
        }
        self.lenf + self.lenr == 0
    }

}

impl<T: Clone + 'static> BankersDeque<T> {
    /// Where one side is longer than twice the other and one, splits the
    /// elements evenly again, the longer side handing its far half to the
    /// other, reversed; else hands the two sides on as they came.
    fn check(lenf: usize, f: Stream<T>, lenr: usize, r: Stream<T>) -> (q: Self)
        requires
            lenf == f@.len(),
            lenr == r@.len(),
            2 * (lenf + lenr) + 1 <= usize::MAX,
        ensures
            q@ == f@ + r@.reverse(),
            q.lenf == q.f@.len(),
            q.lenr == q.r@.len(),
            q.lenf + q.lenr == lenf + lenr,
            q.lenf <= 2 * q.lenr + 1,
            q.lenr <= 2 * q.lenf + 1,
            if lenf > 2 * lenr + 1 {
                &&& q.lenf == (lenf + lenr) / 2
                &&& q.f@ == f@.take(q.lenf as int)
                &&& q.r@ == r@ + f@.skip(q.lenf as int).reverse()
            } else if lenr > 2 * lenf + 1 {
                &&& q.lenr == (lenf + lenr) / 2
                &&& q.f@ == f@ + r@.skip(q.lenr as int).reverse()
                &&& q.r@ == r@.take(q.lenr as int)
            } else {
                &&& q.lenf == lenf
                &&& q.f == f
                &&& q.lenr == lenr
                &&& q.r == r
            },
    {
        let c: usize = 2;
        if lenf > c * lenr + 1 {
            let i = (lenf + lenr) / 2;
            let j = lenf + lenr - i;
            let f2 = f.take(i);
            let r2 = r.extend(&f.drop(i).reverse());
            proof {
                lemma_split_front(f@, r@, i as int);
            }
            BankersDeque { lenf: i, f: f2, lenr: j, r: r2 }
        } else if lenr > c * lenf + 1 {
            let j = (lenf + lenr) / 2;
            let i = lenf + lenr - j;
            let r2 = r.take(j);
            let f2 = f.extend(&r.drop(j).reverse());
            proof {
                lemma_split_back(f@, r@, j as int);
            }
            BankersDeque { lenf: i, f: f2, lenr: j, r: r2 }
        } else {
            BankersDeque { lenf, f, lenr, r }
        }
    }

    /// The deque with the new element in front.
    pub fn cons(x: T, xs: &Self) -> (q: Self)
        requires
            2 * xs@.len() + 3 <= usize::MAX,
        ensures
            q@ == seq![x] + xs@,
    {
        proof {
            use_type_invariant(xs);
        }
        let f = Stream::prepend(x, xs.f.clone());
        assert(f@ + xs.r@.reverse() =~= seq![x] + (xs.f@ + xs.r@.reverse()));
        Self::check(xs.lenf + 1, f, xs.lenr, xs.r.clone())
    }

    /// The deque with the new element behind.
    pub fn snoc(&self, x: T) -> (q: Self)
        requires
            2 * self@.len() + 3 <= usize::MAX,
        ensures
            q@ == self@.push(x),
    {
        proof {
            use_type_invariant(self);
        }
        let r = Stream::prepend(x, self.r.clone());
        assert(self.f@ + r@.reverse() =~= (self.f@ + self.r@.reverse()).push(x));
        Self::check(self.lenf, self.f.clone(), self.lenr + 1, r)
    }

    /// The first element; `None` for the empty deque.
    pub fn head(&self) -> (r: Option<T>)
        requires
            faithful::<T>(),
        ensures
            r == if self@.len() == 0 {
                None
            } else {
                Some(self@[0])
            },
    {
        proof {
            use_type_invariant(self);
        }
        let back = self.r.force();
        match self.f.force() {
            StreamCell::Cons(x, _) => Some(x),
            StreamCell::Nil => match back {
                StreamCell::Nil => None,
                StreamCell::Cons(x, _) => Some(x),
            },
        }
    }

    /// The deque without its first element; `None` for the empty deque.
    pub fn tail(&self) -> (r: Option<Self>)
        requires
            faithful::<T>(),
        ensures
            match r {
                Some(q) => self@.len() > 0 && q@ == self@.skip(1),
                None => self@.len() == 0,
            },
    {
        proof {
            use_type_invariant(self);
        }
        let back = self.r.force();
        match self.f.force() {
            StreamCell::Cons(_, f) => {
                assert(f@ + self.r@.reverse() =~= self@.skip(1));
                Some(Self::check(self.lenf - 1, f, self.lenr, self.r.clone()))
            },
            StreamCell::Nil => match back {
                StreamCell::Nil => None,
                StreamCell::Cons(_, _) => {
                    assert(self@.skip(1) =~= Seq::<T>::empty());
                    Some(Self::empty())
                },
            },
        }
    }

    /// The last element; `None` for the empty deque.
    pub fn last(&self) -> (r: Option<T>)
        requires
            faithful::<T>(),
        ensures
            r == if self@.len() == 0 {
                None
            } else {
                Some(self@.last())
            },
    {
        proof {
            use_type_invariant(self);
        }
        let front = self.f.force();
        match self.r.force() {
            StreamCell::Cons(x, _) => Some(x),
            StreamCell::Nil => match front {
                StreamCell::Nil => None,
                StreamCell::Cons(x, _) => Some(x),
            },
        }
    }

    /// The deque without its last element; `None` for the empty deque.
    pub fn init(&self) -> (r: Option<Self>)
        requires
            faithful::<T>(),
        ensures
            match r {
                Some(q) => self@.len() > 0 && q@ == self@.drop_last(),
                None => self@.len() == 0,
            },
    {
        proof {
            use_type_invariant(self);
        }
        let front = self.f.force();
        match self.r.force() {
            StreamCell::Cons(_, r) => {
                assert(self.f@ + r@.reverse() =~= self@.drop_last());
                Some(Self::check(self.lenf, self.f.clone(), self.lenr - 1, r))
            },
            StreamCell::Nil => match front {
                StreamCell::Nil => None,
                StreamCell::Cons(_, _) => {
                    assert(self@.drop_last() =~= Seq::<T>::empty());
                    Some(Self::empty())
                },
            },
        }
    }
}

impl<T: Clone + 'static> Deque<T> for BankersDeque<T> {
    open spec fn elems(&self) -> Seq<T> {
        self@
    }

    fn empty() -> (q: Self) {
        BankersDeque::empty()
    }

    fn is_empty(&self) -> (b: bool) {
        BankersDeque::is_empty(self)
    }

    fn cons(x: T, xs: &Self) -> (q: Self) {
        BankersDeque::cons(x, xs)
    }

    fn head(&self) -> (r: Option<T>) {
        BankersDeque::head(self)
    }

    fn tail(&self) -> (r: Option<Self>) {
        BankersDeque::tail(self)
    }

    fn snoc(&self, x: T) -> (q: Self) {
        BankersDeque::snoc(self, x)
    }

    fn last(&self) -> (r: Option<T>) {
        BankersDeque::last(self)
    }

    fn init(&self) -> (r: Option<Self>) {
        BankersDeque::init(self)
    }
}

} // verus!
