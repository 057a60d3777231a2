use vstd::prelude::*;
use crate::deque::Deque;
use crate::element::faithful;
use crate::stack::Stack;

verus! {

/// A double-ended queue of two strict lists with their lengths: when one
/// list runs out, the other is split in two and one half turned over.
pub struct NaiveDeque<T> {
    f: Stack<T>,
    r: Stack<T>,
    lenf: usize,
    lenr: usize,
}

impl<T> View for NaiveDeque<T> {
    type V = Seq<T>;

    closed spec fn view(&self) -> Seq<T> {
        self.f@ + self.r@.reverse()
    }
}

impl<T> Clone for NaiveDeque<T> {
    fn clone(&self) -> (q: Self)
        ensures
            q == *self,
    {
        proof {
            use_type_invariant(self);
        }
        NaiveDeque { f: self.f.clone(), r: self.r.clone(), lenf: self.lenf, lenr: self.lenr }
    }
}

impl<T> NaiveDeque<T> {
    /// A list is empty only where the other holds at most one element.
    #[verifier::type_invariant]
    spec fn wf(&self) -> bool {
        &&& self.lenf == self.f@.len()
        &&& self.lenr == self.r@.len()
        &&& self.lenf + self.lenr < usize::MAX
        &&& self.lenf == 0 ==> self.lenr <= 1
        &&& self.lenr == 0 ==> self.lenf <= 1
    }

    /// The deque with no element.
    pub fn empty() -> (q: Self)
        ensures
            q@ == Seq::<T>::empty(),
    {
        let e = Stack::empty();
        NaiveDeque { f: e.clone(), r: e, lenf: 0, lenr: 0 }
    }

    /// Whether the deque holds no element.
    pub fn is_empty(&self) -> (b: bool)
        ensures
            b == (self@.len() == 0),
    {
        proof {
            use_type_invariant(self);
        }
        self.f.is_empty() && self.r.is_empty()
    }
}

impl<T: Clone> NaiveDeque<T> {
    /// Where one list is empty, gives it half of the other, turned over.
    fn check(f: Stack<T>, r: Stack<T>, lenf: usize, lenr: usize) -> (q: Self)
        requires
            faithful::<T>(),
            lenf == f@.len(),
            lenr == r@.len(),
            lenf + lenr < usize::MAX,
        ensures
            q@ == f@ + r@.reverse(),
    {
        if lenf == 0 {
            let f2 = r.drop(lenr / 2).reverse();
            let r2 = r.take(lenr / 2);
            NaiveDeque { f: f2, r: r2, lenf: (lenr + 1) / 2, lenr: lenr / 2 }
        } else if lenr == 0 {
            let f2 = f.take(lenf / 2);
            let r2 = f.drop(lenf / 2).reverse();
            NaiveDeque { f: f2, r: r2, lenf: lenf / 2, lenr: (lenf + 1) / 2 }
        } else {
            NaiveDeque { f, r, lenf, lenr }
        }
    }

    /// The deque with the new element in front.
    pub fn cons(head: T, tail: &Self) -> (q: Self)
        requires
            faithful::<T>(),
            tail@.len() + 1 < usize::MAX,
        ensures
            q@ == seq![head] + tail@,
    {
        proof {
            use_type_invariant(tail);
        }
        let f = Stack::cons(head, tail.f.clone());
        Self::check(f, tail.r.clone(), tail.lenf + 1, tail.lenr)
    }

    /// The first element; `None` for the empty deque.
    pub fn head(&self) -> (r: Option<T>)
        requires
            faithful::<T>(),
        ensures
            r == if self@.len() == 0 {
                None
            } else {
                Some(self@[0])
            },
    {
        proof {
            use_type_invariant(self);
        }
        if self.f.is_empty() {
            self.r.head()
        } else {
            self.f.head()
        }
    }

    /// The deque without its first element; `None` for the empty deque.
    pub fn tail(&self) -> (r: Option<Self>)
        requires
            faithful::<T>(),
        ensures
            match r {
                Some(q) => self@.len() > 0 && q@ == self@.skip(1),
                None => self@.len() == 0,
            },
    {
        proof {
            use_type_invariant(self);
        }
        match self.f.tail() {
            Some(f) => Some(Self::check(f, self.r.clone(), self.lenf - 1, self.lenr)),
            None => {
                if self.r.is_empty() {
                    None
                } else {
                    Some(Self::empty())
                }
            },
        }
    }

    /// The deque with the new element behind.
    pub fn snoc(init: &Self, last: T) -> (q: Self)
        requires
            faithful::<T>(),
            init@.len() + 1 < usize::MAX,
        ensures
            q@ == init@.push(last),
    {
        proof {
            use_type_invariant(init);
        }
        let r = Stack::cons(last, init.r.clone());
        Self::check(init.f.clone(), r, init.lenf, init.lenr + 1)
    }

    /// The last element; `None` for the empty deque.
    pub fn last(&self) -> (r: Option<T>)
        requires
            faithful::<T>(),
        ensures
            r == if self@.len() == 0 {
                None
            } else {
                Some(self@.last())
            },
    {
        proof {
            use_type_invariant(self);
        }
        if self.r.is_empty() {
            self.f.head()
        } else {
            self.r.head()
        }
    }

    /// The deque without its last element; `None` for the empty deque.
    pub fn init(&self) -> (r: Option<Self>)
        requires
            faithful::<T>(),
        ensures
            match r {
                Some(q) => self@.len() > 0 && q@ == self@.drop_last(),
                None => self@.len() == 0,
            },
    {
        proof {
            use_type_invariant(self);
        }
        match self.r.tail() {
            Some(r) => Some(Self::check(self.f.clone(), r, self.lenf, self.lenr - 1)),
            None => self.tail(),
        }
    }
}

impl<T: Clone> Deque<T> for NaiveDeque<T> {
    open spec fn elems(&self) -> Seq<T> {
        self@
    }

    fn empty() -> (q: Self) {
        NaiveDeque::empty()
    }

    fn is_empty(&self) -> (b: bool) {
        NaiveDeque::is_empty(self)
    }

    fn cons(x: T, xs: &Self) -> (q: Self) {
        NaiveDeque::cons(x, xs)
    }

    fn head(&self) -> (r: Option<T>) {
        NaiveDeque::head(self)
    }

    fn tail(&self) -> (r: Option<Self>) {
        NaiveDeque::tail(self)
    }

    fn snoc(&self, x: T) -> (q: Self) {
        NaiveDeque::snoc(self, x)
    }

    fn last(&self) -> (r: Option<T>) {
        NaiveDeque::last(self)
    }

    fn init(&self) -> (r: Option<Self>) {
        NaiveDeque::init(self)
    }
}

} // verus!
