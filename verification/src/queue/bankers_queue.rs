use vstd::prelude::*;
use crate::element::faithful;
use crate::lazy::Stream;
use crate::queue::Queue;

verus! {

/// A queue of two lazy sequences: whenever the back grows longer than the
/// front, its reversal is appended to the front as one suspended step.
pub struct BankersQueue<T> {
    lenf: usize,
    f: Stream<T>,
    lenr: usize,
    r: Stream<T>,
}

impl<T> View for BankersQueue<T> {
    type V = Seq<T>;

    closed spec fn view(&self) -> Seq<T> {
        self.f@ + self.r@.reverse()
    }
}

impl<T> Clone for BankersQueue<T> {
    fn clone(&self) -> (q: Self)
        ensures
            q == *self,
    {
        proof {
            use_type_invariant(self);
        }
        BankersQueue { lenf: self.lenf, f: self.f.clone(), lenr: self.lenr, r: self.r.clone() }
    }
}

impl<T> BankersQueue<T> {
    /// The back is never longer than the front.
    #[verifier::type_invariant]
    spec fn wf(&self) -> bool {
        &&& self.lenf == self.f@.len()
        &&& self.lenr == self.r@.len()
        &&& self.lenr <= self.lenf
        &&& self.lenf + self.lenr <= usize::MAX
    }

    /// The queue with no element.
    pub fn empty() -> (q: Self)
        ensures
            q@ == Seq::<T>::empty(),
    {
        let f = Stream::empty();
        let r = Stream::empty();
        BankersQueue { lenf: 0, f, lenr: 0, r }
    }

    /// Whether the queue holds no element.
    pub fn is_empty(&self) -> (b: bool)
        ensures
            b == (self@.len() == 0),
    {
        proof {
            use_type_invariant(self);
        }
        self.lenf == 0
    }
}

impl<T: Clone + 'static> BankersQueue<T> {
    /// Moves the back behind the front where it has grown longer.
    fn check(lenf: usize, f: Stream<T>, lenr: usize, r: Stream<T>) -> (q: Self)
        requires
            lenf == f@.len(),
            lenr == r@.len(),
            lenr <= lenf + 1,
            lenf + lenr <= usize::MAX,
        ensures
            q@ == f@ + r@.reverse(),
    {
        if lenr <= lenf {
            BankersQueue { lenf, f, lenr, r }
        } else {
            let f2 = f.extend(&r.reverse());
            let r2 = Stream::empty();
            BankersQueue { lenf: lenf + lenr, f: f2, lenr: 0, r: r2 }
        }
    }

    /// The queue with `x` behind its elements.
    pub fn snoc(&self, x: T) -> (q: Self)
        requires
            self@.len() < usize::MAX,
        ensures
            q@ == self@.push(x),
    {
        proof {
            use_type_invariant(self);
        }
        let r = Stream::prepend(x, self.r.clone());
        Self::check(self.lenf, self.f.clone(), self.lenr + 1, r)
    }

    /// The element that leaves next; `None` for the empty queue.
    pub fn head(&self) -> (r: Option<T>)
        requires
            faithful::<T>(),
        ensures
            r == if self@.len() == 0 {
                None
            } else {
                Some(self@[0])
            },
    {
        proof {
            use_type_invariant(self);
        }
        self.f.head().force()
    }

    /// The queue without its first element; `None` for the empty queue.
    pub fn tail(&self) -> (r: Option<Self>)
        ensures
            match r {
                Some(q) => self@.len() > 0 && q@ == self@.skip(1),
                None => self@.len() == 0,
            },
    {
        proof {
            use_type_invariant(self);
        }
        if self.lenf == 0 {
            return None;
        }
        let f = self.f.tail();
        Some(Self::check(self.lenf - 1, f, self.lenr, self.r.clone()))
    }
}

impl<T: Clone + 'static> Queue<T> for BankersQueue<T> {
    open spec fn elems(&self) -> Seq<T> {
        self@
    }

    fn empty() -> (q: Self) {
        BankersQueue::empty()
    }

    fn is_empty(&self) -> (b: bool) {
        BankersQueue::is_empty(self)
    }

    fn snoc(&self, x: T) -> (q: Self) {
        BankersQueue::snoc(self, x)
    }

    fn head(&self) -> (r: Option<T>) {
        BankersQueue::head(self)
    }

    fn tail(&self) -> (r: Option<Self>) {
        BankersQueue::tail(self)
    }
}

} // verus!
