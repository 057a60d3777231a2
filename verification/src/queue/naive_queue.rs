use vstd::prelude::*;
use crate::element::faithful;
use crate::queue::Queue;
use crate::stack::Stack;

verus! {

/// A queue of two strict lists: elements leave from the front list and arrive
/// on the back list, which is turned over whenever the front runs out.
pub struct BatchedQueue<T> {
    f: Stack<T>,
    r: Stack<T>,
}

impl<T> View for BatchedQueue<T> {
    type V = Seq<T>;

    closed spec fn view(&self) -> Seq<T> {
        self.f@ + self.r@.reverse()
    }
}

impl<T> Clone for BatchedQueue<T> {
    fn clone(&self) -> (q: Self)
        ensures
            q == *self,
    {
        proof {
            use_type_invariant(self);
        }
        BatchedQueue { f: self.f.clone(), r: self.r.clone() }
    }
}

impl<T> BatchedQueue<T> {
    /// The front is empty only where the whole queue is.
    #[verifier::type_invariant]
    spec fn wf(&self) -> bool {
        self.f@.len() == 0 ==> self.r@.len() == 0
    }

    /// The queue with no element.
    pub fn empty() -> (q: Self)
        ensures
            q@ == Seq::<T>::empty(),
    {
        let e = Stack::empty();
        BatchedQueue { f: e.clone(), r: e }
    }

    /// Whether the queue holds no element.
    pub fn is_empty(&self) -> (b: bool)
        ensures
            b == (self@.len() == 0),
    {
        proof {
            use_type_invariant(self);
        }
        self.f.is_empty()
    }
}

impl<T: Clone> BatchedQueue<T> {
    /// Turns the back over into the front where the front is empty.
    fn checkf(f: Stack<T>, r: Stack<T>) -> (q: Self)
        requires
            faithful::<T>(),
        ensures
            q@ == f@ + r@.reverse(),
    {
        if f.is_empty() {
            let f2 = r.reverse();
            let r2 = Stack::empty();
            BatchedQueue { f: f2, r: r2 }
        } else {
            BatchedQueue { f, r }
        }
    }

    /// The queue with `x` behind its elements.
    pub fn snoc(&self, x: T) -> (q: Self)
        requires
            faithful::<T>(),
        ensures
            q@ == self@.push(x),
    {
        let r = Stack::cons(x, self.r.clone());
        Self::checkf(self.f.clone(), r)
    }

    /// The element that leaves next; `None` for the empty queue.
    pub fn head(&self) -> (r: Option<T>)
        requires
            faithful::<T>(),
        ensures
            r == if self@.len() == 0 {
                None
            } else {
                Some(self@[0])
            },
    {
        proof {
            use_type_invariant(self);
        }
        self.f.head()
    }

    /// The queue without the element that leaves next; `None` for the empty
    /// queue.
    pub fn tail(&self) -> (r: Option<Self>)
        requires
            faithful::<T>(),
        ensures
            match r {
                Some(q) => self@.len() > 0 && q@ == self@.skip(1),
                None => self@.len() == 0,
            },
    {
        proof {
            use_type_invariant(self);
        }
        match self.f.tail() {
            None => None,
            Some(f) => Some(Self::checkf(f, self.r.clone())),
        }
    }
}

impl<T: Clone> Queue<T> for BatchedQueue<T> {
    open spec fn elems(&self) -> Seq<T> {
        self@
    }

    fn empty() -> (q: Self) {
        BatchedQueue::empty()
    }

    fn is_empty(&self) -> (b: bool) {
        BatchedQueue::is_empty(self)
    }

    fn snoc(&self, x: T) -> (q: Self) {
        BatchedQueue::snoc(self, x)
    }

    fn head(&self) -> (r: Option<T>) {
        BatchedQueue::head(self)
    }

    fn tail(&self) -> (r: Option<Self>) {
        BatchedQueue::tail(self)
    }
}

} // verus!
