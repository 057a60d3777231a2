use vstd::prelude::*;
use crate::element::faithful;
use crate::lazy::Lazy;
use crate::queue::Queue;
use crate::stack::Stack;

verus! {

/// A queue whose front is a suspended strict list: `w` is a forced prefix of
/// it that `head` can read at once, and a back that has outgrown the front is
/// appended to it, reversed, as one suspended step.
#[verifier::reject_recursive_types(T)]
pub struct PhysicistsQueue<T> {
    w: Stack<T>,
    lenf: usize,
    f: Lazy<Stack<T>>,
    lenr: usize,
    r: Stack<T>,
    front: Ghost<Seq<T>>,
}

impl<T> View for PhysicistsQueue<T> {
    type V = Seq<T>;

    closed spec fn view(&self) -> Seq<T> {
        self.front@ + self.r@.reverse()
    }
}

impl<T> PhysicistsQueue<T> {
    /// Whether a working copy, a suspended front and a back list go together.
    spec fn fit(w: Stack<T>, lenf: usize, f: Lazy<Stack<T>>, lenr: usize, r: Stack<T>, front: Seq<T>) -> bool {
        &&& lenf == front.len()
        &&& lenr == r@.len()
        &&& lenf + lenr <= usize::MAX
        &&& forall|l: Stack<T>| f.yields(l) ==> l@ == front
        &&& w@.len() <= front.len()
        &&& w@ == front.take(w@.len() as int)
    }

    /// The working copy is a prefix of the front, empty only where the front
    /// is, and the back is never longer than the front.
    #[verifier::type_invariant]
    spec fn wf(&self) -> bool {
        &&& Self::fit(self.w, self.lenf, self.f, self.lenr, self.r, self.front@)
        &&& self.lenr <= self.lenf
        &&& self.w@.len() == 0 ==> self.lenf == 0
    }
}

impl<T: Clone + 'static> PhysicistsQueue<T> {
    /// The queue with no element.
    pub fn empty() -> (q: Self)
        ensures
            q@ == Seq::<T>::empty(),
    {
        let w = Stack::empty();
        let r = Stack::empty();
        let nothing = || -> (l: Stack<T>)
            ensures
                l@ == Seq::<T>::empty()
        {
            Stack::empty()
        };
        let f = Lazy::new(nothing);
        let ghost front = Seq::<T>::empty();
        assert(w@ =~= front.take(0));
        PhysicistsQueue { w, lenf: 0, f, lenr: 0, r, front: Ghost(front) }
    }

    /// Whether the queue holds no element.
    pub fn is_empty(&self) -> (b: bool)
        ensures
            b == (self@.len() == 0),
    {
        proof {
            use_type_invariant(self);
        }
        self.lenf == 0
    }

    /// Forces the front where the working copy has run out.
    fn checkw(w: Stack<T>, lenf: usize, f: Lazy<Stack<T>>, lenr: usize, r: Stack<T>, Ghost(front): Ghost<Seq<T>>) -> (q: Self)
        requires
            faithful::<T>(),
            Self::fit(w, lenf, f, lenr, r, front),
            lenr <= lenf,
        ensures
            q@ == front + r@.reverse(),
    {
        if w.is_empty() {
            let w2 = f.force();
            assert(w2@ =~= front.take(w2@.len() as int));
            PhysicistsQueue { w: w2, lenf, f, lenr, r, front: Ghost(front) }
        } else {
            PhysicistsQueue { w, lenf, f, lenr, r, front: Ghost(front) }
        }
    }

    /// Moves the back behind the front where it has grown longer.
    fn check(w: Stack<T>, lenf: usize, f: Lazy<Stack<T>>, lenr: usize, r: Stack<T>, Ghost(front): Ghost<Seq<T>>) -> (q: Self)
        requires
            faithful::<T>(),
            Self::fit(w, lenf, f, lenr, r, front),
            lenr <= lenf + 1,
        ensures
            q@ == front + r@.reverse(),
    {
        if lenr <= lenf {
            Self::checkw(w, lenf, f, lenr, r, Ghost(front))
        } else {
            let fp = f.force();
            let w2 = fp.clone();
            let ghost front2 = front + r@.reverse();
            let append = move || -> (l: Stack<T>)
                ensures
                    l@ == front2
            {
                fp.extend(r.reverse())
            };
            let f2 = Lazy::new(append);
            let r2 = Stack::empty();
            proof {
                assert(w2@ =~= front2.take(w2@.len() as int));
            }
            Self::checkw(w2, lenf + lenr, f2, 0, r2, Ghost(front2))
        }
    }

    /// The queue with `x` behind its elements.
    pub fn snoc(&self, x: T) -> (q: Self)
        requires
            faithful::<T>(),
            self@.len() < usize::MAX,
        ensures
            q@ == self@.push(x),
    {
        proof {
            use_type_invariant(self);
        }
        let r = Stack::cons(x, self.r.clone());
        Self::check(self.w.clone(), self.lenf, self.f.clone(), self.lenr + 1, r, self.front)
    }

    /// The element that leaves next; `None` for the empty queue.
    pub fn head(&self) -> (r: Option<T>)
        requires
            faithful::<T>(),
        ensures
            r == if self@.len() == 0 {
                None
            } else {
                Some(self@[0])
            },
    {
        proof {
            use_type_invariant(self);
        }
        self.w.head()
    }

    /// The queue without the element that leaves next; `None` for the empty
    /// queue.
    pub fn tail(&self) -> (r: Option<Self>)
        requires
            faithful::<T>(),
        ensures
            match r {
                Some(q) => self@.len() > 0 && q@ == self@.skip(1),
                None => self@.len() == 0,
            },
    {
        proof {
            use_type_invariant(self);
        }
        let w = match self.w.tail() {
            None => {
                return None;
            },
            Some(w) => w,
        };
        let f = self.f.clone();
        let ghost front = self.front@.skip(1);
        let rest = move || -> (l: Stack<T>)
            ensures
                l@ == front
        {
            f.force().tail().unwrap()
        };
        let f2 = Lazy::new(rest);
        proof {
            assert(w@ =~= front.take(w@.len() as int));
        }
        Some(Self::check(w, self.lenf - 1, f2, self.lenr, self.r.clone(), Ghost(front)))
    }
}

impl<T: Clone + 'static> Queue<T> for PhysicistsQueue<T> {
    open spec fn elems(&self) -> Seq<T> {
        self@
    }

    fn empty() -> (q: Self) {
        PhysicistsQueue::empty()
    }

    fn is_empty(&self) -> (b: bool) {
        PhysicistsQueue::is_empty(self)
    }

    fn snoc(&self, x: T) -> (q: Self) {
        PhysicistsQueue::snoc(self, x)
    }

    fn head(&self) -> (r: Option<T>) {
        PhysicistsQueue::head(self)
    }

    fn tail(&self) -> (r: Option<Self>) {
        PhysicistsQueue::tail(self)
    }
}

} // verus!
