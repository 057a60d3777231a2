use purely_functional_data_structure::lazy::Lazy;
use purely_functional_data_structure::lazy::Stream;
use purely_functional_data_structure::lazy::StreamCell;
use std::cell::Cell;
use std::rc::Rc;

fn stream_of(xs: &[i32]) -> Stream<i32> {
    xs.iter()
        .rev()
        .fold(Stream::empty(), |xs, &x| Stream::cons(Lazy::new(move || (x, xs))))
}

fn collect(mut s: Stream<i32>) -> Vec<i32> {
    let mut out = Vec::new();
    while let StreamCell::Cons(x, rest) = s.force() {
        out.push(x);
        s = rest;
    }
    out
}

#[test]
fn test_extend() {
    let xs = Stream::cons(Lazy::new(move || {
        (0, Stream::cons(Lazy::new(move || (2, Stream::empty()))))
    }));
    let ys = Stream::cons(Lazy::new(move || {
        (3, Stream::cons(Lazy::new(move || (1, Stream::empty()))))
    }));

    let zs = xs.extend(&ys);

    assert_eq!(zs.head().force(), Some(0));
    let zs = zs.tail();
    assert_eq!(zs.head().force(), Some(2));
    let zs = zs.tail();
    assert_eq!(zs.head().force(), Some(3));
    let zs = zs.tail();
    assert_eq!(zs.head().force(), Some(1));
    let zs = zs.tail();
    assert!(zs.is_empty().force());
}

#[test]
fn test_take() {
    let xs = [0, 2, 3, 1];
    let xs = xs
        .into_iter()
        .rev()
        .fold(Stream::empty(), |xs, x| Stream::cons(Lazy::new(move || (x, xs))));

    let zs = xs.take(2);
    assert_eq!(zs.head().force(), Some(0));
    let zs = zs.tail();
    assert_eq!(zs.head().force(), Some(2));
    let zs = zs.tail();
    assert!(zs.is_empty().force());
}

#[test]
fn test_drop() {
    let xs = [0, 2, 3, 1];
    let xs = xs
        .into_iter()
        .rev()
        .fold(Stream::empty(), |xs, x| Stream::cons(Lazy::new(move || (x, xs))));

    let zs = xs.drop(2);
    assert_eq!(zs.head().force(), Some(3));
    let zs = zs.tail();
    assert_eq!(zs.head().force(), Some(1));
    let zs = zs.tail();
    assert!(zs.is_empty().force());
}

#[test]
fn suspension_runs_once() {
    let runs = Rc::new(Cell::new(0u32));
    let seen = runs.clone();
    let l = Lazy::new(move || {
        seen.set(seen.get() + 1);
        41 + 1
    });
    assert_eq!(runs.get(), 0);
    let m = l.clone();
    assert_eq!(l.force(), 42);
    assert_eq!(m.force(), 42);
    assert_eq!(l.force(), 42);
    assert_eq!(*m.shared(), 42);
    assert_eq!(runs.get(), 1);
}

#[test]
fn reverse_twice_is_the_sequence() {
    for xs in [vec![], vec![7], vec![1, 2], vec![5, 4, 3, 2, 1, 0, 9]] {
        let s = stream_of(&xs);
        let once = s.reverse();
        let mut back = xs.clone();
        back.reverse();
        assert_eq!(collect(once.clone()), back);
        assert_eq!(collect(once.reverse()), xs);
        assert_eq!(collect(s), xs);
    }
}

#[test]
fn take_and_drop_beyond_the_end() {
    let s = stream_of(&[1, 2, 3]);
    assert_eq!(collect(s.take(0)), Vec::<i32>::new());
    assert_eq!(collect(s.take(3)), vec![1, 2, 3]);
    assert_eq!(collect(s.take(10)), vec![1, 2, 3]);
    assert_eq!(collect(s.drop(0)), vec![1, 2, 3]);
    assert_eq!(collect(s.drop(1)), vec![2, 3]);
    assert_eq!(collect(s.drop(3)), Vec::<i32>::new());
    assert_eq!(collect(s.drop(10)), Vec::<i32>::new());
    assert_eq!(collect(s.take(2).extend(&s.drop(2))), vec![1, 2, 3]);
}

#[test]
fn empty_stream() {
    let e = Stream::<i32>::empty();
    assert!(e.is_empty().force());
    assert_eq!(e.head().force(), None);
    assert!(matches!(e.force(), StreamCell::Nil));
    assert_eq!(collect(e.reverse()), Vec::<i32>::new());
    assert_eq!(collect(e.extend(&e)), Vec::<i32>::new());
}

#[test]
fn prepend_and_tail() {
    let s = Stream::prepend(1, Stream::prepend(2, Stream::empty()));
    assert_eq!(collect(s.clone()), vec![1, 2]);
    assert_eq!(collect(s.tail()), vec![2]);
    assert_eq!(collect(s.tail().tail()), Vec::<i32>::new());
    // Forcing a clone leaves the same cells to the other handle.
    let t = s.clone();
    assert_eq!(collect(t.extend(&s)), vec![1, 2, 1, 2]);
    assert_eq!(collect(s), vec![1, 2]);
}
