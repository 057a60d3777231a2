use purely_functional_data_structure::error::Error;
use purely_functional_data_structure::lazy::StreamCell;
use purely_functional_data_structure::stack::Stack;

fn list_of(xs: &[i64]) -> Stack<i64> {
    xs.iter().rev().fold(Stack::empty(), |s, &x| Stack::cons(x, s))
}

fn to_vec(mut s: Stack<i64>) -> Vec<i64> {
    let mut out = Vec::new();
    while let Some(x) = s.head() {
        out.push(x);
        s = s.tail().unwrap();
    }
    out
}

#[test]
fn test_empty() {
    let s = Stack::<()>::empty();
    assert!(s.is_empty());
}

#[test]
fn test_cons() {
    let x = 10;
    let s = Stack::<i64>::empty();
    let t = Stack::cons(x, s);

    assert_eq!(x, t.head().unwrap());
    assert!(t.tail().unwrap().is_empty());
}

#[test]
fn test_update() {
    let mut s = Stack::<i64>::empty();
    for x in [10, 20, 30] {
        s = Stack::cons(x, s);
    }

    assert!(s.update(5, 40).is_err());
    assert_eq!(
        s.update(2, 50)
            .unwrap()
            .tail()
            .unwrap()
            .tail()
            .unwrap()
            .head()
            .unwrap(),
        50
    );
}

#[test]
fn update_out_of_range_is_invalid_index() {
    let s = list_of(&[1, 2, 3]);
    assert_eq!(s.update(3, 0).err(), Some(Error::InvalidIndex));
    assert_eq!(Stack::<i64>::empty().update(0, 0).err(), Some(Error::InvalidIndex));
    assert_eq!(to_vec(s.update(0, 9).unwrap()), vec![9, 2, 3]);
    assert_eq!(to_vec(s.update(2, 9).unwrap()), vec![1, 2, 9]);
    assert_eq!(to_vec(s), vec![1, 2, 3]);
}

#[test]
fn list_operations() {
    let s = list_of(&[1, 2, 3, 4]);
    assert_eq!(s.size(), 4);
    assert_eq!(Stack::<i64>::empty().size(), 0);
    assert_eq!(to_vec(s.reverse()), vec![4, 3, 2, 1]);
    assert_eq!(to_vec(s.reverse().reverse()), vec![1, 2, 3, 4]);
    assert_eq!(to_vec(s.take(2)), vec![1, 2]);
    assert_eq!(to_vec(s.take(0)), Vec::<i64>::new());
    assert_eq!(to_vec(s.take(9)), vec![1, 2, 3, 4]);
    assert_eq!(to_vec(s.drop(3)), vec![4]);
    assert_eq!(to_vec(s.drop(0)), vec![1, 2, 3, 4]);
    assert_eq!(to_vec(s.drop(9)), Vec::<i64>::new());
    assert_eq!(to_vec(s.extend(list_of(&[5, 6]))), vec![1, 2, 3, 4, 5, 6]);
    assert_eq!(to_vec(s.map(|x| x * 10)), vec![10, 20, 30, 40]);
    assert!(s.tail().is_some());
    assert!(Stack::<i64>::empty().tail().is_none());
    assert_eq!(Stack::<i64>::empty().head(), None);
}

#[test]
fn suffixes_longest_first() {
    let s = list_of(&[1, 2, 3]);
    let mut all = s.suffixes();
    let mut seen = Vec::new();
    while let Some(suffix) = all.head() {
        seen.push(to_vec(suffix));
        all = all.tail().unwrap();
    }
    assert_eq!(seen, vec![vec![1, 2, 3], vec![2, 3], vec![3], vec![]]);
}

#[test]
fn to_stream_keeps_the_order() {
    let mut s = list_of(&[3, 1, 2]).to_stream();
    let mut out = Vec::new();
    while let StreamCell::Cons(x, rest) = s.force() {
        out.push(x);
        s = rest;
    }
    assert_eq!(out, vec![3, 1, 2]);
}

#[test]
fn errors_say_what_failed() {
    assert_eq!(Error::Empty.message(), "empty");
    assert_eq!(Error::InvalidIndex.message(), "invalid index");
    assert_ne!(Error::Empty, Error::InvalidIndex);
}
