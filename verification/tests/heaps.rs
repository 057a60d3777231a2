use purely_functional_data_structure::error::Error;
use purely_functional_data_structure::heap::from_list;
use purely_functional_data_structure::heap::binomial_heap::BinomialHeap;
use purely_functional_data_structure::heap::lazy_binomial_heap::LazyBinomialHeap;
use purely_functional_data_structure::heap::lazy_pairing_heap::LazyPairingHeap;
use purely_functional_data_structure::heap::leftist_heap::LeftistHeap;
use purely_functional_data_structure::heap::pairing_heap::PairingHeap;
use purely_functional_data_structure::heap::scheduled_binomial_heap::ScheduledBinomialHeap;
use purely_functional_data_structure::heap::splay_heap::SplayHeap;
use purely_functional_data_structure::heap::Heap;
use purely_functional_data_structure::List;

#[test]
fn binomial_heap_test_heap() {
    let h = BinomialHeap::empty();
    let h = h.insert(10);
    let h = h.insert(0);
    let h = h.insert(20);

    assert_eq!(h.find_min(), Some(0));
    let h = h.delete_min().unwrap();
    assert_eq!(h.find_min(), Some(10));
}

#[test]
fn lazy_binomial_heap_test_heap() {
    let h = LazyBinomialHeap::empty();
    let h = h.insert(10);
    let h = h.insert(0);
    let h = h.insert(20);

    assert_eq!(h.find_min(), Some(0));
    let h = h.delete_min().unwrap();
    assert_eq!(h.find_min(), Some(10));
}

#[test]
fn lazy_pairing_heap_test() {
    let h = [3, 1, 4, 0, 2]
        .into_iter()
        .fold(LazyPairingHeap::empty(), |h, x| h.insert(x));

    assert_eq!(h.find_min(), Some(0));
    let h = h.delete_min().unwrap();
    assert_eq!(h.find_min(), Some(1));
    let h = h.delete_min().unwrap();
    assert_eq!(h.find_min(), Some(2));
    let h = h.delete_min().unwrap();
    assert_eq!(h.find_min(), Some(3));
    let h = h.delete_min().unwrap();
    assert_eq!(h.find_min(), Some(4));
    let h = h.delete_min().unwrap();
    assert!(h.find_min().is_none());
}

#[test]
fn leftist_heap_test_heap() {
    let h = LeftistHeap::empty();
    let h = h.insert(10);
    let h = h.insert(0);
    let h = h.insert(20);

    assert_eq!(h.find_min(), Some(0));
    let h = h.delete_min().unwrap();
    assert_eq!(h.find_min(), Some(10));
}

#[test]
fn test_heap_insert2() {
    let h = LeftistHeap::empty();
    let h = h.insert2(10);
    let h = h.insert2(0);
    let h = h.insert2(20);

    assert_eq!(h.find_min(), Some(0));
    let h = h.delete_min().unwrap();
    assert_eq!(h.find_min(), Some(10));
}

#[test]
fn test_from_list() {
    let xs = [1, 3, 2, 4];
    let mut l = List::empty();
    for &x in &xs {
        l = List::cons(x, l);
    }
    let h: LeftistHeap<_> = LeftistHeap::from_list(l);
    assert_eq!(h.find_min(), Some(1));
    let h = h.delete_min().unwrap();
    assert_eq!(h.find_min(), Some(2));
    let h = h.delete_min().unwrap();
    assert_eq!(h.find_min(), Some(3));
    let h = h.delete_min().unwrap();
    assert_eq!(h.find_min(), Some(4));
}

#[test]
fn pairing_heap_test() {
    let h = [3, 1, 4, 0, 2]
        .into_iter()
        .fold(PairingHeap::empty(), |h, x| h.insert(x));

    assert_eq!(h.find_min(), Some(0));
    let h = h.delete_min().unwrap();
    assert_eq!(h.find_min(), Some(1));
    let h = h.delete_min().unwrap();
    assert_eq!(h.find_min(), Some(2));
    let h = h.delete_min().unwrap();
    assert_eq!(h.find_min(), Some(3));
    let h = h.delete_min().unwrap();
    assert_eq!(h.find_min(), Some(4));
    let h = h.delete_min().unwrap();
    assert!(h.find_min().is_none());
}

#[test]
fn scheduled_binomial_heap_test() {
    let h = [3, 1, 4, 0, 2]
        .into_iter()
        .fold(ScheduledBinomialHeap::empty(), |h, x| h.insert(x));

    assert_eq!(h.find_min(), Some(0));
    let h = h.delete_min().unwrap();
    assert_eq!(h.find_min(), Some(1));
    let h = h.delete_min().unwrap();
    assert_eq!(h.find_min(), Some(2));
    let h = h.delete_min().unwrap();
    assert_eq!(h.find_min(), Some(3));
    let h = h.delete_min().unwrap();
    assert_eq!(h.find_min(), Some(4));
    let h = h.delete_min().unwrap();
    assert!(h.find_min().is_none());
}

#[test]
fn splay_heap_test() {
    let h = [3, 1, 4, 0, 2]
        .into_iter()
        .fold(SplayHeap::empty(), |h, x| h.insert(x));

    assert_eq!(h.find_min(), Some(0));
    let h = h.delete_min().unwrap();
    assert_eq!(h.find_min(), Some(1));
    let h = h.delete_min().unwrap();
    assert_eq!(h.find_min(), Some(2));
    let h = h.delete_min().unwrap();
    assert_eq!(h.find_min(), Some(3));
    let h = h.delete_min().unwrap();
    assert_eq!(h.find_min(), Some(4));
    let h = h.delete_min().unwrap();
    assert!(h.find_min().is_none());
}

fn drain<H: Heap<u32>>(mut h: H) -> Vec<u32> {
    let mut out = Vec::new();
    while let Some(x) = h.find_min() {
        assert!(!h.is_empty());
        out.push(x);
        h = h.delete_min().unwrap();
    }
    assert!(h.is_empty());
    assert_eq!(h.delete_min().err(), Some(Error::Empty));
    out
}

fn scrambled(n: u32) -> Vec<u32> {
    // A fixed permutation of 0..n with repeats added: every third value twice.
    let mut xs: Vec<u32> = (0..n).map(|i| (i * 37 + 11) % n).collect();
    let twice: Vec<u32> = xs.iter().copied().filter(|x| x % 3 == 0).collect();
    xs.extend(twice);
    xs
}

fn sorted(mut xs: Vec<u32>) -> Vec<u32> {
    xs.sort();
    xs
}

fn heap_laws<H: Heap<u32>>() {
    // The empty heap.
    let e = H::empty();
    assert!(e.is_empty());
    assert_eq!(e.find_min(), None);
    assert_eq!(e.delete_min().err(), Some(Error::Empty));

    // Elements come out in order, each as often as it went in.
    let xs = scrambled(101);
    let h = xs.iter().fold(H::empty(), |h, &x| h.insert(x));
    assert_eq!(drain(h.clone()), sorted(xs.clone()));

    // An earlier version is untouched by what was derived from it.
    let less = h.delete_min().unwrap().delete_min().unwrap();
    let more = h.insert(0).insert(1000);
    assert_eq!(h.find_min(), Some(0));
    assert_eq!(drain(h.clone()), sorted(xs.clone()));
    assert_eq!(drain(less).len(), xs.len() - 2);
    assert_eq!(drain(more).len(), xs.len() + 2);

    // Merging keeps the elements of both sides, also where a side is empty.
    let ys: Vec<u32> = vec![5, 500, 50, 5];
    let g = ys.iter().fold(H::empty(), |g, &y| g.insert(y));
    let mut both = xs.clone();
    both.extend(ys.clone());
    assert_eq!(drain(h.merge(&g)), sorted(both.clone()));
    assert_eq!(drain(g.merge(&h)), sorted(both));
    assert_eq!(drain(H::empty().merge(&g)), sorted(ys.clone()));
    assert_eq!(drain(g.merge(&H::empty())), sorted(ys.clone()));
    assert!(H::empty().merge(&H::empty()).is_empty());

    // Removing the least of a small heap whose least sits in a tree of one.
    let small = H::empty().insert(2).insert(3).insert(1);
    assert_eq!(drain(small.delete_min().unwrap()), vec![2, 3]);

    // A heap from a list.
    let mut l = List::empty();
    for &x in &xs {
        l = List::cons(x, l);
    }
    let from: H = from_list(l);
    assert_eq!(drain(from), sorted(xs));
    let none: H = from_list(List::empty());
    assert!(none.is_empty());
    let one: H = from_list(List::cons(7, List::empty()));
    assert_eq!(drain(one), vec![7]);
}

#[test]
fn binomial_heap_laws() {
    heap_laws::<BinomialHeap<u32>>();
}

#[test]
fn lazy_binomial_heap_laws() {
    heap_laws::<LazyBinomialHeap<u32>>();
}

#[test]
fn lazy_pairing_heap_laws() {
    heap_laws::<LazyPairingHeap<u32>>();
}

#[test]
fn leftist_heap_laws() {
    heap_laws::<LeftistHeap<u32>>();
}

#[test]
fn pairing_heap_laws() {
    heap_laws::<PairingHeap<u32>>();
}

#[test]
fn scheduled_binomial_heap_laws() {
    heap_laws::<ScheduledBinomialHeap<u32>>();
}

#[test]
fn splay_heap_laws() {
    heap_laws::<SplayHeap<u32>>();
}

#[test]
fn scheduled_binomial_heap_empty_is_refused() {
    let h = [3, 1, 4, 0, 2]
        .into_iter()
        .fold(ScheduledBinomialHeap::empty(), |h, x| h.insert(x));
    let mut h = h;
    for want in 0..5 {
        assert_eq!(h.find_min(), Some(want));
        h = h.delete_min().unwrap();
    }
    assert!(h.find_min().is_none());
    assert_eq!(h.delete_min().err(), Some(Error::Empty));
    assert!(h.is_empty());
}

#[test]
fn leftist_heap_insert2_keeps_order() {
    let xs = scrambled(64);
    let h = xs.iter().fold(LeftistHeap::empty(), |h, &x| h.insert2(x));
    assert_eq!(drain(h), sorted(xs));
}

#[test]
fn scheduled_binomial_heap_long_run() {
    let n = 5_000u32;
    let mut h = ScheduledBinomialHeap::empty();
    for i in 0..n {
        h = h.insert((i * 7919) % n);
    }
    for i in 0..n {
        assert_eq!(h.find_min(), Some(i));
        h = h.delete_min().unwrap();
    }
    assert!(h.is_empty());
}

fn list_of(xs: &[u32]) -> List<u32> {
    xs.iter().rev().fold(List::empty(), |l, &x| List::cons(x, l))
}

#[test]
fn every_heap_builds_from_a_list() {
    let xs = [9u32, 4, 7, 4, 1, 8, 2];
    let want = sorted(xs.to_vec());
    assert_eq!(drain(BinomialHeap::from_list(list_of(&xs))), want);
    assert_eq!(drain(LazyBinomialHeap::from_list(list_of(&xs))), want);
    assert_eq!(drain(LazyPairingHeap::from_list(list_of(&xs))), want);
    assert_eq!(drain(LeftistHeap::from_list(list_of(&xs))), want);
    assert_eq!(drain(PairingHeap::from_list(list_of(&xs))), want);
    assert_eq!(drain(ScheduledBinomialHeap::from_list(list_of(&xs))), want);
    assert_eq!(drain(SplayHeap::from_list(list_of(&xs))), want);
    assert!(LeftistHeap::<u32>::from_list(List::empty()).is_empty());
}

#[test]
fn equal_elements_all_come_out() {
    let h = [5u32, 5, 5, 1, 1]
        .into_iter()
        .fold(ScheduledBinomialHeap::empty(), |h, x| h.insert(x));
    assert_eq!(drain(h), vec![1, 1, 5, 5, 5]);
}
