use purely_functional_data_structure::deque::real_time_deque::RealTimeDeque;
use purely_functional_data_structure::deque::bankers_deque::BankersDeque;
use purely_functional_data_structure::deque::native_deque::NaiveDeque;
use purely_functional_data_structure::deque::Deque;

#[test]
fn real_time_deque_test() {
    let deq = RealTimeDeque::empty();
    let deq = RealTimeDeque::cons(5, &deq); // [5]
    assert_eq!(deq.head(), Some(5));
    assert_eq!(deq.last(), Some(5));

    let deq = RealTimeDeque::cons(7, &deq); // [7, 5]
    assert_eq!(deq.head(), Some(7));
    assert_eq!(deq.last(), Some(5));

    let deq = RealTimeDeque::snoc(&deq, 2); // [7, 5, 2]
    assert_eq!(deq.head(), Some(7));
    assert_eq!(deq.last(), Some(2));

    let deq = deq.tail().unwrap(); // [5, 2]
    assert_eq!(deq.head(), Some(5));
    assert_eq!(deq.last(), Some(2));

    let deq = RealTimeDeque::cons(4, &deq); // [4, 5, 2]
    assert_eq!(deq.head(), Some(4));
    assert_eq!(deq.last(), Some(2));

    let deq = deq.init().unwrap(); // [4, 5]
    assert_eq!(deq.head(), Some(4));
    assert_eq!(deq.last(), Some(5));
}

#[test]
fn bankers_deque_test() {
    let deq = BankersDeque::empty();
    let deq = BankersDeque::cons(5, &deq); // [5]
    assert_eq!(deq.head(), Some(5));
    assert_eq!(deq.last(), Some(5));

    let deq = BankersDeque::cons(7, &deq); // [7, 5]
    assert_eq!(deq.head(), Some(7));
    assert_eq!(deq.last(), Some(5));

    let deq = BankersDeque::snoc(&deq, 2); // [7, 5, 2]
    assert_eq!(deq.head(), Some(7));
    assert_eq!(deq.last(), Some(2));

    let deq = deq.tail().unwrap(); // [5, 2]
    assert_eq!(deq.head(), Some(5));
    assert_eq!(deq.last(), Some(2));

    let deq = BankersDeque::cons(4, &deq); // [4, 5, 2]
    assert_eq!(deq.head(), Some(4));
    assert_eq!(deq.last(), Some(2));

    let deq = deq.init().unwrap(); // [4, 5]
    assert_eq!(deq.head(), Some(4));
    assert_eq!(deq.last(), Some(5));
}

#[test]
fn native_deque_test() {
    let deq = NaiveDeque::empty();
    let deq = NaiveDeque::cons(5, &deq); // [5]
    assert_eq!(deq.head(), Some(5));
    assert_eq!(deq.last(), Some(5));

    let deq = NaiveDeque::cons(7, &deq); // [7, 5]
    assert_eq!(deq.head(), Some(7));
    assert_eq!(deq.last(), Some(5));

    let deq = NaiveDeque::snoc(&deq, 2); // [7, 5, 2]
    assert_eq!(deq.head(), Some(7));
    assert_eq!(deq.last(), Some(2));

    let deq = deq.tail().unwrap(); // [5, 2]
    assert_eq!(deq.head(), Some(5));
    assert_eq!(deq.last(), Some(2));

    let deq = NaiveDeque::cons(4, &deq); // [4, 5, 2]
    assert_eq!(deq.head(), Some(4));
    assert_eq!(deq.last(), Some(2));

    let deq = deq.init().unwrap(); // [4, 5]
    assert_eq!(deq.head(), Some(4));
    assert_eq!(deq.last(), Some(5));
}

fn front_to_back<D: Deque<i64>>(mut d: D) -> Vec<i64> {
    let mut out = Vec::new();
    while let Some(x) = d.head() {
        out.push(x);
        d = d.tail().unwrap();
    }
    assert!(d.is_empty());
    out
}

fn back_to_front<D: Deque<i64>>(mut d: D) -> Vec<i64> {
    let mut out = Vec::new();
    while let Some(x) = d.last() {
        out.push(x);
        d = d.init().unwrap();
    }
    assert!(d.is_empty());
    out
}

fn both_ends<D: Deque<i64> + Clone>() {
    // 1..=50 pushed at the back, -1..=-50 at the front, in turn.
    let mut d = D::empty();
    for i in 1..=50i64 {
        d = d.snoc(i);
        d = D::cons(-i, &d);
    }
    let mut want: Vec<i64> = (1..=50).rev().map(|i| -i).collect();
    want.extend(1..=50);
    assert_eq!(front_to_back(d.clone()), want);
    want.reverse();
    assert_eq!(back_to_front(d.clone()), want);

    // Taking from one end only, after filling from the other.
    let mut only_back = D::empty();
    for i in 0..40i64 {
        only_back = only_back.snoc(i);
    }
    assert_eq!(front_to_back(only_back.clone()), (0..40).collect::<Vec<i64>>());
    assert_eq!(back_to_front(only_back), (0..40).rev().collect::<Vec<i64>>());
}

fn edges<D: Deque<i64>>() {
    let e = D::empty();
    assert!(e.is_empty());
    assert_eq!(e.head(), None);
    assert_eq!(e.last(), None);
    assert!(e.tail().is_none());
    assert!(e.init().is_none());

    let one = D::cons(9, &e);
    assert!(!one.is_empty());
    assert_eq!(one.head(), Some(9));
    assert_eq!(one.last(), Some(9));
    assert!(one.tail().unwrap().is_empty());
    assert!(one.init().unwrap().is_empty());

    let one = e.snoc(8);
    assert!(!one.is_empty());
    assert_eq!(one.head(), Some(8));
    assert_eq!(one.last(), Some(8));
    assert!(one.tail().unwrap().is_empty());
    assert!(one.init().unwrap().is_empty());
}

#[test]
fn real_time_deque_both_ends() {
    both_ends::<RealTimeDeque<i64>>();
}

#[test]
fn real_time_deque_empty_and_single() {
    edges::<RealTimeDeque<i64>>();
}

#[test]
fn real_time_deque_earlier_version_is_unchanged() {
    let v0 = RealTimeDeque::<i64>::empty().snoc(1).snoc(2).snoc(3);
    let v1 = RealTimeDeque::cons(0, &v0);
    let v2 = v0.init().unwrap();
    let v3 = v0.tail().unwrap();
    assert_eq!(front_to_back(v1), vec![0, 1, 2, 3]);
    assert_eq!(front_to_back(v2), vec![1, 2]);
    assert_eq!(front_to_back(v3), vec![2, 3]);
    assert_eq!(front_to_back(v0), vec![1, 2, 3]);
}

#[test]
fn bankers_deque_both_ends() {
    both_ends::<BankersDeque<i64>>();
}

#[test]
fn bankers_deque_empty_and_single() {
    edges::<BankersDeque<i64>>();
}

#[test]
fn bankers_deque_earlier_version_is_unchanged() {
    let v0 = BankersDeque::<i64>::empty().snoc(1).snoc(2).snoc(3);
    let v1 = BankersDeque::cons(0, &v0);
    let v2 = v0.init().unwrap();
    let v3 = v0.tail().unwrap();
    assert_eq!(front_to_back(v1), vec![0, 1, 2, 3]);
    assert_eq!(front_to_back(v2), vec![1, 2]);
    assert_eq!(front_to_back(v3), vec![2, 3]);
    assert_eq!(front_to_back(v0), vec![1, 2, 3]);
}

#[test]
fn native_deque_both_ends() {
    both_ends::<NaiveDeque<i64>>();
}

#[test]
fn native_deque_empty_and_single() {
    edges::<NaiveDeque<i64>>();
}

#[test]
fn native_deque_earlier_version_is_unchanged() {
    let v0 = NaiveDeque::<i64>::empty().snoc(1).snoc(2).snoc(3);
    let v1 = NaiveDeque::cons(0, &v0);
    let v2 = v0.init().unwrap();
    let v3 = v0.tail().unwrap();
    assert_eq!(front_to_back(v1), vec![0, 1, 2, 3]);
    assert_eq!(front_to_back(v2), vec![1, 2]);
    assert_eq!(front_to_back(v3), vec![2, 3]);
    assert_eq!(front_to_back(v0), vec![1, 2, 3]);
}

#[test]
fn real_time_deque_stays_balanced() {
    fn balanced(d: &RealTimeDeque<i64>) -> bool {
        let (f, r) = d.lengths();
        f.max(r) <= 2 * f.min(r) + 1
    }
    let mut d = RealTimeDeque::empty();
    assert!(balanced(&d));
    // A fixed walk through all four ends' operations.
    let mut state = 12345u64;
    let mut size = 0usize;
    for step in 0..3000i64 {
        state = state.wrapping_mul(6364136223846793005).wrapping_add(1442695040888963407);
        match (state >> 33) % 5 {
            0 | 1 => {
                d = RealTimeDeque::cons(step, &d);
                size += 1;
            }
            2 => {
                d = d.snoc(step);
                size += 1;
            }
            3 => {
                if let Some(t) = d.tail() {
                    d = t;
                    size -= 1;
                }
            }
            _ => {
                if let Some(i) = d.init() {
                    d = i;
                    size -= 1;
                }
            }
        }
        assert!(balanced(&d));
        let (f, r) = d.lengths();
        assert_eq!(f + r, size);
    }
    assert_eq!(front_to_back(d).len(), size);
}
