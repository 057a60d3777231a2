use purely_functional_data_structure::queue::real_time_queue::RealTimeQueue;
use purely_functional_data_structure::queue::hood_melville_queue::HoodMelvilleQueue;
use purely_functional_data_structure::queue::naive_queue::BatchedQueue;
use purely_functional_data_structure::queue::bankers_queue::BankersQueue;
use purely_functional_data_structure::queue::physicists_queue::PhysicistsQueue;
use purely_functional_data_structure::queue::Queue;

#[test]
fn real_time_queue_test() {
    let xs = [1, 3, 2, 0, 4];
    let q = xs.iter().fold(RealTimeQueue::empty(), |q, &x| q.snoc(x));

    assert_eq!(q.head(), Some(1));
    let q = q.tail().unwrap();
    assert_eq!(q.head(), Some(3));
    let q = q.tail().unwrap();
    assert_eq!(q.head(), Some(2));
    let q = q.tail().unwrap();
    assert_eq!(q.head(), Some(0));
    let q = q.tail().unwrap();
    assert_eq!(q.head(), Some(4));
    let q = q.tail().unwrap();
    assert!(q.is_empty());
}

#[test]
fn hood_melville_queue_test() {
    let xs = [1, 3, 2, 0, 4];
    let q = xs.iter().fold(HoodMelvilleQueue::empty(), |q, &x| q.snoc(x));

    assert_eq!(q.head(), Some(1));
    let q = q.tail().unwrap();
    assert_eq!(q.head(), Some(3));
    let q = q.tail().unwrap();
    assert_eq!(q.head(), Some(2));
    let q = q.tail().unwrap();
    assert_eq!(q.head(), Some(0));
    let q = q.tail().unwrap();
    assert_eq!(q.head(), Some(4));
    let q = q.tail().unwrap();
    assert!(q.is_empty());
}

#[test]
fn naive_queue_test() {
    let xs = [1, 3, 2, 0, 4];
    let q = xs.iter().fold(BatchedQueue::empty(), |q, &x| q.snoc(x));

    assert_eq!(q.head(), Some(1));
    let q = q.tail().unwrap();
    assert_eq!(q.head(), Some(3));
    let q = q.tail().unwrap();
    assert_eq!(q.head(), Some(2));
    let q = q.tail().unwrap();
    assert_eq!(q.head(), Some(0));
    let q = q.tail().unwrap();
    assert_eq!(q.head(), Some(4));
    let q = q.tail().unwrap();
    assert!(q.is_empty());
}

#[test]
fn bankers_queue_test() {
    let xs = [1, 3, 2, 0, 4];
    let q = xs.iter().fold(BankersQueue::empty(), |q, &x| q.snoc(x));

    assert_eq!(q.head(), Some(1));
    let q = q.tail().unwrap();
    assert_eq!(q.head(), Some(3));
    let q = q.tail().unwrap();
    assert_eq!(q.head(), Some(2));
    let q = q.tail().unwrap();
    assert_eq!(q.head(), Some(0));
    let q = q.tail().unwrap();
    assert_eq!(q.head(), Some(4));
    let q = q.tail().unwrap();
    assert!(q.is_empty());
}

#[test]
fn physicists_queue_test() {
    let xs = [1, 3, 2, 0, 4];
    let q = xs.iter().fold(PhysicistsQueue::empty(), |q, &x| q.snoc(x));

    assert_eq!(q.head(), Some(1));
    let q = q.tail().unwrap();
    assert_eq!(q.head(), Some(3));
    let q = q.tail().unwrap();
    assert_eq!(q.head(), Some(2));
    let q = q.tail().unwrap();
    assert_eq!(q.head(), Some(0));
    let q = q.tail().unwrap();
    assert_eq!(q.head(), Some(4));
    let q = q.tail().unwrap();
    assert!(q.is_empty());
}

fn drain<Q: Queue<u32>>(mut q: Q) -> Vec<u32> {
    let mut out = Vec::new();
    while let Some(x) = q.head() {
        out.push(x);
        q = q.tail().unwrap();
    }
    assert!(q.is_empty());
    assert!(q.tail().is_none());
    out
}

fn fill<Q: Queue<u32>>(n: u32) -> Q {
    let mut q = Q::empty();
    for i in 0..n {
        q = q.snoc(i);
    }
    q
}

fn mixed<Q: Queue<u32>>() {
    // Arrivals and departures in turn: the order of leaving is the order of arriving.
    let mut q = Q::empty();
    let mut next_in = 0u32;
    let mut next_out = 0u32;
    for round in 0..60u32 {
        for _ in 0..(round % 5 + 1) {
            q = q.snoc(next_in);
            next_in += 1;
        }
        for _ in 0..(round % 3 + 1) {
            if let Some(x) = q.head() {
                assert_eq!(x, next_out);
                next_out += 1;
                q = q.tail().unwrap();
            }
        }
    }
    let rest = drain(q);
    assert_eq!(rest, (next_out..next_in).collect::<Vec<u32>>());
}

#[test]
fn real_time_queue_keeps_arrival_order() {
    let q: RealTimeQueue<u32> = fill(100);
    assert_eq!(drain(q), (0..100).collect::<Vec<u32>>());
    mixed::<RealTimeQueue<u32>>();
}

#[test]
fn real_time_queue_empty_has_no_head_and_no_tail() {
    let q = RealTimeQueue::<u32>::empty();
    assert!(q.is_empty());
    assert_eq!(q.head(), None);
    assert!(q.tail().is_none());
}

#[test]
fn real_time_queue_earlier_version_is_unchanged() {
    let v0 = RealTimeQueue::<u32>::empty().snoc(1).snoc(2).snoc(3);
    let before = (v0.head(), v0.tail().unwrap().head());
    let v1 = v0.snoc(4).snoc(5);
    let v2 = v0.tail().unwrap().tail().unwrap();
    assert_eq!(drain(v1), vec![1, 2, 3, 4, 5]);
    assert_eq!(drain(v2), vec![3]);
    assert_eq!((v0.head(), v0.tail().unwrap().head()), before);
    assert_eq!(drain(v0), vec![1, 2, 3]);
}

#[test]
fn hood_melville_queue_keeps_arrival_order() {
    let q: HoodMelvilleQueue<u32> = fill(100);
    assert_eq!(drain(q), (0..100).collect::<Vec<u32>>());
    mixed::<HoodMelvilleQueue<u32>>();
}

#[test]
fn hood_melville_queue_empty_has_no_head_and_no_tail() {
    let q = HoodMelvilleQueue::<u32>::empty();
    assert!(q.is_empty());
    assert_eq!(q.head(), None);
    assert!(q.tail().is_none());
}

#[test]
fn hood_melville_queue_earlier_version_is_unchanged() {
    let v0 = HoodMelvilleQueue::<u32>::empty().snoc(1).snoc(2).snoc(3);
    let before = (v0.head(), v0.tail().unwrap().head());
    let v1 = v0.snoc(4).snoc(5);
    let v2 = v0.tail().unwrap().tail().unwrap();
    assert_eq!(drain(v1), vec![1, 2, 3, 4, 5]);
    assert_eq!(drain(v2), vec![3]);
    assert_eq!((v0.head(), v0.tail().unwrap().head()), before);
    assert_eq!(drain(v0), vec![1, 2, 3]);
}

#[test]
fn naive_queue_keeps_arrival_order() {
    let q: BatchedQueue<u32> = fill(100);
    assert_eq!(drain(q), (0..100).collect::<Vec<u32>>());
    mixed::<BatchedQueue<u32>>();
}

#[test]
fn naive_queue_empty_has_no_head_and_no_tail() {
    let q = BatchedQueue::<u32>::empty();
    assert!(q.is_empty());
    assert_eq!(q.head(), None);
    assert!(q.tail().is_none());
}

#[test]
fn naive_queue_earlier_version_is_unchanged() {
    let v0 = BatchedQueue::<u32>::empty().snoc(1).snoc(2).snoc(3);
    let before = (v0.head(), v0.tail().unwrap().head());
    let v1 = v0.snoc(4).snoc(5);
    let v2 = v0.tail().unwrap().tail().unwrap();
    assert_eq!(drain(v1), vec![1, 2, 3, 4, 5]);
    assert_eq!(drain(v2), vec![3]);
    assert_eq!((v0.head(), v0.tail().unwrap().head()), before);
    assert_eq!(drain(v0), vec![1, 2, 3]);
}

#[test]
fn bankers_queue_keeps_arrival_order() {
    let q: BankersQueue<u32> = fill(100);
    assert_eq!(drain(q), (0..100).collect::<Vec<u32>>());
    mixed::<BankersQueue<u32>>();
}

#[test]
fn bankers_queue_empty_has_no_head_and_no_tail() {
    let q = BankersQueue::<u32>::empty();
    assert!(q.is_empty());
    assert_eq!(q.head(), None);
    assert!(q.tail().is_none());
}

#[test]
fn bankers_queue_earlier_version_is_unchanged() {
    let v0 = BankersQueue::<u32>::empty().snoc(1).snoc(2).snoc(3);
    let before = (v0.head(), v0.tail().unwrap().head());
    let v1 = v0.snoc(4).snoc(5);
    let v2 = v0.tail().unwrap().tail().unwrap();
    assert_eq!(drain(v1), vec![1, 2, 3, 4, 5]);
    assert_eq!(drain(v2), vec![3]);
    assert_eq!((v0.head(), v0.tail().unwrap().head()), before);
    assert_eq!(drain(v0), vec![1, 2, 3]);
}

#[test]
fn physicists_queue_keeps_arrival_order() {
    let q: PhysicistsQueue<u32> = fill(100);
    assert_eq!(drain(q), (0..100).collect::<Vec<u32>>());
    mixed::<PhysicistsQueue<u32>>();
}

#[test]
fn physicists_queue_empty_has_no_head_and_no_tail() {
    let q = PhysicistsQueue::<u32>::empty();
    assert!(q.is_empty());
    assert_eq!(q.head(), None);
    assert!(q.tail().is_none());
}

#[test]
fn physicists_queue_earlier_version_is_unchanged() {
    let v0 = PhysicistsQueue::<u32>::empty().snoc(1).snoc(2).snoc(3);
    let before = (v0.head(), v0.tail().unwrap().head());
    let v1 = v0.snoc(4).snoc(5);
    let v2 = v0.tail().unwrap().tail().unwrap();
    assert_eq!(drain(v1), vec![1, 2, 3, 4, 5]);
    assert_eq!(drain(v2), vec![3]);
    assert_eq!((v0.head(), v0.tail().unwrap().head()), before);
    assert_eq!(drain(v0), vec![1, 2, 3]);
}

#[test]
fn real_time_queue_long_run() {
    // Ten thousand arrivals, then departures: every operation goes through.
    let q: RealTimeQueue<u32> = fill(10_000);
    let mut q = q;
    for i in 0..10_000u32 {
        assert_eq!(q.head(), Some(i));
        q = q.tail().unwrap();
    }
    assert!(q.is_empty());
}

#[test]
fn hood_melville_queue_long_run() {
    let q: HoodMelvilleQueue<u32> = fill(10_000);
    let mut q = q;
    for i in 0..10_000u32 {
        assert_eq!(q.head(), Some(i));
        q = q.tail().unwrap();
    }
    assert!(q.is_empty());
}

#[test]
fn hood_melville_queue_departures_during_a_rebuilding() {
    // For every length up to 40 and every number of departures right after
    // the arrival that starts a rebuilding, the order is kept.
    for n in 1..40u32 {
        for gone in 0..=n {
            let mut q = HoodMelvilleQueue::empty();
            for i in 0..n {
                q = q.snoc(i);
            }
            for i in 0..gone {
                assert_eq!(q.head(), Some(i));
                q = q.tail().unwrap();
            }
            q = q.snoc(n);
            assert_eq!(drain(q), (gone..=n).collect::<Vec<u32>>());
        }
    }
}
