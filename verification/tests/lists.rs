use purely_functional_data_structure::error::Error;
use purely_functional_data_structure::random_access_list::binary_random_access_list::BinaryRandomAccessList;
use purely_functional_data_structure::random_access_list::skew_binary_random_access_list::SkewBinaryRandomAccessList;
use purely_functional_data_structure::random_access_list::RandomAceessList;

#[test]
fn binary_random_access_list_test() {
    let xs = [5, 2, 7];
    let r = xs
        .iter()
        .rev()
        .fold(BinaryRandomAccessList::empty(), |l, &x| {
            BinaryRandomAccessList::cons(x, &l)
        });

    assert_eq!(r.head(), Some(5));
    assert_eq!(r.lookup(0), Some(5));
    assert_eq!(r.lookup(1), Some(2));
    assert_eq!(r.lookup(2), Some(7));
    assert_eq!(r.lookup(3), None);

    let r = r.tail().unwrap();
    assert_eq!(r.head(), Some(2));
    assert_eq!(r.lookup(0), Some(2));
    assert_eq!(r.lookup(1), Some(7));
    assert_eq!(r.lookup(2), None);

    let r = r.update(1, 4).unwrap();
    assert_eq!(r.head(), Some(2));
    assert_eq!(r.lookup(0), Some(2));
    assert_eq!(r.lookup(1), Some(4));
    assert_eq!(r.lookup(2), None);

    assert!(r.update(3, 0).is_err());

    let r = BinaryRandomAccessList::cons(8, &r);
    assert_eq!(r.head(), Some(8));
    assert_eq!(r.lookup(0), Some(8));
    assert_eq!(r.lookup(1), Some(2));
    assert_eq!(r.lookup(2), Some(4));
    assert_eq!(r.lookup(3), None);
}

#[test]
fn skew_binary_random_access_list_test() {
    let xs = [5, 2, 7];
    let r = xs
        .iter()
        .rev()
        .fold(SkewBinaryRandomAccessList::empty(), |l, &x| {
            SkewBinaryRandomAccessList::cons(x, &l)
        });

    assert_eq!(r.head(), Some(5));
    assert_eq!(r.lookup(0), Some(5));
    assert_eq!(r.lookup(1), Some(2));
    assert_eq!(r.lookup(2), Some(7));
    assert_eq!(r.lookup(3), None);

    let r = r.tail().unwrap();
    assert_eq!(r.head(), Some(2));
    assert_eq!(r.lookup(0), Some(2));
    assert_eq!(r.lookup(1), Some(7));
    assert_eq!(r.lookup(2), None);

    let r = r.update(1, 4).unwrap();
    assert_eq!(r.head(), Some(2));
    assert_eq!(r.lookup(0), Some(2));
    assert_eq!(r.lookup(1), Some(4));
    assert_eq!(r.lookup(2), None);

    assert!(r.update(3, 0).is_err());

    let r = SkewBinaryRandomAccessList::cons(8, &r);
    assert_eq!(r.head(), Some(8));
    assert_eq!(r.lookup(0), Some(8));
    assert_eq!(r.lookup(1), Some(2));
    assert_eq!(r.lookup(2), Some(4));
    assert_eq!(r.lookup(3), None);
}

fn to_vec<L: RandomAceessList<u32>>(mut l: L) -> Vec<u32> {
    let mut out = Vec::new();
    while let Some(x) = l.head() {
        out.push(x);
        l = l.tail().unwrap();
    }
    assert!(l.is_empty());
    assert!(l.tail().is_none());
    out
}

fn list_laws<L: RandomAceessList<u32> + Clone>() {
    let e = L::empty();
    assert!(e.is_empty());
    assert_eq!(e.head(), None);
    assert!(e.tail().is_none());
    assert_eq!(e.lookup(0), None);
    assert_eq!(e.update(0, 1).err(), Some(Error::InvalidIndex));

    // 0..n in order, for every n up to 40: every index, and the first beyond.
    let mut l = L::empty();
    for n in 0..40u32 {
        let want: Vec<u32> = (0..n).rev().collect();
        assert_eq!(to_vec(l.clone()), want);
        for (i, &x) in want.iter().enumerate() {
            assert_eq!(l.lookup(i), Some(x));
        }
        assert_eq!(l.lookup(n as usize), None);
        assert_eq!(l.update(n as usize, 7).err(), Some(Error::InvalidIndex));
        l = L::cons(n, &l);
    }

    // An update changes one place of the new list and none of the old one.
    let before = to_vec(l.clone());
    for i in [0usize, 1, 7, 20, 39] {
        let u = l.update(i, 1000).unwrap();
        let mut want = before.clone();
        want[i] = 1000;
        assert_eq!(to_vec(u), want);
        assert_eq!(to_vec(l.clone()), before);
    }
}

#[test]
fn binary_random_access_list_laws() {
    list_laws::<BinaryRandomAccessList<u32>>();
}

#[test]
fn skew_binary_random_access_list_laws() {
    list_laws::<SkewBinaryRandomAccessList<u32>>();
}
