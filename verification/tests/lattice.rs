use collection_trace::lattice::{holds, same_time};
use collection_trace::{close_under_lub, LeastUpperBound, Lookup, Offset};

#[test]
fn offset_gives_its_index_back() {
    assert_eq!(Offset::new(0).val(), 0);
    assert_eq!(Offset::new(5).val(), 5);
    assert_eq!(Offset::new(u32::MAX as usize - 1).val(), u32::MAX as usize - 1);
    let a = Offset::new(12);
    let b = a;
    assert_eq!(a.val(), b.val());
}

#[test]
fn numbers_are_ordered_as_usual() {
    assert!(3u64.less_equal(&3));
    assert!(3u64.less_equal(&4));
    assert!(!4u64.less_equal(&3));
    assert_eq!(3u64.least_upper_bound(&4), 4);
    assert_eq!(4u64.least_upper_bound(&3), 4);
    assert_eq!(4u64.least_upper_bound(&4), 4);
}

#[test]
fn pairs_are_ordered_by_both_parts() {
    assert!((1u64, 2u64).less_equal(&(1, 2)));
    assert!((1u64, 2u64).less_equal(&(3, 2)));
    assert!(!(1u64, 2u64).less_equal(&(3, 1)));
    assert!(!(3u64, 1u64).less_equal(&(1, 2)));
    assert_eq!((1u64, 0u64).least_upper_bound(&(0, 1)), (1, 1));
    assert_eq!((5u64, 2u64).least_upper_bound(&(3, 9)), (5, 9));
}

#[test]
fn same_time_and_holds() {
    assert!(same_time(&(1u64, 2u64), &(1, 2)));
    assert!(!same_time(&(1u64, 2u64), &(2, 1)));
    let times = vec![(1u64, 0u64), (0, 1)];
    assert!(holds(&times, &(0, 1)));
    assert!(!holds(&times, &(1, 1)));
}

#[test]
fn closure_adds_the_missing_bounds() {
    let mut times = vec![(1u64, 0u64), (0, 1)];
    close_under_lub(&mut times);
    assert_eq!(&times[..2], &[(1, 0), (0, 1)]);
    assert_eq!(times.len(), 3);
    assert!(times.contains(&(1, 1)));
}

#[test]
fn closure_of_three_generators() {
    let mut times = vec![(2u64, 0u64, 0u64), (0, 2, 0), (0, 0, 2)]
        .into_iter()
        .map(|(a, b, c)| (a, (b, c)))
        .collect::<Vec<(u64, (u64, u64))>>();
    close_under_lub(&mut times);
    assert_eq!(times.len(), 7);
    for a in times.iter() {
        for b in times.iter() {
            assert!(times.contains(&a.least_upper_bound(b)));
        }
    }
    for (i, a) in times.iter().enumerate() {
        for b in times.iter().skip(i + 1) {
            assert_ne!(a, b);
        }
    }
}

#[test]
fn closure_of_a_closed_set_adds_nothing() {
    let mut times = vec![1u64, 5, 3];
    close_under_lub(&mut times);
    assert_eq!(times, vec![1, 5, 3]);
    let mut none: Vec<u64> = Vec::new();
    close_under_lub(&mut none);
    assert_eq!(none, vec![]);
    let mut twice = vec![(1u64, 0u64), (0, 1), (1, 0)];
    close_under_lub(&mut twice);
    assert_eq!(twice, vec![(1, 0), (0, 1), (1, 0), (1, 1)]);
}

#[test]
fn list_lookup_finds_and_inserts() {
    let mut map: Vec<(String, u64)> = Vec::new();
    assert_eq!(map.get_ref(&"a".to_string()), None);
    {
        let slot = map.entry_or_insert("a".to_string(), || 7);
        assert_eq!(*slot, 7);
        *slot = 8;
    }
    assert_eq!(map.get_ref(&"a".to_string()), Some(&8));
    {
        let slot = map.entry_or_insert("a".to_string(), || 100);
        assert_eq!(*slot, 8);
    }
    {
        let slot = map.entry_or_insert("b".to_string(), || 3);
        assert_eq!(*slot, 3);
    }
    assert_eq!(map.get_ref(&"b".to_string()), Some(&3));
    assert_eq!(map.get_ref(&"a".to_string()), Some(&8));
    assert_eq!(map.get_ref(&"c".to_string()), None);
    assert_eq!(map.len(), 2);
}
