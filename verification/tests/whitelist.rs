use rate_limit::filter::bytes_equal;
use rate_limit::filter::ends_with;
use rate_limit::filter::relate_bytes;
use rate_limit::filter::starts_with;
use rate_limit::filter::Relation;
use rate_limit::whitelist::is_bypassed;
use rate_limit::Error;
use rate_limit::KeyFilter;
use rate_limit::Whitelist;

fn sample_filters() -> Vec<KeyFilter> {
    vec![
        KeyFilter::Match(vec![]),
        KeyFilter::Match(vec![0]),
        KeyFilter::Match(vec![0, 0]),
        KeyFilter::Match(vec![0, 255]),
        KeyFilter::Match(vec![1]),
        KeyFilter::Match(vec![255, 255, 255]),
        KeyFilter::StartsWith(vec![]),
        KeyFilter::StartsWith(vec![0]),
        KeyFilter::StartsWith(vec![1, 2, 3]),
        KeyFilter::StartsWith(vec![1, 2, 4]),
        KeyFilter::EndsWith(vec![]),
        KeyFilter::EndsWith(vec![0, 1]),
        KeyFilter::EndsWith(vec![9]),
    ]
}

#[test]
fn match_filter_wants_the_same_bytes() {
    let filter = KeyFilter::Match(vec![1, 2, 3]);
    assert!(filter.matches(&[1, 2, 3]));
    assert!(!filter.matches(&[1, 2]));
    assert!(!filter.matches(&[1, 2, 3, 4]));
    assert!(!filter.matches(&[1, 2, 4]));
    assert!(!filter.matches(&[]));
    assert!(KeyFilter::Match(vec![]).matches(&[]));
}

#[test]
fn starts_with_filter_wants_a_prefix() {
    let filter = KeyFilter::StartsWith(vec![1, 2]);
    assert!(filter.matches(&[1, 2]));
    assert!(filter.matches(&[1, 2, 3]));
    assert!(!filter.matches(&[1]));
    assert!(!filter.matches(&[2, 1, 2]));
    assert!(!filter.matches(&[1, 3, 2]));
    assert!(KeyFilter::StartsWith(vec![]).matches(&[7, 8]));
}

#[test]
fn ends_with_filter_wants_a_suffix() {
    let filter = KeyFilter::EndsWith(vec![1, 2]);
    assert!(filter.matches(&[1, 2]));
    assert!(filter.matches(&[0, 1, 2]));
    assert!(!filter.matches(&[2]));
    assert!(!filter.matches(&[1, 2, 0]));
    assert!(!filter.matches(&[0, 2, 2]));
    assert!(KeyFilter::EndsWith(vec![]).matches(&[7, 8]));
}

#[test]
fn byte_helpers_agree_with_the_slice_methods() {
    let samples: Vec<Vec<u8>> = vec![vec![], vec![0], vec![1], vec![0, 1], vec![1, 0], vec![0, 1, 2], vec![1, 2], vec![2]];
    for a in samples.iter() {
        for b in samples.iter() {
            assert_eq!(bytes_equal(a, b), a == b);
            assert_eq!(starts_with(a, b), a.starts_with(b));
            assert_eq!(ends_with(a, b), a.ends_with(b));
        }
    }
}

#[test]
fn relate_bytes_is_the_lexicographic_order() {
    assert_eq!(relate_bytes(&[], &[]), Relation::Same);
    assert_eq!(relate_bytes(&[], &[0]), Relation::Before);
    assert_eq!(relate_bytes(&[0], &[]), Relation::After);
    assert_eq!(relate_bytes(&[1, 2], &[1, 3]), Relation::Before);
    assert_eq!(relate_bytes(&[1, 2], &[1, 2, 0]), Relation::Before);
    assert_eq!(relate_bytes(&[2], &[1, 255]), Relation::After);
    assert_eq!(relate_bytes(&[1, 2, 3], &[1, 2, 3]), Relation::Same);
}

#[test]
fn relate_agrees_with_the_derived_order() {
    let filters = sample_filters();
    for a in filters.iter() {
        for b in filters.iter() {
            let expected = if a < b {
                Relation::Before
            } else if a == b {
                Relation::Same
            } else {
                Relation::After
            };
            assert_eq!(a.relate(b), expected);
        }
    }
}

#[test]
fn filters_are_ordered_by_kind_first() {
    assert_eq!(KeyFilter::Match(vec![9]).relate(&KeyFilter::StartsWith(vec![0])), Relation::Before);
    assert_eq!(KeyFilter::StartsWith(vec![9]).relate(&KeyFilter::EndsWith(vec![0])), Relation::Before);
    assert_eq!(KeyFilter::EndsWith(vec![]).relate(&KeyFilter::Match(vec![255])), Relation::After);
}

#[test]
fn duplicate_gives_an_equal_filter() {
    for filter in sample_filters().iter() {
        assert_eq!(&filter.duplicate(), filter);
    }
}

#[test]
fn add_keeps_the_whitelist_in_order() {
    let mut list = Whitelist::new(10);
    assert_eq!(list.add(KeyFilter::StartsWith(vec![1])), Ok(()));
    assert_eq!(list.add(KeyFilter::EndsWith(vec![0])), Ok(()));
    assert_eq!(list.add(KeyFilter::Match(vec![5])), Ok(()));
    assert_eq!(list.add(KeyFilter::Match(vec![2, 9])), Ok(()));
    assert_eq!(list.add(KeyFilter::StartsWith(vec![0, 7])), Ok(()));
    assert_eq!(
        list.filters(),
        &vec![
            KeyFilter::Match(vec![2, 9]),
            KeyFilter::Match(vec![5]),
            KeyFilter::StartsWith(vec![0, 7]),
            KeyFilter::StartsWith(vec![1]),
            KeyFilter::EndsWith(vec![0]),
        ]
    );
    assert_eq!(list.len(), 5);
    assert_eq!(list.capacity(), 10);
}

#[test]
fn add_refuses_a_filter_that_is_held() {
    let mut list = Whitelist::new(2);
    assert_eq!(list.add(KeyFilter::Match(vec![1])), Ok(()));
    assert_eq!(list.add(KeyFilter::Match(vec![1])), Err(Error::FilterExisted));
    assert_eq!(list.filters(), &vec![KeyFilter::Match(vec![1])]);
    assert_eq!(list.add(KeyFilter::StartsWith(vec![1])), Ok(()));
    assert_eq!(list.add(KeyFilter::Match(vec![1])), Err(Error::FilterExisted));
}

#[test]
fn add_refuses_when_the_whitelist_is_full() {
    let mut list = Whitelist::new(2);
    assert_eq!(list.add(KeyFilter::Match(vec![1])), Ok(()));
    assert_eq!(list.add(KeyFilter::Match(vec![2])), Ok(()));
    assert_eq!(list.add(KeyFilter::Match(vec![0])), Err(Error::MaxFilterExceeded));
    assert_eq!(list.filters(), &vec![KeyFilter::Match(vec![1]), KeyFilter::Match(vec![2])]);
    let mut none = Whitelist::new(0);
    assert_eq!(none.add(KeyFilter::Match(vec![0])), Err(Error::MaxFilterExceeded));
    assert_eq!(none.len(), 0);
}

#[test]
fn remove_takes_the_filter_out() {
    let mut list = Whitelist::new(5);
    for filter in [KeyFilter::Match(vec![3]), KeyFilter::Match(vec![1]), KeyFilter::EndsWith(vec![2])] {
        assert_eq!(list.add(filter), Ok(()));
    }
    assert_eq!(list.remove(&KeyFilter::Match(vec![3])), Ok(()));
    assert_eq!(list.filters(), &vec![KeyFilter::Match(vec![1]), KeyFilter::EndsWith(vec![2])]);
    assert_eq!(list.remove(&KeyFilter::Match(vec![3])), Err(Error::FilterNotExisted));
    assert_eq!(list.remove(&KeyFilter::StartsWith(vec![1])), Err(Error::FilterNotExisted));
    assert_eq!(list.filters(), &vec![KeyFilter::Match(vec![1]), KeyFilter::EndsWith(vec![2])]);
    assert_eq!(list.remove(&KeyFilter::EndsWith(vec![2])), Ok(()));
    assert_eq!(list.remove(&KeyFilter::Match(vec![1])), Ok(()));
    assert_eq!(list.len(), 0);
    assert_eq!(list.remove(&KeyFilter::Match(vec![1])), Err(Error::FilterNotExisted));
}

#[test]
fn add_then_remove_restores_the_whitelist() {
    let filters = sample_filters();
    for extra in filters.iter() {
        let mut list = Whitelist::new(20);
        for filter in filters.iter() {
            if filter != extra {
                assert_eq!(list.add(filter.duplicate()), Ok(()));
            }
        }
        let before = list.filters().clone();
        assert_eq!(list.add(extra.duplicate()), Ok(()));
        assert_eq!(list.len(), before.len() + 1);
        assert!(list.contains(extra));
        assert_eq!(list.remove(extra), Ok(()));
        assert_eq!(list.filters(), &before);
        assert!(!list.contains(extra));
    }
}

#[test]
fn from_list_sorts_as_the_derived_order_does() {
    let mut shuffled = sample_filters();
    shuffled.reverse();
    shuffled.swap(0, 5);
    shuffled.swap(3, 11);
    let mut expected = shuffled.clone();
    expected.sort();
    let list = Whitelist::from_list(shuffled, 13).unwrap();
    assert_eq!(list.filters(), &expected);
    assert_eq!(list.capacity(), 13);
}

#[test]
fn from_list_keeps_repeated_filters() {
    let list = Whitelist::from_list(
        vec![KeyFilter::Match(vec![2]), KeyFilter::Match(vec![1]), KeyFilter::Match(vec![2])],
        3,
    )
    .unwrap();
    assert_eq!(
        list.filters(),
        &vec![KeyFilter::Match(vec![1]), KeyFilter::Match(vec![2]), KeyFilter::Match(vec![2])]
    );
}

#[test]
fn from_list_refuses_more_than_the_capacity() {
    let made = Whitelist::from_list(vec![KeyFilter::Match(vec![2]), KeyFilter::Match(vec![1])], 1);
    assert_eq!(made.err(), Some(Error::MaxFilterExceeded));
    assert!(Whitelist::from_list(vec![], 0).is_ok());
}

#[test]
fn is_bypassed_when_any_filter_matches() {
    let list = Whitelist::from_list(
        vec![
            KeyFilter::Match(vec![1, 2, 3, 4]),
            KeyFilter::StartsWith(vec![9, 9]),
            KeyFilter::EndsWith(vec![7]),
        ],
        3,
    )
    .unwrap();
    assert!(list.is_bypassed(&[1, 2, 3, 4]));
    assert!(list.is_bypassed(&[9, 9, 0]));
    assert!(list.is_bypassed(&[0, 0, 7]));
    assert!(!list.is_bypassed(&[1, 2, 3]));
    assert!(!list.is_bypassed(&[9, 0, 9]));
    assert!(!list.is_bypassed(&[7, 0]));
    assert!(!list.is_bypassed(&[]));
    assert!(!Whitelist::new(3).is_bypassed(&[1]));
}

#[test]
fn from_list_takes_a_list_in_any_order() {
    let ascending = sample_filters();
    let mut descending = sample_filters();
    descending.reverse();
    assert_eq!(Whitelist::from_list(ascending.clone(), 13).unwrap().filters(), &ascending);
    assert_eq!(Whitelist::from_list(descending, 13).unwrap().filters(), &ascending);
    let one = Whitelist::from_list(vec![KeyFilter::EndsWith(vec![3])], 1).unwrap();
    assert_eq!(one.filters(), &vec![KeyFilter::EndsWith(vec![3])]);
}

#[test]
fn add_and_remove_never_repeat_a_filter() {
    let mut list = Whitelist::new(20);
    for filter in sample_filters() {
        assert_eq!(list.add(filter), Ok(()));
    }
    for filter in sample_filters() {
        assert_eq!(list.add(filter), Err(Error::FilterExisted));
    }
    assert_eq!(list.filters(), &sample_filters());
    for filter in sample_filters() {
        assert_eq!(list.remove(&filter), Ok(()));
        assert!(!list.contains(&filter));
    }
    assert_eq!(list.len(), 0);
}

#[test]
fn is_bypassed_on_a_plain_list() {
    let filters = vec![KeyFilter::EndsWith(vec![7]), KeyFilter::Match(vec![1, 2])];
    assert!(is_bypassed(&filters, &[1, 2]));
    assert!(is_bypassed(&filters, &[7]));
    assert!(is_bypassed(&filters, &[1, 7]));
    assert!(!is_bypassed(&filters, &[7, 1]));
    assert!(!is_bypassed(&filters, &[]));
    assert!(!is_bypassed(&[], &[1, 2]));
}
