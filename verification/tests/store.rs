use rate_limit::store::slice_to_vec;
use rate_limit::store::EntryKey;
use rate_limit::store::Store;
use rate_limit::store::StoreKey;

#[test]
fn entry_keys_are_the_same_by_limiter_and_bytes() {
    let key = EntryKey::new(1, &[1, 2, 3]);
    assert_eq!(key.limiter_id, 1);
    assert_eq!(key.encoded_key, vec![1, 2, 3]);
    assert!(key.same(&EntryKey::new(1, &[1, 2, 3])));
    assert!(!key.same(&EntryKey::new(2, &[1, 2, 3])));
    assert!(!key.same(&EntryKey::new(1, &[1, 2])));
    assert!(!key.same(&EntryKey::new(1, &[1, 2, 4])));
    assert!(EntryKey::new(0, &[]).same(&EntryKey::new(0, &[])));
    assert!(7u64.same(&7));
    assert!(!7u64.same(&8));
}

#[test]
fn slice_to_vec_copies_the_bytes() {
    assert_eq!(slice_to_vec(&[]), Vec::<u8>::new());
    assert_eq!(slice_to_vec(&[9, 0, 255]), vec![9, 0, 255]);
}

#[test]
fn a_new_store_holds_nothing() {
    let store: Store<u64, u8> = Store::new();
    assert_eq!(store.get(&0), None);
    assert!(!store.contains_key(&0));
}

#[test]
fn insert_gives_a_key_its_value() {
    let mut store: Store<EntryKey, u32> = Store::new();
    store.insert(EntryKey::new(0, &[1]), 10);
    store.insert(EntryKey::new(0, &[2]), 20);
    store.insert(EntryKey::new(1, &[1]), 30);
    assert_eq!(store.get(&EntryKey::new(0, &[1])), Some(&10));
    assert_eq!(store.get(&EntryKey::new(0, &[2])), Some(&20));
    assert_eq!(store.get(&EntryKey::new(1, &[1])), Some(&30));
    assert_eq!(store.get(&EntryKey::new(1, &[2])), None);
    assert!(store.contains_key(&EntryKey::new(0, &[2])));
    store.insert(EntryKey::new(0, &[2]), 21);
    assert_eq!(store.get(&EntryKey::new(0, &[1])), Some(&10));
    assert_eq!(store.get(&EntryKey::new(0, &[2])), Some(&21));
    assert_eq!(store.get(&EntryKey::new(1, &[1])), Some(&30));
}

#[test]
fn remove_takes_a_key_and_its_value_out() {
    let mut store: Store<u64, u32> = Store::new();
    for id in 0..5u64 {
        store.insert(id, 100 + id as u32);
    }
    assert_eq!(store.remove(&2), Some(102));
    assert_eq!(store.remove(&2), None);
    assert_eq!(store.remove(&9), None);
    assert_eq!(store.get(&2), None);
    for id in [0u64, 1, 3, 4] {
        assert_eq!(store.get(&id), Some(&(100 + id as u32)));
    }
    assert_eq!(store.remove(&0), Some(100));
    assert_eq!(store.remove(&4), Some(104));
    assert_eq!(store.get(&1), Some(&101));
    assert_eq!(store.get(&3), Some(&103));
    store.insert(2, 7);
    assert_eq!(store.get(&2), Some(&7));
}
