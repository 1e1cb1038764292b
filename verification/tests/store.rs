use miniredis::kvstore::KvStatus;
use miniredis::kvstore::KvStore;

#[test]
fn set_then_get_finds_the_value() {
    let mut store = KvStore::new();
    store.set_at(b"k".to_vec(), b"v".to_vec(), None, 1000);
    assert_eq!(store.get_at(&b"k".to_vec(), 1000), KvStatus::Found(b"v".to_vec()));
}

#[test]
fn missing_key_is_not_found() {
    let store = KvStore::new();
    assert_eq!(store.get_at(&b"missing".to_vec(), 0), KvStatus::KeyNotFound);
}

#[test]
fn entry_without_ttl_never_expires() {
    let mut store = KvStore::new();
    store.set_at(b"k".to_vec(), b"v".to_vec(), None, 0);
    assert_eq!(
        store.get_at(&b"k".to_vec(), u128::MAX),
        KvStatus::Found(b"v".to_vec())
    );
}

#[test]
fn entry_with_ttl_expires_after_it() {
    let mut store = KvStore::new();
    store.set_at(b"k".to_vec(), b"v".to_vec(), Some(10), 1000);
    assert_eq!(store.get_at(&b"k".to_vec(), 1005), KvStatus::Found(b"v".to_vec()));
    assert_eq!(store.get_at(&b"k".to_vec(), 1010), KvStatus::Found(b"v".to_vec()));
    assert_eq!(store.get_at(&b"k".to_vec(), 1011), KvStatus::KeyExpired);
    assert_eq!(store.get_at(&b"k".to_vec(), 1050), KvStatus::KeyExpired);
}

#[test]
fn expired_entry_stays_expired_until_overwritten() {
    let mut store = KvStore::new();
    store.set_at(b"k".to_vec(), b"v".to_vec(), Some(10), 1000);
    assert_eq!(store.get_at(&b"k".to_vec(), 2000), KvStatus::KeyExpired);
    assert_eq!(store.get_at(&b"k".to_vec(), 3000), KvStatus::KeyExpired);
    store.set_at(b"k".to_vec(), b"w".to_vec(), None, 3000);
    assert_eq!(store.get_at(&b"k".to_vec(), 4000), KvStatus::Found(b"w".to_vec()));
}

#[test]
fn clock_stepping_backwards_does_not_expire() {
    let mut store = KvStore::new();
    store.set_at(b"k".to_vec(), b"v".to_vec(), Some(10), 1000);
    assert_eq!(store.get_at(&b"k".to_vec(), 900), KvStatus::Found(b"v".to_vec()));
}

#[test]
fn overwrite_replaces_the_value() {
    let mut store = KvStore::new();
    store.set_at(b"k".to_vec(), b"first".to_vec(), None, 1);
    store.set_at(b"k".to_vec(), b"second".to_vec(), None, 2);
    assert_eq!(
        store.get_at(&b"k".to_vec(), 3),
        KvStatus::Found(b"second".to_vec())
    );
}

#[test]
fn overwrite_can_drop_or_add_a_ttl() {
    let mut store = KvStore::new();
    store.set_at(b"k".to_vec(), b"v".to_vec(), Some(10), 1000);
    store.set_at(b"k".to_vec(), b"v".to_vec(), None, 1000);
    assert_eq!(store.get_at(&b"k".to_vec(), 9999), KvStatus::Found(b"v".to_vec()));
    store.set_at(b"k".to_vec(), b"v".to_vec(), Some(5), 10000);
    assert_eq!(store.get_at(&b"k".to_vec(), 10006), KvStatus::KeyExpired);
}

#[test]
fn distinct_keys_are_independent() {
    let mut store = KvStore::new();
    store.set_at(b"a".to_vec(), b"1".to_vec(), None, 0);
    store.set_at(b"b".to_vec(), b"2".to_vec(), Some(10), 0);
    store.set_at(b"c".to_vec(), b"3".to_vec(), None, 0);
    assert_eq!(store.get_at(&b"a".to_vec(), 100), KvStatus::Found(b"1".to_vec()));
    assert_eq!(store.get_at(&b"b".to_vec(), 100), KvStatus::KeyExpired);
    assert_eq!(store.get_at(&b"c".to_vec(), 100), KvStatus::Found(b"3".to_vec()));
}

#[test]
fn binary_keys_and_values_are_stored_exactly() {
    let mut store = KvStore::new();
    store.set_at(b"k\r\n1".to_vec(), b"v\x00\r\n".to_vec(), None, 0);
    assert_eq!(
        store.get_at(&b"k\r\n1".to_vec(), 0),
        KvStatus::Found(b"v\x00\r\n".to_vec())
    );
    assert_eq!(store.get_at(&b"k".to_vec(), 0), KvStatus::KeyNotFound);
}

#[test]
fn set_and_get_with_the_real_clock() {
    let mut store = KvStore::new();
    store.set(b"k".to_vec(), b"v".to_vec(), None);
    assert_eq!(store.get(b"k".to_vec()), KvStatus::Found(b"v".to_vec()));
    assert_eq!(store.get(b"other".to_vec()), KvStatus::KeyNotFound);
}
