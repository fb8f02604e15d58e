use cap9_std::bytes::Bytes32;
use cap9_std::data::Address20;
use cap9_std::data::DataStructureError;
use cap9_std::data::Storable;
use cap9_std::map_enumerable::StorageEnumerableMap;
use cap9_std::storage::Capability;
use cap9_std::storage::Storage;

/// A storage with one write capability over `{location: 2^26, size: 2^16}`:
/// a valid region for a one-byte key width.
fn storage_for_u8_keys() -> Storage {
    let mut s = Storage::new();
    let loc = Bytes32::from_u64(1u64 << 26);
    let size = Bytes32::from_u64(1u64 << 16);
    let idx = s.add_cap(Capability::new(loc, size));
    assert_eq!(idx, 0);
    s
}

#[test]
fn from_valid_region() {
    let s = storage_for_u8_keys();
    let m = StorageEnumerableMap::<u8, u8>::from(0, &s);
    assert!(m.is_ok());
    let m = m.unwrap();
    assert_eq!(m.location().to_bytes(), Bytes32::from_u64(1u64 << 26).to_bytes());
}

#[test]
fn from_too_small_region() {
    let mut s = Storage::new();
    let loc = Bytes32::from_u64(1u64 << 26);
    let size = Bytes32::from_u64(1u64 << 8);
    s.add_cap(Capability::new(loc, size));
    let m = StorageEnumerableMap::<u8, u8>::from(0, &s);
    assert!(matches!(m, Err(DataStructureError::TooSmall)));
}

#[test]
fn from_misaligned_region() {
    let mut s = Storage::new();
    let loc = Bytes32::from_u64(1u64 << 10);
    let size = Bytes32::from_u64(1u64 << 16);
    s.add_cap(Capability::new(loc, size));
    let m = StorageEnumerableMap::<u8, u8>::from(0, &s);
    assert!(matches!(m, Err(DataStructureError::MisAligned)));
}

#[test]
fn from_missing_capability() {
    let s = Storage::new();
    let m = StorageEnumerableMap::<u8, u8>::from(0, &s);
    assert!(matches!(m, Err(DataStructureError::BadCap)));
    let s2 = storage_for_u8_keys();
    let m2 = StorageEnumerableMap::<u8, u8>::from(1, &s2);
    assert!(matches!(m2, Err(DataStructureError::BadCap)));
}

#[test]
fn insert_two_keys() {
    let mut s = storage_for_u8_keys();
    let mut m = StorageEnumerableMap::<u8, u8>::from(0, &s).unwrap();
    m.insert(5, 42, &mut s);
    m.insert(7, 99, &mut s);
    assert_eq!(m.length(&s), 2);
    assert_eq!(m.get_key_at_index(0, &s), Some(5));
    assert_eq!(m.get_key_at_index(1, &s), Some(7));
    assert_eq!(m.get_key_at_index(2, &s), None);
    assert_eq!(m.get(&5, &s), Some(42));
    assert_eq!(m.get(&7, &s), Some(99));
    assert_eq!(m.get(&9, &s), None);
    assert!(m.present(&5, &s));
    assert!(m.present(&7, &s));
    assert!(!m.present(&9, &s));
}

#[test]
fn absent_before_any_insert() {
    let s = storage_for_u8_keys();
    let m = StorageEnumerableMap::<u8, u8>::from(0, &s).unwrap();
    assert_eq!(m.length(&s), 0);
    for k in 0..=255u8 {
        assert!(!m.present(&k, &s));
        assert_eq!(m.get(&k, &s), None);
    }
    assert_eq!(m.get_key_at_index(0, &s), None);
}

#[test]
fn duplicate_key_appends_to_log() {
    let mut s = storage_for_u8_keys();
    let mut m = StorageEnumerableMap::<u8, u8>::from(0, &s).unwrap();
    m.insert(5, 42, &mut s);
    m.insert(5, 42, &mut s);
    assert_eq!(m.length(&s), 2);
    assert_eq!(m.get_key_at_index(0, &s), Some(5));
    assert_eq!(m.get_key_at_index(1, &s), Some(5));
    assert_eq!(m.get(&5, &s), Some(42));
}

#[test]
fn zero_value_is_distinguished_from_absent() {
    let mut s = storage_for_u8_keys();
    let mut m = StorageEnumerableMap::<u8, u8>::from(0, &s).unwrap();
    m.insert(3, 0, &mut s);
    assert!(m.present(&3, &s));
    assert_eq!(m.get(&3, &s), Some(0));
    assert!(!m.present(&4, &s));
    assert_eq!(m.get(&4, &s), None);
}

#[test]
fn keys_iterator_in_insertion_order() {
    let mut s = storage_for_u8_keys();
    let mut m = StorageEnumerableMap::<u8, u8>::from(0, &s).unwrap();
    m.insert(5, 42, &mut s);
    m.insert(7, 99, &mut s);
    m.insert(2, 1, &mut s);
    let mut it = m.keys();
    assert_eq!(it.next(&s), Some(5));
    assert_eq!(it.next(&s), Some(7));
    assert_eq!(it.next(&s), Some(2));
    assert_eq!(it.next(&s), None);
    assert_eq!(it.next(&s), None);
}

#[test]
fn values_iterator_in_insertion_order() {
    let mut s = storage_for_u8_keys();
    let mut m = StorageEnumerableMap::<u8, u8>::from(0, &s).unwrap();
    m.insert(5, 42, &mut s);
    m.insert(7, 99, &mut s);
    let mut it = m.values();
    assert_eq!(it.next(&s), Some(42));
    assert_eq!(it.next(&s), Some(99));
    assert_eq!(it.next(&s), None);
}

#[test]
fn pairs_iterator_agrees_with_inserts() {
    let mut s = storage_for_u8_keys();
    let mut m = StorageEnumerableMap::<u8, u8>::from(0, &s).unwrap();
    m.insert(5, 42, &mut s);
    m.insert(7, 99, &mut s);
    let mut it = m.iter();
    assert_eq!(it.next(&s), Some((5, 42)));
    assert_eq!(it.next(&s), Some((7, 99)));
    assert_eq!(it.next(&s), None);
}

#[test]
fn independent_cursors_do_not_interfere() {
    let mut s = storage_for_u8_keys();
    let mut m = StorageEnumerableMap::<u8, u8>::from(0, &s).unwrap();
    m.insert(1, 10, &mut s);
    m.insert(2, 20, &mut s);
    let mut a = m.keys();
    let mut b = m.keys();
    assert_eq!(a.next(&s), Some(1));
    assert_eq!(b.next(&s), Some(1));
    assert_eq!(a.next(&s), Some(2));
    assert_eq!(b.next(&s), Some(2));
    assert_eq!(a.next(&s), None);
}

#[test]
fn fresh_handle_reads_persisted_length() {
    let mut s = storage_for_u8_keys();
    let mut m = StorageEnumerableMap::<u8, u8>::from(0, &s).unwrap();
    m.insert(5, 42, &mut s);
    m.insert(7, 99, &mut s);
    let m2 = StorageEnumerableMap::<u8, u8>::from(0, &s).unwrap();
    assert_eq!(m2.length(&s), 2);
    assert_eq!(m2.get(&5, &s), Some(42));
    assert_eq!(m2.get_key_at_index(1, &s), Some(7));
}

#[test]
fn address_shaped_keys() {
    let mut s = Storage::new();
    // location 2^170: 170 trailing zero bits, enough for a 20-byte key width;
    // size 2^168 covers the whole key space.
    let mut loc_bytes = vec![0u8; 32];
    loc_bytes[10] = 4;
    let mut size_bytes = vec![0u8; 32];
    size_bytes[10] = 1;
    s.add_cap(Capability::new(
        Bytes32::from_bytes(loc_bytes),
        Bytes32::from_bytes(size_bytes),
    ));
    let mut m = StorageEnumerableMap::<Address20, u8>::from(0, &s).unwrap();
    let addr: Vec<u8> = (1..=20u8).collect();
    m.insert(Address20::new(addr.clone()), 7, &mut s);
    assert_eq!(m.length(&s), 1);
    assert_eq!(m.get(&Address20::new(addr.clone()), &s), Some(7));
    let k = m.get_key_at_index(0, &s).unwrap();
    assert_eq!(k.to_bytes(), addr);
}

#[test]
fn word_values_round_trip() {
    let mut s = storage_for_u8_keys();
    let mut m = StorageEnumerableMap::<u8, Bytes32>::from(0, &s).unwrap();
    m.insert(3, Bytes32::from_u64(123456), &mut s);
    let got = m.get(&3, &s).unwrap();
    assert_eq!(got.to_bytes(), Bytes32::from_u64(123456).to_bytes());
    assert_eq!(got.try_to_u64(), Some(123456));
    assert!(m.get(&4, &s).is_none());
}

#[test]
fn storable_scalars_read_from_memory() {
    assert_eq!(<u8 as Storable>::read_vec_u256(vec![]), None);
    assert_eq!(<u8 as Storable>::read_vec_u256(vec![Bytes32::from_u64(7)]), Some(7));
    // a cell too large for a one-byte value does not decode
    assert_eq!(<u8 as Storable>::read_vec_u256(vec![Bytes32::from_u64(256)]), None);
    let w = <Bytes32 as Storable>::read_vec_u256(vec![Bytes32::from_u64(9)]).unwrap();
    assert_eq!(w.try_to_u64(), Some(9));
    assert!(<Bytes32 as Storable>::read_vec_u256(vec![]).is_none());
}

#[test]
fn values_iterator_stops_on_undecodable_value() {
    let mut s = storage_for_u8_keys();
    let mut m = StorageEnumerableMap::<u8, u8>::from(0, &s).unwrap();
    m.insert(5, 42, &mut s);
    m.insert(7, 99, &mut s);
    // corrupt the first value span: the cell no longer decodes as one byte
    s.write(0, &m.base_key(&5), &Bytes32::from_u64(999)).unwrap();
    assert!(m.present(&5, &s));
    assert_eq!(m.get(&5, &s), None);
    let mut it = m.values();
    assert_eq!(it.next(&s), None);
    let mut pairs = m.iter();
    assert_eq!(pairs.next(&s), None);
    // the log itself is intact
    assert_eq!(m.get_key_at_index(0, &s), Some(5));
    assert_eq!(m.get(&7, &s), Some(99));
}

#[test]
fn storable_store_and_clear() {
    let mut s = storage_for_u8_keys();
    let at = Bytes32::from_u64(1u64 << 26);
    42u8.store(0, &at, &mut s).unwrap();
    assert_eq!(<u8 as Storable>::read(&at, &s), Some(42));
    <u8 as Storable>::clear(0, &at, &mut s).unwrap();
    assert_eq!(<u8 as Storable>::read(&at, &s), Some(0));
    // a write through a missing capability fails
    assert!(42u8.store(9, &at, &mut s).is_err());
}
