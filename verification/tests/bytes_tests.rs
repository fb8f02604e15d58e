use cap9_std::bytes::Bytes32;
use cap9_std::storage::Capability;
use cap9_std::storage::Storage;

#[test]
fn word_from_u64_round_trips() {
    assert_eq!(Bytes32::from_u64(0).try_to_u64(), Some(0));
    assert_eq!(Bytes32::from_u64(1).try_to_u64(), Some(1));
    assert_eq!(Bytes32::from_u64(65536).try_to_u64(), Some(65536));
    assert_eq!(Bytes32::from_u64(u64::MAX).try_to_u64(), Some(u64::MAX));
}

#[test]
fn word_big_endian_layout() {
    let w = Bytes32::from_u64(0x0102);
    let b = w.to_bytes();
    assert_eq!(b.len(), 32);
    assert_eq!(b[30], 1);
    assert_eq!(b[31], 2);
    assert!(b[..30].iter().all(|x| *x == 0));
}

#[test]
fn word_too_large_for_u64() {
    let mut b = vec![0u8; 32];
    b[23] = 1;
    assert_eq!(Bytes32::from_bytes(b).try_to_u64(), None);
}

#[test]
fn word_zero_and_byte_edits() {
    let z = Bytes32::zero();
    assert!(z.is_zero());
    let w = z.with_byte(31, 5);
    assert!(!w.is_zero());
    assert_eq!(w.byte_at(31), 5);
    assert_eq!(w.byte_at(0), 0);
    assert!(!Bytes32::repeat_byte(0xff).is_zero());
}

#[test]
fn backend_reads_zero_until_written() {
    let mut s = Storage::new();
    let addr = Bytes32::from_u64(12345);
    assert!(s.read(&addr).is_zero());
    // no capability: the write fails and changes nothing
    assert!(s.write(0, &addr, &Bytes32::from_u64(1)).is_err());
    assert!(s.read(&addr).is_zero());
    let idx = s.add_cap(Capability::new(Bytes32::zero(), Bytes32::from_u64(1 << 16)));
    s.write(idx, &addr, &Bytes32::from_u64(77)).unwrap();
    assert_eq!(s.read(&addr).try_to_u64(), Some(77));
    // the last write wins
    s.write(idx, &addr, &Bytes32::from_u64(78)).unwrap();
    assert_eq!(s.read(&addr).try_to_u64(), Some(78));
}
