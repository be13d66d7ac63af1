use tmtc_system::Bitfield;

#[test]
fn new_bitfield_is_clear() {
    let b = Bitfield::<2>::new();
    assert_eq!(b.bytes(), &[0, 0]);
    for i in 0..16 {
        assert!(!b.get(i));
    }
}

#[test]
fn set_sets_one_bit() {
    let mut b = Bitfield::<2>::new();
    b.set(0);
    b.set(9);
    assert_eq!(b.bytes(), &[0b0000_0001, 0b0000_0010]);
    assert!(b.get(0));
    assert!(b.get(9));
    assert!(!b.get(1));
    assert!(!b.get(8));
}

#[test]
fn bitfield_from_bytes() {
    let b = Bitfield::new_from_bytes([0b1000_0000, 0b0000_0101]);
    assert!(b.get(7));
    assert!(b.get(8));
    assert!(b.get(10));
    assert!(!b.get(9));
    assert_eq!(b.bytes(), &[0b1000_0000, 0b0000_0101]);
}
