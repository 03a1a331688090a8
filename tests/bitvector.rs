use boost_torrent::bitvector::BitVector;

#[test]
fn set_then_test_only_that_bit() {
    for i in 0..20usize {
        let mut bv = BitVector::new(20);
        bv.set_index(i);
        for j in 0..20usize {
            assert_eq!(bv.index_isset(j), i == j);
        }
    }
}

#[test]
fn bits_are_big_endian_in_each_byte() {
    let mut bv = BitVector::new(12);
    assert_eq!(bv.byte_len(), 2);
    bv.set_index(0);
    assert_eq!(bv.as_bytes(), &[0x80, 0x00]);
    bv.set_index(9);
    bv.set_index(1);
    assert_eq!(bv.as_bytes(), &[0xC0, 0x40]);
}

#[test]
fn set_keeps_other_bits_of_the_byte() {
    let mut bv = BitVector::new(8);
    bv.set_index(3);
    bv.set_index(4);
    assert!(bv.index_isset(3));
    assert!(bv.index_isset(4));
}

#[test]
fn out_of_range_index() {
    let mut bv = BitVector::new(5);
    bv.set_index(5);
    bv.set_index(100);
    assert!(!bv.index_isset(5));
    assert_eq!(bv.as_bytes(), &[0x00]);
    assert_eq!(bv.first_unset_index(), 0);
}

#[test]
fn intersects_iff_common_bit() {
    let mut a = BitVector::new(10);
    let mut b = BitVector::new(10);
    assert!(!a.intersects(&b));
    a.set_index(2);
    b.set_index(9);
    assert!(!a.intersects(&b));
    b.set_index(2);
    assert!(a.intersects(&b));
    let mut c = BitVector::new(11);
    c.set_index(2);
    assert!(!a.intersects(&c));
}

#[test]
fn clear_then_first_unset_is_zero() {
    let mut bv = BitVector::new(9);
    for i in 0..9 {
        bv.set_index(i);
    }
    assert!(bv.is_complete());
    assert_eq!(bv.first_unset_index(), 9);
    bv.clear();
    assert_eq!(bv.first_unset_index(), 0);
    assert!(!bv.is_complete());
    assert_eq!(bv.bit_len(), 9);
}

#[test]
fn first_unset_and_complete() {
    let mut bv = BitVector::new(3);
    bv.set_index(0);
    bv.set_index(2);
    assert_eq!(bv.first_unset_index(), 1);
    bv.set_index(1);
    assert!(bv.is_complete());
    let empty = BitVector::new(0);
    assert!(empty.is_complete());
    assert_eq!(empty.byte_len(), 0);
}

#[test]
fn from_bytes_keeps_bytes() {
    let bv = BitVector::from_bytes(&[0x81, 0x01]);
    assert_eq!(bv.bit_len(), 16);
    assert!(bv.index_isset(0));
    assert!(bv.index_isset(7));
    assert!(bv.index_isset(15));
    assert!(!bv.index_isset(8));
}

#[test]
fn new_and_clear_give_zero_bytes() {
    let mut bv = BitVector::new(17);
    assert_eq!(bv.as_bytes(), &[0u8, 0, 0]);
    for i in 0..17 {
        bv.set_index(i);
    }
    assert_eq!(bv.as_bytes(), &[0xff, 0xff, 0x80]);
    bv.clear();
    assert_eq!(bv.as_bytes(), &[0u8, 0, 0]);
    assert_eq!(bv.byte_len(), 3);
    assert_eq!(bv.bit_len(), 17);
}
