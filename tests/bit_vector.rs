use primes::bit_vector::BitVector;

#[test]
fn test_bit_vector_basic() {
    let mut bit_vector = BitVector::new(32, false);
    assert_eq!(0, bit_vector.count_set_bits());
    bit_vector.set_bit(8);
    bit_vector.set_bit(77);
    assert_eq!(2, bit_vector.count_set_bits());
    bit_vector.clear_bit(77);
    assert_eq!(1, bit_vector.count_set_bits());
}

#[test]
fn fresh_clear_vector_counts_zero() {
    for words in [0usize, 1, 3, 32] {
        let v = BitVector::new(words, false);
        assert_eq!(v.count_set_bits(), 0);
        assert_eq!(v.capacity_bits(), words * 64);
    }
}

#[test]
fn fresh_set_vector_counts_every_bit() {
    let v = BitVector::new(5, true);
    assert_eq!(v.count_set_bits(), 320);
    assert!(v.get_bit(0));
    assert!(v.get_bit(319));
}

#[test]
fn one_set_bit_counts_one() {
    for i in [0usize, 1, 63, 64, 65, 127, 2047] {
        let mut v = BitVector::new(32, false);
        v.set_bit(i);
        assert_eq!(v.count_set_bits(), 1);
    }
}

#[test]
fn clear_bit_is_idempotent() {
    let mut v = BitVector::new(2, true);
    v.clear_bit(70);
    assert_eq!(v.count_set_bits(), 127);
    v.clear_bit(70);
    assert_eq!(v.count_set_bits(), 127);
    assert!(!v.get_bit(70));
}

#[test]
fn write_then_read_round_trip() {
    let mut v = BitVector::new(2, false);
    for i in 0usize..128 {
        v.set_bit(i);
        assert!(v.get_bit(i));
        v.clear_bit(i);
        assert!(!v.get_bit(i));
    }
    v.set_bit(63);
    assert!(v.get_bit(63));
    assert!(!v.get_bit(62));
    assert!(!v.get_bit(64));
}
