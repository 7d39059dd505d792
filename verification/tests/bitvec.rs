use vidoc::bitvec::{BitVec, PAGE_SIZE};

#[test]
fn bit_vec_new() {
    let bitvec = BitVec::new();
    assert_eq!(bitvec.len(), 0);
    assert!(bitvec.is_empty());
}

#[test]
fn bit_vec_push_pop_bit() {
    let mut bitvec = BitVec::new();

    bitvec.push_bit(true);
    bitvec.push_bit(false);
    bitvec.push_bit(true);

    assert_eq!(bitvec.len(), 3);
    assert_eq!(bitvec.pop_bit(), Some(true));
    assert_eq!(bitvec.pop_bit(), Some(false));
    assert_eq!(bitvec.pop_bit(), Some(true));
    assert_eq!(bitvec.pop_bit(), None);
}

#[test]
fn bit_vec_push_pop_bits() {
    let mut bitvec = BitVec::new();

    let (remainder, remaining_bits) = bitvec.push_bits(0b1010u8, 4);
    assert_eq!(remainder, 0);
    assert_eq!(remaining_bits, 0);
    assert_eq!(bitvec.len(), 4);

    let val = bitvec.pop_bits(4);
    assert_eq!(val, Some(0b1010));
    assert_eq!(bitvec.len(), 0);
}

#[test]
fn bit_vec_from_primitives() {
    let bitvec = BitVec::from(0b1010u8);
    assert_eq!(bitvec.len(), 8);

    let bitvec = BitVec::from(0b1010u16);
    assert_eq!(bitvec.len(), 16);
}

#[test]
fn bit_vec_stream_io() {
    let mut bitvec = BitVec::new();
    let (remainder, remaining_bits) = bitvec.push_bits(0b1010u8, 4);
    assert_eq!(remainder, 0);
    assert_eq!(remaining_bits, 0);
    let (remainder, remaining_bits) = bitvec.push_bits(0b1100u8, 4);
    assert_eq!(remainder, 0);
    assert_eq!(remaining_bits, 0);

    let mut buffer = Vec::new();
    bitvec.flush_to_stream(&mut buffer).unwrap();

    let mut restored = BitVec::new();
    restored.read_from_stream(&buffer).unwrap();

    assert_eq!(restored.len(), 8);
}

#[test]
fn bit_vec_push_bits_overflow_behavior() {
    let mut bitvec = BitVec::new();

    // Fill up most of the buffer first
    let _capacity = bitvec.available_capacity_bits();

    // Try to write exactly at capacity - should work
    let (remainder, remaining_bits) = bitvec.push_bits(0xFFu8, 8);
    assert_eq!(remainder, 0);
    assert_eq!(remaining_bits, 0);
    assert_eq!(bitvec.len(), 8);

    // Now try to write more than available capacity
    let large_value = 0xDEADBEEFu32;
    let (remainder, remaining_bits) = bitvec.push_bits(large_value, 32);

    if remaining_bits > 0 {
        // Some bits couldn't fit - this is expected behavior
        assert!(remainder > 0);
        assert!(bitvec.len() < 8 + 32); // Should be less than full requested size
    } else {
        // Everything fit - buffer was large enough
        assert_eq!(remainder, 0);
        assert_eq!(bitvec.len(), 8 + 32);
    }
}

#[test]
fn bit_vec_push_bits_exact_fill() {
    let mut bitvec = BitVec::new();

    // Write data until we get close to capacity
    let mut total_written = 0;
    while bitvec.available_capacity_bits() > 8 {
        let (remainder, remaining_bits) = bitvec.push_bits(0xAAu8, 8);
        assert_eq!(remainder, 0);
        assert_eq!(remaining_bits, 0);
        total_written += 8;
    }

    // Now write exactly what fits
    let available = bitvec.available_capacity_bits();
    if available > 0 {
        let (remainder, remaining_bits) = bitvec.push_bits(0xFFu8, available as u8);
        assert_eq!(remainder, 0);
        assert_eq!(remaining_bits, 0);
        total_written += available;
    }

    assert_eq!(bitvec.len(), total_written);

    // Now try to write one more bit - should return it as remainder
    let (remainder, remaining_bits) = bitvec.push_bits(1u8, 1);
    assert_eq!(remainder, 1);
    assert_eq!(remaining_bits, 1);
    assert_eq!(bitvec.len(), total_written); // Should be unchanged
}

#[test]
fn bit_vec_pages_come_back() {
    let mut bitvec = BitVec::new();
    bitvec.push_bits(0b101u8, 3);
    bitvec.push_bits(0xDEADBEEFu32, 32);
    let mut buffer = Vec::new();
    bitvec.flush_to_stream(&mut buffer).unwrap();
    assert_eq!(buffer.len(), 5);
    assert!(bitvec.is_empty());
    let mut restored = BitVec::new();
    assert_eq!(restored.read_from_stream(&buffer).unwrap(), 5);
    assert_eq!(restored.pop_bits(3), Some(0b101));
    assert_eq!(restored.pop_bits(32), Some(0xDEADBEEF));
    assert_eq!(restored.len(), 5);
}

#[test]
fn bit_vec_values_come_back() {
    for (value, len) in [(0u64, 1u8), (1, 1), (0x1234, 13), (u64::MAX, 64)] {
        let mut bitvec = BitVec::new();
        bitvec.push_bit(true);
        bitvec.push_bits(value, len);
        bitvec.push_bits(0b11u8, 2);
        assert_eq!(bitvec.pop_bit(), Some(true));
        assert_eq!(bitvec.pop_bits(len), Some(value as u128));
        assert_eq!(bitvec.len(), 2);
    }
}

#[test]
fn bit_vec_zeros_and_ones() {
    let mut bitvec = BitVec::new();
    bitvec.push_bits(0b0001_0000u8, 8);
    assert_eq!(bitvec.zeroes(), 3);
    assert_eq!(bitvec.first_one(), Some(5));
    assert!(bitvec.index(3));
    assert!(!bitvec.index(4));
    assert_eq!(bitvec.pop_bits(9), None);
    assert_eq!(bitvec.len(), 8);
}

#[test]
fn bit_vec_bytes_come_back() {
    let mut bitvec = BitVec::new();
    bitvec.push_bits(0xABCu16, 12);
    let bytes = bitvec.to_bytes();
    assert_eq!(bytes, [0xAB, 0xC0]);
    match BitVec::from_bytes(&bytes) {
        Some((mut restored, used)) => {
            assert_eq!(used, 2);
            assert_eq!(restored.len(), 16);
            assert_eq!(restored.pop_bits(12), Some(0xABC));
        }
        None => panic!("the bytes fit a page"),
    }
    assert!(BitVec::from_bytes(&vec![0u8; PAGE_SIZE + 1]).is_none());
}

#[test]
fn bits_in_a_partial_byte_stay() {
    let mut bitvec = BitVec::new();
    bitvec.push_bits(0b1010u8, 4);
    assert_eq!(bitvec.read_from_stream(&[0x50]).unwrap(), 1);
    assert_eq!(bitvec.len(), 12);
    assert_eq!(bitvec.pop_bits(4), Some(0b1010));
    let mut bitvec = BitVec::new();
    bitvec.push_bits(0b111u8, 3);
    assert_eq!(bitvec.read_from_stream(&[0b0000_1001, 0xC3]).unwrap(), 2);
    assert_eq!(bitvec.pop_bits(16), Some(0b1110_1001_1100_0011));
}

#[test]
fn a_flush_writes_read_bits_and_zeros() {
    let mut bitvec = BitVec::new();
    bitvec.push_bits(0xABCDu16, 16);
    bitvec.push_bits(0b101u8, 3);
    assert_eq!(bitvec.pop_bits(9), Some(0b1_0101_0111));
    let mut written = vec![7];
    bitvec.flush_to_stream(&mut written).unwrap();
    assert_eq!(written, [7, 0xAB, 0xCD, 0b1010_0000]);
    assert_eq!(bitvec.len(), 0);
    assert_eq!(bitvec.available_capacity_bits(), 32768);
}

#[test]
fn a_single_bit_is_set() {
    let mut bitvec = BitVec::new();
    bitvec.push_bits(0b0100u8, 4);
    bitvec.set_bit(3, true);
    bitvec.set_bit(1, false);
    bitvec.set_bit(32767, true);
    assert!(bitvec.get_bit(3) && bitvec.get_bit(32767) && !bitvec.get_bit(1));
    assert_eq!(bitvec.len(), 4);
    assert_eq!(bitvec.pop_bits(4), Some(0b0001));
}

#[test]
fn bit_vec_takes_what_fits() {
    let mut bitvec = BitVec::new();
    let bytes = vec![0x81u8; PAGE_SIZE + 10];
    assert_eq!(bitvec.read_from_stream(&bytes).unwrap(), PAGE_SIZE);
    assert_eq!(bitvec.len(), 8 * PAGE_SIZE);
    assert_eq!(bitvec.available_capacity_bits(), 0);
    assert_eq!(bitvec.pop_bits(8), Some(0x81));
    bitvec.clear();
    assert!(bitvec.is_empty());
}
