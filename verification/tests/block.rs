use vidoc::bitstream::{BitStreamReader, BitStreamWriter};
use vidoc::block::quantization::Quantizor;
use vidoc::block::{Block, Blocks, BLOCK_COLS};
use vidoc::bytes::{FromBytes, ToBytes};
use vidoc::error::{Error, IoErrorKind};

#[test]
fn test_block_default() {
    let block: Block<i32> = Block::default();
    for r in 0..Block::<i32>::rows() {
        for c in 0..Block::<i32>::cols() {
            assert_eq!(block.get(r, c), 0);
        }
    }
}

#[test]
fn test_block_dimensions() {
    assert_eq!(Block::<i32>::cols(), 8);
    assert_eq!(Block::<i32>::rows(), 8);
}

#[test]
fn test_block_indexing() {
    let mut block: Block<i32> = Block::default();

    // Test index access
    assert_eq!(block.get(0, 0), 0);

    // Test index mutation
    block.set(0, 0, 42);
    block.set(7, 7, 99);
    assert_eq!(block.get(0, 0), 42);
    assert_eq!(block.get(7, 7), 99);
}

#[test]
fn test_block_from_array() {
    let arr = [1; 64];
    let block: Block<i32> = Block::from(arr);

    for r in 0..Block::<i32>::rows() {
        for c in 0..Block::<i32>::cols() {
            assert_eq!(block.get(r, c), 1);
        }
    }
}

#[test]
fn test_block_from_array_with_different_values() {
    let mut arr = [0; 64];
    for i in 0..64 {
        arr[i] = i as i32;
    }
    let block: Block<i32> = Block::from(arr);

    for r in 0..Block::<i32>::rows() {
        for c in 0..Block::<i32>::cols() {
            assert_eq!(block.get(r, c), (r * BLOCK_COLS + c) as i32);
        }
    }
}

#[test]
fn test_block_clone() {
    let mut block: Block<i32> = Block::default();
    block.set(0, 0, 42);
    block.set(7, 7, 99);

    let cloned = block;
    assert_eq!(cloned.get(0, 0), 42);
    assert_eq!(cloned.get(7, 7), 99);
}

#[test]
fn test_block_copy() {
    let mut block: Block<i32> = Block::default();
    block.set(0, 0, 42);
    block.set(7, 7, 99);

    // Uses Copy trait
    let copied = block;
    assert_eq!(copied.get(0, 0), 42);
    assert_eq!(copied.get(7, 7), 99);
}

#[test]
fn test_block_equality() {
    let mut block1: Block<i32> = Block::default();
    let mut block2: Block<i32> = Block::default();

    assert_eq!(block1, block2);

    block1.set(0, 0, 42);
    assert_ne!(block1, block2);

    block2.set(0, 0, 42);
    assert_eq!(block1, block2);
}

#[test]
fn test_block_add() {
    let mut block1: Block<i32> = Block::default();
    let mut block2: Block<i32> = Block::default();

    block1.set(0, 0, 10);
    block1.set(7, 7, 20);
    block2.set(0, 0, 5);
    block2.set(7, 7, 15);

    let result = block1 + block2;
    assert_eq!(result.get(0, 0), 15);
    assert_eq!(result.get(7, 7), 35);
    assert_eq!(result.get(0, 1), 0); // Other elements should be 0
}

#[test]
fn test_block_div() {
    let mut block: Block<i32> = Block::default();
    block.set(0, 0, 20);
    block.set(7, 7, 100);

    let result = block / 2;
    assert_eq!(result.get(0, 0), 10);
    assert_eq!(result.get(7, 7), 50);
    assert_eq!(result.get(0, 1), 0); // Other elements should be 0
}

#[test]
fn test_block_iter() {
    let mut block: Block<i32> = Block::default();
    block.set(0, 0, 1);
    block.set(0, 1, 2);
    block.set(1, 0, 9); // row 1, col 0 = index 8

    let mut iter = block.iter();
    assert_eq!(iter.next(), Some(1)); // [0][0]
    assert_eq!(iter.next(), Some(2)); // [0][1]
    assert_eq!(iter.next(), Some(0)); // [0][2]

    // Skip to the 8th element (row 1, col 0)
    for _ in 0..5 {
        iter.next();
    }
    assert_eq!(iter.next(), Some(9)); // [1][0]
}

#[test]
fn test_block_iter_full() {
    let arr = [1; 64];
    let block: Block<i32> = Block::from(arr);

    let collected: Vec<i32> = block.iter().collect();
    assert_eq!(collected.len(), 64);
    assert!(collected.iter().all(|&x| x == 1));
}

#[test]
fn test_block_iter_empty_at_end() {
    let block: Block<i32> = Block::default();
    let mut iter = block.iter();

    // Consume all 64 elements
    for _ in 0..64 {
        assert!(iter.next().is_some());
    }

    // Should be None after consuming all
    assert!(iter.next().is_none());
}

#[test]
fn test_block_debug_format() {
    let block: Block<i32> = Block::default();
    let debug_str = block.text();
    assert!(debug_str.contains("Block"));
    assert!(debug_str.contains("inner"));
}

#[test]
fn test_block_display_format() {
    let block: Block<i32> = Block::default();
    let display_str = block.text();
    assert!(display_str.contains("Block"));
    assert!(display_str.contains("inner"));
}

#[test]
fn test_block_operations_with_different_values() {
    let mut block1: Block<i32> = Block::default();
    let mut block2: Block<i32> = Block::default();

    // Fill with different patterns
    for r in 0..Block::<i32>::rows() {
        for c in 0..Block::<i32>::cols() {
            block1.set(r, c, (r * BLOCK_COLS + c) as i32);
            block2.set(r, c, ((r * BLOCK_COLS + c) * 2) as i32);
        }
    }

    let sum = block1 + block2;
    let quotient = block2 / 2;

    // Check a few values
    assert_eq!(sum.get(0, 0), 0); // 0 + 0
    assert_eq!(sum.get(0, 1), 3); // 1 + 2
    assert_eq!(sum.get(1, 0), 24); // 8 + 16

    assert_eq!(quotient.get(0, 0), 0); // 0 / 2
    assert_eq!(quotient.get(0, 1), 1); // 2 / 2
    assert_eq!(quotient.get(1, 0), 8); // 16 / 2
}

fn sample_block() -> Block<i32> {
    Block([
        52, 55, 61, 66, 70, 61, 64, 73, 63, 59, 55, 90, 109, 85, 69, 72, 62, 59, 68, 113, 144,
        104, 66, 73, 63, 58, 71, 122, 154, 106, 70, 69, 67, 61, 68, 104, 126, 88, 68, 70, 79,
        65, 60, 70, 77, 68, 58, 75, 85, 71, 64, 59, 55, 61, 65, 83, 87, 79, 69, 68, 65, 76, 78,
        94,
    ])
}

#[test]
fn zigzag_zagzig() {
    let block: Block<i32> = sample_block();

    assert_eq!(block.zigzag().zagzig(), block);
}

#[test]
fn zigzag_takes_the_numbers_of_the_diagonals() {
    let mut numbers = [0i32; 64];
    for i in 0..64 {
        numbers[i] = i as i32;
    }
    let order = Block(numbers).zigzag();
    assert_eq!(&order.0[..10], &[0, 1, 5, 6, 14, 15, 27, 28, 2, 4]);
    assert_eq!(order.0[63], 63);
    let back = Block(numbers).zagzig();
    assert_eq!(&back.0[..10], &[0, 1, 8, 16, 9, 2, 3, 10, 17, 24]);
}

#[test]
fn samples_are_converted() {
    let mut block: Block<i16> = Block::default();
    block.set(0, 0, 100);
    block.set(7, 7, -50);
    let wide = block.convert_to::<i32>();
    assert_eq!(wide.get(0, 0), 100);
    assert_eq!(wide.get(7, 7), -50);
    let mut large: Block<i32> = Block::default();
    large.set(3, 3, 40000);
    assert!(matches!(large.try_convert_to::<i16>(), Err(Error::BlockConversion)));
    assert_eq!(wide.try_convert_to::<i16>().unwrap(), block);
}

#[test]
fn distances_of_blocks() {
    let mut a: Block<i16> = Block::default();
    let mut b: Block<i16> = Block::default();
    a.set(0, 0, 10);
    b.set(0, 0, -5);
    b.set(7, 7, 3);
    assert_eq!(a.sum_of_abs_difference(&b), 18);
    assert_eq!(b.sum_of_abs_difference(&a), 18);
    assert_eq!(a.sum_of_abs_difference(&a), 0);
    assert_eq!(a.sum_of_abs_difference_early_exit(&b, 7), 7);
    assert_eq!(a.sum_of_abs_difference_early_exit(&b, 100), 18);
}

#[test]
fn samples_are_clamped() {
    let mut block: Block<i32> = Block::default();
    block.set(0, 0, 300);
    block.set(0, 1, -7);
    let clamped = block.clamp(0, 255);
    assert_eq!(clamped.get(0, 0), 255);
    assert_eq!(clamped.get(0, 1), 0);
    assert_eq!(clamped.get(0, 2), 0);
}

#[test]
fn places_of_a_block() {
    let mut block: Block<i16> = Block::default();
    *block.get_mut(2, 5) = 7;
    assert_eq!(*block.get_ref(2, 5), 7);
    assert_eq!(block.0[21], 7);
    assert_eq!(Block::<i16>::size(), 64);
}

#[test]
fn blocks_come_back_from_streams() {
    let block = sample_block();
    let mut w = BitStreamWriter::new();
    block.encode(&mut w).unwrap();
    let mut r = BitStreamReader::new(w.into_inner());
    assert_eq!(Block::<i32>::decode(&mut r).unwrap(), block);
    assert!(matches!(
        Block::<i32>::decode(&mut r),
        Err(Error::Io(IoErrorKind::UnexpectedEof))
    ));
}

#[test]
fn blocks_come_back_from_bytes() {
    let block = sample_block();
    let bytes = block.to_bytes();
    assert_eq!(bytes.len(), 256);
    let (back, used) = Block::<i32>::from_bytes(&bytes).unwrap();
    assert_eq!(back, block);
    assert_eq!(used, 256);
    assert!(Block::<i32>::from_bytes(&bytes[..255]).is_none());
    let list = Blocks::new(vec![block, Block::default()]);
    let bytes = list.to_bytes();
    let (back, used) = Blocks::<i32>::from_bytes(&bytes).unwrap();
    assert_eq!(used, bytes.len());
    assert_eq!(back.len(), 2);
    assert_eq!(*back.get(0), block);
    assert_eq!(back.into_inner(), vec![block, Block::default()]);
}

#[test]
fn quotients_are_clamped_to_16_bits() {
    let steps = Quantizor::<i32>::image_luminance();
    let mut block = Block::<i32>::default();
    block.0[0] = 1_600_000;
    block.0[1] = -11_000_000;
    block.0[2] = 327_670;
    let quantized = steps.quantize(block);
    assert_eq!(quantized.0[..4], [32767, -32768, 32767, 0]);
    assert!(quantized.0[3..].iter().all(|v| *v == 0));
}

#[test]
fn quantized_blocks_come_close() {
    let steps = Quantizor::<i32>::image_luminance();
    let block = sample_block();
    let quantized = steps.quantize(block);
    assert_eq!(quantized.get(0, 0), 52 / steps.steps().get(0, 0));
    let back = steps.dequantize(quantized);
    for i in 0..64 {
        assert!((back.0[i] - block.0[i]).abs() < steps.steps().0[i]);
    }
    let mut negative: Block<i32> = Block::default();
    negative.set(0, 0, -33);
    assert_eq!(steps.quantize(negative).get(0, 0), -33 / steps.steps().get(0, 0));
    let steps = Quantizor::<i16>::video_luminance();
    let mut large: Block<i16> = Block::default();
    large.set(7, 7, i16::MAX);
    assert!(steps.try_dequantize(large).is_none());
}

#[test]
fn steps_come_back() {
    for steps in [
        Quantizor::<i16>::image_luminance(),
        Quantizor::<i16>::image_chrominance(),
        Quantizor::<i16>::video_luminance(),
        Quantizor::<i16>::video_chrominance(),
    ] {
        let mut w = BitStreamWriter::new();
        steps.encode(&mut w).unwrap();
        let mut r = BitStreamReader::new(w.into_inner());
        let back = Quantizor::<i16>::decode(&mut r).unwrap();
        assert_eq!(back.steps(), steps.steps());
    }
}
