use vidoc::bitstream::{BitStreamReader, BitStreamWriter};
use vidoc::bytes::ToBytes;
use vidoc::color::Subsampling;
use vidoc::lossy::frame::macroblock::block_location::BlockLocation;
use vidoc::lossy::frame::motion_vector::MotionVector;
use vidoc::point::Point;

#[test]
fn test_block_location() {
    let block = BlockLocation {
        start: Point { row: 1, col: 2 },
        end: Point { row: 3, col: 4 },
    };
    assert_eq!(block.start.row, 1);
    assert_eq!(block.start.col, 2);
    assert_eq!(block.end.row, 3);
    assert_eq!(block.end.col, 4);
}

#[test]
fn test_block_location_from_array() {
    let array = [1, 2, 3, 4];
    let block = BlockLocation::from(array);
    assert_eq!(block.start.row, 1);
    assert_eq!(block.start.col, 2);
    assert_eq!(block.end.row, 3);
    assert_eq!(block.end.col, 4);
}

#[test]
fn test_block_to_array_and_back() {
    let block = BlockLocation {
        start: Point { row: 1, col: 2 },
        end: Point { row: 3, col: 4 },
    };
    let array = block.to_bytes();
    let block2 = BlockLocation::try_from_bytes(&array).unwrap();
    assert_eq!(block, block2);
    assert_eq!(BlockLocation::from(block.to_words()), block);
}

#[test]
fn integer_parts() {
    let mv = MotionVector { x: 10, y: -20 };
    assert_eq!(mv.integer_x(), 5);
    assert_eq!(mv.integer_y(), -10);
}

#[test]
fn half_pixel_detection() {
    assert!(!MotionVector { x: 10, y: 20 }.has_half_pixel_x());
    assert!(MotionVector { x: 11, y: 20 }.has_half_pixel_x());
    assert!(!MotionVector { x: 10, y: 20 }.has_half_pixel_y());
    assert!(MotionVector { x: 10, y: 21 }.has_half_pixel_y());
}

#[test]
fn chroma_scaling() {
    let mv = MotionVector { x: 16, y: 16 };
    let s420 = mv.scale_for_chroma(Subsampling::Sample420);
    assert_eq!((s420.x, s420.y), (8, 8));
    let s422 = mv.scale_for_chroma(Subsampling::Sample422);
    assert_eq!((s422.x, s422.y), (8, 16));
    let s411 = mv.scale_for_chroma(Subsampling::Sample411);
    assert_eq!((s411.x, s411.y), (4, 8));
    let s444 = mv.scale_for_chroma(Subsampling::Sample444);
    assert_eq!((s444.x, s444.y), (16, 16));
}

#[test]
fn encode_decode_roundtrip() {
    let mv = MotionVector { x: 123, y: 456 };
    let mut w = BitStreamWriter::new();
    mv.encode(&mut w).unwrap();
    w.flush().unwrap();
    let decoded = MotionVector::decode(&mut BitStreamReader::new(w.into_inner())).unwrap();
    assert_eq!(decoded, mv);
}
