use vidoc::bitstream::{BitStreamReader, BitStreamWriter};
use vidoc::encoders::ans::{decode, decode_raw, encode, encode_raw};
use vidoc::error::{Error, IoErrorKind};
use vidoc::lossy::frame::motion_vector::MotionVector;
use vidoc::rice::{depth16, depth8};

fn bytes_of(mut w: BitStreamWriter) -> Vec<u8> {
    w.flush().unwrap();
    w.into_inner()
}

fn roundtrip_raw(data: &[i16]) -> Vec<i16> {
    let mut w = BitStreamWriter::new();
    encode_raw::<i16>(data, &mut w).unwrap();
    decode_raw::<i16>(&mut BitStreamReader::new(bytes_of(w))).unwrap()
}

#[test]
fn roundtrip_single() {
    let d = vec![42i16; 100];
    assert_eq!(roundtrip_raw(&d), d);
}

#[test]
fn roundtrip_mixed() {
    let d: Vec<i16> = (-128..128).collect();
    assert_eq!(roundtrip_raw(&d), d);
}

#[test]
fn roundtrip_dct_like() {
    let mut d = vec![0i16; 200];
    d.extend([-3i16, -1, 0, 1, 3, -2, 2, 0, 0, 1]);
    assert_eq!(roundtrip_raw(&d), d);
}

#[test]
fn roundtrip_generic_encode_decode() {
    // The generic path that macroblocks take
    let data: Vec<MotionVector> = (0u8..64)
        .map(|i| MotionVector { x: i as isize, y: i.wrapping_mul(3) as isize })
        .collect();
    let mut w = BitStreamWriter::new();
    encode(&data, &mut w).unwrap();
    let decoded: Vec<MotionVector> = decode(&mut BitStreamReader::new(bytes_of(w))).unwrap();
    assert_eq!(decoded, data);
}

#[test]
fn empty_returns_error() {
    let mut w = BitStreamWriter::new();
    let result = encode_raw::<i16>(&[], &mut w);
    assert!(result.is_err());
}

#[test]
fn compressed_bytes_start_with_their_length() {
    let mut w = BitStreamWriter::new();
    w.write_bit(true).unwrap();
    encode_raw::<i16>(&[7i16; 1000], &mut w).unwrap();
    let bytes = bytes_of(w);
    assert_eq!(bytes[0], 0x80);
    let len = u32::from_le_bytes([bytes[1], bytes[2], bytes[3], bytes[4]]) as usize;
    assert_eq!(bytes.len(), 5 + len);
    assert!(len < 2000);
    assert_eq!(lz4_flex::decompress_size_prepended(&bytes[5..]).unwrap().len(), 2000);
}

#[test]
fn compressed_bytes_that_are_damaged() {
    let mut r = BitStreamReader::new(vec![10, 0, 0, 0, 1]);
    assert!(matches!(
        decode_raw::<i16>(&mut r),
        Err(Error::Io(IoErrorKind::UnexpectedEof))
    ));
    let mut r = BitStreamReader::new(vec![1, 0, 0, 0, 1]);
    match decode_raw::<i16>(&mut r) {
        Err(Error::FailedToDecode(what)) => assert!(what.starts_with("lz4: ")),
        _ => panic!("one byte is no compressed block"),
    }
    let odd = lz4_flex::compress_prepend_size(&[1, 2, 3]);
    let mut bytes = (odd.len() as u32).to_le_bytes().to_vec();
    bytes.extend(odd);
    match decode_raw::<i16>(&mut BitStreamReader::new(bytes)) {
        Err(Error::FailedToDecode(what)) => {
            assert_eq!(what, "decompressed length 3 not a multiple of element size 2")
        }
        _ => panic!("three bytes are no samples of two"),
    }
}

fn roundtrip16(k: u32, value: i32) -> i32 {
    let mut w = BitStreamWriter::new();
    depth16::encode(k, value, &mut w).unwrap();
    depth16::decode(k, &mut BitStreamReader::new(bytes_of(w))).unwrap()
}

fn roundtrip8(k: u16, value: i16) -> i16 {
    let mut w = BitStreamWriter::new();
    depth8::encode(k, value, &mut w).unwrap();
    depth8::decode(k, &mut BitStreamReader::new(bytes_of(w))).unwrap()
}

#[test]
fn test_simple_encode_decode() {
    assert_eq!(roundtrip16(0, 0), 0);
}

#[test]
fn depth16_test_encode_decode_u8() {
    let input = [
        148i32, 131, 111, 147, 130, 110, 146, 129, 109, 149, 132, 112, 147, 130, 110, 149, 132,
        112, 144, 127, 107, 147, 130, 110, 148, 131, 111, 150, 133, 113, 151, 134, 114, 149,
        132, 112, 151, 134, 114, 149, 132, 112, 150, 133, 113, 152, 135, 115, 154, 139, 118,
        154, 139, 118, 153, 138, 117, 152, 137, 116, 150, 135, 114, 153, 138, 117, 151, 136,
        115, 145, 130, 109, 152, 137, 114, 158, 143, 120, 158, 143, 120, 151, 136, 113, 154,
        142, 120, 156, 144, 122, 157, 146, 126, 155, 147, 128, 154, 146, 133, 167,
    ];
    for k in 0..10 {
        for x in input {
            assert_eq!(roundtrip16(k, x), x, "k={k}, x={x}");
        }
    }
}

#[test]
fn depth8_test_encode_decode_u8() {
    let input = [
        148i16, 131, 111, 147, 130, 110, 146, 129, 109, 149, 132, 112, 147, 130, 110, 149, 132,
        112, 144, 127, 107, 147, 130, 110, 148, 131, 111, 150, 133, 113, 151, 134, 114, 149,
        132, 112, 151, 134, 114, 149, 132, 112, 150, 133, 113, 152, 135, 115, 154, 139, 118,
        154, 139, 118, 153, 138, 117, 152, 137, 116, 150, 135, 114, 153, 138, 117, 151, 136,
        115, 145, 130, 109, 152, 137, 114, 158, 143, 120, 158, 143, 120, 151, 136, 113, 154,
        142, 120, 156, 144, 122, 157, 146, 126, 155, 147, 128, 154, 146, 133, 167,
    ];
    for k in 0..10 {
        for x in input {
            assert_eq!(roundtrip8(k, x), x);
        }
    }
}

#[test]
fn test_bit_stream_basic() {
    let mut writer = BitStreamWriter::new();

    // Write 3 zeros, 1 one, then 2 bits value=2 (binary 10)
    writer.write_bits(3u32, 0u8).expect("write zeros");
    writer.write_bit(true).expect("write one");
    writer.write_bits(2u32, 2u8).expect("write two bits");

    let mut reader = BitStreamReader::new(bytes_of(writer));

    // Count zeros until the 1
    let zero_count = reader.count_leading_zeros().expect("count zeros");
    assert_eq!(zero_count, 3);

    // Read 2 bits
    let two_bits = reader.read_bits::<u8>(2).expect("read 2 bits");
    assert_eq!(two_bits, Some(2));
}

#[test]
fn test_rice_specific_failure() {
    assert_eq!(roundtrip8(0, 131), 131);
}

#[test]
fn test_negative_value_debug() {
    assert_eq!(roundtrip8(0, -128), -128);
}

#[test]
fn test_rice_extreme_values() {
    let extreme = [-128i16, -127, -1, 0, 1, 127, -32768, 32767];
    for &value in &extreme {
        for k in 0u16..=5 {
            assert_eq!(roundtrip8(k, value), value, "mismatch: k={k}, value={value}");
        }
    }
}

#[test]
fn test_rice_sequential_values() {
    let test_values = [-128i16, -1, 0, 1, 127];
    let k = 0u16;

    let mut w = BitStreamWriter::new();
    for &v in &test_values {
        depth8::encode(k, v, &mut w).unwrap();
    }

    let mut r = BitStreamReader::new(bytes_of(w));
    for &expected in &test_values {
        assert_eq!(depth8::decode(k, &mut r).unwrap(), expected);
    }
}

#[test]
fn test_rice_encode_decode_consistency() {
    let test_values = [0i16, 1, -1, 2, -2, 3, -3, 100, -100, 255, -255];
    for k in 0u16..=5 {
        for &value in &test_values {
            assert_eq!(roundtrip8(k, value), value, "k={k}, value={value}");
        }
    }
}

#[test]
fn test_rice_1024_values_image_simulation() {
    let pattern = [-2i16, -1, 0, 1, 2];
    let test_values: Vec<i16> = (0..1024).map(|i| pattern[i % pattern.len()]).collect();
    let k = 0u16;

    let mut w = BitStreamWriter::new();
    for &v in &test_values {
        depth8::encode(k, v, &mut w).unwrap();
    }

    let mut r = BitStreamReader::new(bytes_of(w));
    for (i, &expected) in test_values.iter().enumerate() {
        let got = depth8::decode(k, &mut r).unwrap();
        assert_eq!(got, expected, "mismatch at index {i}");
    }
}

#[test]
fn rice_bits_of_a_residual() {
    // Minus three folds to five: one zero for five shifted by two, a one, and
    // the two low bits.
    let mut w = BitStreamWriter::new();
    depth8::encode(2, -3, &mut w).unwrap();
    assert_eq!(bytes_of(w), [0b0101_0000]);
    let mut r = BitStreamReader::new(vec![0]);
    assert!(matches!(
        depth8::decode(2, &mut r),
        Err(Error::Io(IoErrorKind::UnexpectedEof))
    ));
}
