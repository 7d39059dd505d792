use vidoc::bitstream::{BitStreamReader, BitStreamWriter};
use vidoc::error::{Error, IoErrorKind};

fn bytes_of(mut w: BitStreamWriter) -> Vec<u8> {
    w.flush().unwrap();
    w.into_inner()
}

#[test]
fn roundtrip_u32() {
    for val in [0u32, 1, 0x12345678, u32::MAX] {
        let mut w = BitStreamWriter::new();
        w.write(val).unwrap();
        let mut r = BitStreamReader::new(bytes_of(w));
        assert_eq!(r.read::<u32>().unwrap(), Some(val));
    }
}

#[test]
fn bit_and_byte_interleaved() {
    let mut w = BitStreamWriter::new();
    w.write_bit(true).unwrap();
    w.write_bit(false).unwrap();
    w.write_bit(true).unwrap();
    w.write(0xABu8).unwrap();
    w.write_bit(false).unwrap();
    w.write_bit(true).unwrap();

    let mut r = BitStreamReader::new(bytes_of(w));
    assert_eq!(r.read_bit().unwrap(), Some(true));
    assert_eq!(r.read_bit().unwrap(), Some(false));
    assert_eq!(r.read_bit().unwrap(), Some(true));
    assert_eq!(r.read::<u8>().unwrap(), Some(0xAB));
    assert_eq!(r.read_bit().unwrap(), Some(false));
    assert_eq!(r.read_bit().unwrap(), Some(true));
}

#[test]
fn aligned_raw_bytes_roundtrip() {
    let payload = b"hello world 12345678";
    let mut w = BitStreamWriter::new();
    w.write_bit(true).unwrap();
    w.write_bit(false).unwrap();
    // The two bits are padded, and the bytes come behind them.
    w.write_aligned_bytes(payload).unwrap();

    let mut r = BitStreamReader::new(bytes_of(w));
    assert_eq!(r.read_bit().unwrap(), Some(true));
    assert_eq!(r.read_bit().unwrap(), Some(false));
    r.align_to_byte().unwrap();
    let got = r.read_raw_bytes::<20>().unwrap();
    assert_eq!(&got, payload);
}

#[test]
fn ans_encode_decode_pattern() {
    // A header, and state and words as raw bytes behind it.
    let data_len: u32 = 42;
    let state: u32 = 0xDEAD_BEEF;
    let words: &[u16] = &[0x1234, 0x5678, 0xABCD];

    let mut w = BitStreamWriter::new();
    w.write(data_len).unwrap();
    w.align_to_byte().unwrap();
    w.write_aligned_bytes(&state.to_le_bytes()).unwrap();
    let mut word_bytes = Vec::new();
    for &wrd in words {
        word_bytes.extend_from_slice(&wrd.to_le_bytes());
    }
    w.write_aligned_bytes(&word_bytes).unwrap();

    let mut r = BitStreamReader::new(bytes_of(w));
    assert_eq!(r.read::<u32>().unwrap(), Some(data_len));
    r.align_to_byte().unwrap();
    let got_state = u32::from_le_bytes(r.read_raw_bytes::<4>().unwrap());
    assert_eq!(got_state, state);
    for &expected in words {
        let got = u16::from_le_bytes(r.read_raw_bytes::<2>().unwrap());
        assert_eq!(got, expected);
    }
}

#[test]
fn endianness_big_endian() {
    let mut w = BitStreamWriter::new();
    w.write(0x12345678u32).unwrap();
    // The most significant byte comes first.
    assert_eq!(bytes_of(w), [0x12, 0x34, 0x56, 0x78]);
}

#[test]
fn leading_zeros() {
    let mut w = BitStreamWriter::new();
    for _ in 0..5 {
        w.write_bit(false).unwrap();
    }
    w.write_bit(true).unwrap();
    let mut r = BitStreamReader::new(bytes_of(w));
    assert_eq!(r.count_leading_zeros().unwrap(), 5);
}

#[test]
fn eof_returns_none() {
    let mut r = BitStreamReader::new(Vec::new());
    assert_eq!(r.read::<u8>().unwrap(), None);
    assert_eq!(r.read_bit().unwrap(), None);
}

#[test]
fn large_roundtrip() {
    let vals: Vec<u32> = (0..2000).collect();
    let mut w = BitStreamWriter::new();
    for &v in &vals {
        w.write(v).unwrap();
    }
    let mut r = BitStreamReader::new(bytes_of(w));
    for &expected in &vals {
        assert_eq!(r.read::<u32>().unwrap(), Some(expected));
    }
}

#[test]
fn write_val_bits_and_read_bits() {
    let mut w = BitStreamWriter::new();
    w.write_bits(12u32, 0b1010_0011_1100u16).unwrap();
    let mut r = BitStreamReader::new(bytes_of(w));
    assert_eq!(r.read_bits::<u16>(12).unwrap(), Some(0b1010_0011_1100));
}

#[test]
fn bits_that_do_not_fit_are_refused() {
    let mut w = BitStreamWriter::new();
    w.write_bit(true).unwrap();
    assert!(matches!(w.write_bits(3u32, 8u8), Err(Error::Io(IoErrorKind::InvalidInput))));
    assert!(matches!(w.write_bits(9u32, 1u8), Err(Error::Io(IoErrorKind::InvalidInput))));
    assert_eq!(bytes_of(w), [0b1000_0000]);
    let mut r = BitStreamReader::new(vec![0xff]);
    assert!(matches!(r.read_bits::<u8>(9), Err(Error::Io(IoErrorKind::InvalidInput))));
    assert_eq!(r.read::<u8>().unwrap(), Some(0xff));
}

#[test]
fn bytes_at_any_bit() {
    let mut w = BitStreamWriter::new();
    w.write_bit(true).unwrap();
    w.write_bytes(&[0x12, 0x34]).unwrap();
    let bytes = bytes_of(w);
    assert_eq!(bytes, [0x89, 0x1a, 0x00]);
    let mut r = BitStreamReader::new(bytes);
    assert_eq!(r.read_bit().unwrap(), Some(true));
    assert_eq!(r.read_to_vec(2).unwrap(), vec![0x12, 0x34]);
    assert!(matches!(r.read_to_vec(1), Err(Error::Io(IoErrorKind::UnexpectedEof))));
    let mut r = BitStreamReader::new(vec![1, 2, 3]);
    assert_eq!(r.read_exact::<3>().unwrap(), [1, 2, 3]);
    assert!(matches!(r.read_exact::<1>(), Err(Error::Io(IoErrorKind::UnexpectedEof))));
}

#[test]
fn bits_behind_the_last_byte_are_dropped() {
    let mut w = BitStreamWriter::new();
    w.write(0x5au8).unwrap();
    w.write_bit(true).unwrap();
    assert_eq!(w.into_inner(), [0x5a]);
}

#[test]
fn zeros_without_a_one() {
    let mut r = BitStreamReader::new(vec![0, 0]);
    assert!(matches!(r.count_leading_zeros(), Err(Error::Io(IoErrorKind::UnexpectedEof))));
    // The zeros of the last byte stay.
    assert_eq!(r.read_bits::<u8>(3).unwrap(), Some(0));
    assert!(matches!(r.count_leading_zeros(), Err(Error::Io(IoErrorKind::UnexpectedEof))));
    assert_eq!(r.read_bits::<u8>(5).unwrap(), Some(0));
    assert_eq!(r.read_bit().unwrap(), None);

    let stuck = || {
        let mut r = BitStreamReader::new(vec![0, 0]);
        assert!(r.count_leading_zeros().is_err());
        r
    };
    // They are no byte, and to align drops them.
    assert!(matches!(stuck().read_to_vec(1), Err(Error::Io(IoErrorKind::UnexpectedEof))));
    assert!(matches!(stuck().read_raw_bytes::<1>(), Err(Error::Io(IoErrorKind::UnexpectedEof))));
    assert_eq!(stuck().read::<u8>().unwrap(), Some(0));
    assert_eq!(stuck().read::<u16>().unwrap(), None);
    let mut r = stuck();
    r.align_to_byte().unwrap();
    assert_eq!(r.read_bit().unwrap(), None);
}
