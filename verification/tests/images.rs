use vidoc::bitstream::{BitStreamReader, BitStreamWriter};
use vidoc::block::Block;
use vidoc::color::Subsampling;
use vidoc::dimensions::PixelDimensions;
use vidoc::error::{Error, IoErrorKind};
use vidoc::image::{Image, ImageGrey, ImageRgb16, ImageRgb8, ImageRgba8};
use vidoc::lossless;
use vidoc::lossless::jpg::LosslessSample;
use vidoc::lossy::assemble_plane;
use vidoc::lossy::jpg::{decompress_from_stream, Jpg};
use vidoc::pixels::{Grey, Pixels, Rgb16, Rgb8, Rgba8};

fn non_negative(sample: &f64) -> f64 {
    sample.max(0.0)
}

fn basis(k: usize, x: usize) -> f64 {
    let scale = if k == 0 { (1.0f64 / 8.0).sqrt() } else { 0.5 };
    scale * ((2 * x + 1) as f64 * k as f64 * std::f64::consts::PI / 16.0).cos()
}

fn transformed(block: &Block<f64>, back: bool) -> [f64; 64] {
    let part = |k: usize, x: usize| if back { basis(x, k) } else { basis(k, x) };
    let mut rows = [0.0f64; 64];
    let mut r = [0.0f64; 64];
    for y in 0..8 {
        for k in 0..8 {
            rows[y * 8 + k] = (0..8).map(|x| block.0[y * 8 + x] * part(k, x)).sum();
        }
    }
    for k in 0..8 {
        for x in 0..8 {
            r[k * 8 + x] = (0..8).map(|y| rows[y * 8 + x] * part(k, y)).sum();
        }
    }
    r
}

fn dct8(block: &Block<f64>) -> Block<i16> {
    Block(transformed(block, false).map(|v| v.round() as i16))
}

fn idct8(block: &Block<i16>) -> Block<f64> {
    Block(transformed(&Block(block.0.map(|v| v as f64)), true))
}

fn dct16(block: &Block<f64>) -> Block<i32> {
    Block(transformed(block, false).map(|v| v.round() as i32))
}

fn idct16(block: &Block<i32>) -> Block<f64> {
    Block(transformed(&Block(block.0.map(|v| v as f64)), true))
}

#[derive(Clone, Copy)]
struct Ycbcr {
    y: f64,
    cb: f64,
    cr: f64,
}

fn ycbcr(rgb: &[f64]) -> Ycbcr {
    let y = 0.299 * rgb[0] + 0.587 * rgb[1] + 0.114 * rgb[2];
    Ycbcr { y, cb: 0.5 * (rgb[2] - y) / 0.886, cr: 0.5 * (rgb[0] - y) / 0.701 }
}

fn luma(pixel: &Ycbcr) -> f64 {
    pixel.y
}

fn mean(taken: &Vec<Ycbcr>) -> (f64, f64) {
    let n = taken.len() as f64;
    (taken.iter().map(|p| p.cb).sum::<f64>() / n, taken.iter().map(|p| p.cr).sum::<f64>() / n)
}

#[test]
fn compress_then_decompress_debug() {
    // Try with slightly larger image and different data ranges
    for dimensions in [(8usize, 8usize), (16, 16), (32, 32)] {
        for max_val in [255u16, 1023u16, 4095u16, 65535u16] {
            let size = dimensions.0 * dimensions.1 * 3;
            let dimensions = PixelDimensions { width: dimensions.0, height: dimensions.1 };

            // Create test data with the specified range
            let mut pixels = vec![0u16; size];
            for i in 0..size {
                pixels[i] = (i % (max_val as usize + 1)) as u16;
            }

            let original_image =
                ImageRgb16::new(dimensions, Rgb16::new(pixels), Subsampling::Sample444);

            let subsampling = Subsampling::Sample444;
            let samples: Vec<f64> =
                original_image.pixels().as_slice().iter().map(|v| *v as f64).collect();
            let ycbcr: Vec<Ycbcr> = samples.chunks(3).map(ycbcr).collect();
            let codec = Jpg { subsampling, image: original_image.as_ref() };

            // Compress
            let mut writer = BitStreamWriter::new();
            codec
                .compress_to_stream(dimensions, &ycbcr, &luma, &mean, &dct16, &mut writer)
                .expect("compress");
            let compressed_data = writer.into_inner();

            // Decompress
            let mut reader = BitStreamReader::new(compressed_data);
            let (subsampling, decoded) =
                decompress_from_stream::<i32, f64, _, _>(&idct16, &non_negative, &mut reader)
                    .expect("decompress");
            assert_eq!(subsampling, Subsampling::Sample444);
            assert_eq!(decoded.dimensions, dimensions);
            assert_eq!(decoded.y.len() * 3, size);
            for (y, pixel) in decoded.y.iter().zip(&ycbcr) {
                assert!((y - pixel.y).abs() < 400.0, "{} is far from {}", y, pixel.y);
            }
        }
    }
}

#[test]
fn a_uniform_image_comes_back_in_every_subsampling() {
    for subsampling in [
        Subsampling::Sample411,
        Subsampling::Sample420,
        Subsampling::Sample422,
        Subsampling::Sample444,
    ] {
        let dimensions = PixelDimensions { width: 64, height: 16 };
        let image = ImageRgb8::new(dimensions, Rgb8::new(vec![64; 3072]), subsampling);
        let pixels = vec![Ycbcr { y: 64.0, cb: 0.0, cr: 0.0 }; 1024];
        let codec = Jpg { subsampling, image: image.as_ref() };
        let mut writer = BitStreamWriter::new();
        codec.compress_to_stream(dimensions, &pixels, &luma, &mean, &dct8, &mut writer).unwrap();
        let mut reader = BitStreamReader::new(writer.into_inner());
        let (read, planes) =
            decompress_from_stream::<i16, f64, _, _>(&idct8, &non_negative, &mut reader).unwrap();
        assert_eq!(read, subsampling);
        assert_eq!(planes.dimensions, dimensions);
        assert_eq!(planes.y.len(), 1024);
        assert!(planes.y.iter().all(|v| (v - 64.0).abs() < 1e-9));
        assert!(planes.cb.iter().all(|v| *v == 0.0));
        assert!(planes.cr.iter().all(|v| *v == 0.0));
    }
}

#[test]
fn samples_are_clamped_before_planes_are_joined() {
    let blocks = [Block([-3.0f64; 64]), Block([5.0f64; 64])];
    let plane = assemble_plane(&non_negative, &blocks, 16, 8);
    assert_eq!(plane[..9], [0.0, 0.0, 0.0, 0.0, 0.0, 0.0, 0.0, 0.0, 5.0]);
    assert_eq!(plane.len(), 128);
}

#[test]
fn broken_images_are_refused() {
    let read = |bytes: Vec<u8>| {
        let mut reader = BitStreamReader::new(bytes);
        decompress_from_stream::<i16, f64, _, _>(&idct8, &non_negative, &mut reader).map(|_| ())
    };
    assert!(matches!(read(vec![]), Err(Error::FailedToDecode(part)) if part == "width"));
    assert!(matches!(read(vec![0; 4]), Err(Error::FailedToDecode(part)) if part == "height"));
    assert!(read(vec![0; 8]).is_err());
    assert!(read(vec![0, 0, 0, 8, 0, 0, 0, 8, 9]).is_err());
}

fn noisy(len: usize) -> Vec<u64> {
    let mut state = 0x2545_f491_4f6c_dd1du64;
    (0..len)
        .map(|_| {
            state ^= state << 13;
            state ^= state >> 7;
            state ^= state << 17;
            state >> 16
        })
        .collect()
}

fn lossless_round_trip<const DEPTH: usize, T: LosslessSample + PartialEq + std::fmt::Debug>(
    dimensions: PixelDimensions,
    samples: Vec<T>,
) -> Vec<u8> {
    let image =
        Image::new(dimensions, Pixels::<DEPTH, T>::new(samples.clone()), Subsampling::Sample444);
    let mut writer = BitStreamWriter::new();
    lossless::jpg::Jpg { image: image.as_ref() }.encode(&mut writer).unwrap();
    let bytes = writer.into_inner();
    let mut reader = BitStreamReader::new(bytes.clone());
    let read = lossless::jpg::Jpg::<Pixels<DEPTH, T>>::decode(&mut reader).unwrap();
    assert_eq!(read.dimensions(), dimensions);
    assert_eq!(read.pixels().as_slice(), &samples[..]);
    bytes
}

#[test]
fn samples_come_back_without_loss() {
    for (width, height) in [(1, 1), (1, 7), (9, 1), (13, 11)] {
        let dimensions = PixelDimensions { width, height };
        let noise = noisy(width * height * 4);
        lossless_round_trip::<1, u8>(
            dimensions,
            noise[..width * height].iter().map(|v| *v as u8).collect(),
        );
        lossless_round_trip::<3, u8>(
            dimensions,
            noise[..width * height * 3].iter().map(|v| *v as u8).collect(),
        );
        lossless_round_trip::<4, u8>(dimensions, noise.iter().map(|v| *v as u8).collect());
        lossless_round_trip::<3, u16>(
            dimensions,
            noise[..width * height * 3].iter().map(|v| *v as u16).collect(),
        );
        lossless_round_trip::<4, u16>(dimensions, noise.iter().map(|v| *v as u16).collect());
    }
}

#[test]
fn smooth_images_shrink() {
    let dimensions = PixelDimensions { width: 64, height: 64 };
    let samples: Vec<u8> = (0..64 * 64).map(|i| (i / 64 + i % 64) as u8).collect();
    let bytes = lossless_round_trip::<1, u8>(dimensions, samples.clone());
    assert!(bytes.len() < samples.len() / 2);
}

#[test]
fn broken_lossless_images_are_refused() {
    let read = |bytes: Vec<u8>| {
        lossless::jpg::Jpg::<Rgb8>::decode(&mut BitStreamReader::new(bytes)).map(|_| ())
    };
    let part = |bytes: Vec<u8>| match read(bytes) {
        Err(Error::FailedToDecode(part)) => part,
        _ => panic!("not refused"),
    };
    assert_eq!(part(vec![]), "width");
    assert_eq!(part(vec![0; 4]), "height");
    assert_eq!(part(vec![0; 8]), "depth");
    assert_eq!(part(vec![0; 9]), "stride");
    let header = |width: u8, height: u8, depth: u8, stride: u8| {
        let mut bytes = vec![0, 0, 0, width, 0, 0, 0, height, depth];
        bytes.extend([0, 0, 0, 0, 0, 0, 0, stride]);
        bytes
    };
    assert!(matches!(read(header(1, 1, 0, 3)), Err(Error::InvalidDepth(0))));
    assert!(matches!(
        read(header(0, 1, 3, 3)),
        Err(Error::InvalidDimensions { width: 0, height: 1 })
    ));
    assert!(matches!(read(header(1, 1, 3, 0)), Err(Error::InvalidStride(0))));
    assert!(matches!(read(header(9, 9, 3, 27)), Err(Error::Io(IoErrorKind::UnexpectedEof))));
}

#[test]
fn lines_may_be_longer_than_they_are_apart() {
    let read = |samples: &[u8]| {
        // Two lines of two samples, one sample apart.
        let mut bytes = vec![0, 0, 0, 2, 0, 0, 0, 2, 1, 0, 0, 0, 0, 0, 0, 0, 1];
        bytes.extend(samples);
        lossless::jpg::Jpg::<Grey>::decode(&mut BitStreamReader::new(bytes)).map(|_| ())
    };
    assert!(matches!(read(&[]), Err(Error::Io(IoErrorKind::UnexpectedEof))));
    // Three samples lie in the image.
    assert!(matches!(read(&[0b0000_0111]), Err(Error::Io(IoErrorKind::UnexpectedEof))));
    assert!(matches!(read(&[0b1111_0000]), Err(Error::BufferOverflow)));
}

#[test]
fn missing_low_bits_count_as_zero() {
    // One sample of 12, two of zero, and a code with two of its three low
    // bits, which are read again as the codes of the last two samples.
    let mut bytes = vec![0, 0, 0, 1, 0, 0, 0, 2, 3, 0, 0, 0, 0, 0, 0, 0, 3];
    bytes.extend([0, 0, 0, 0b1110_0111]);
    let image = lossless::jpg::Jpg::<Rgb8>::decode(&mut BitStreamReader::new(bytes)).unwrap();
    assert_eq!(image.pixels().as_slice(), [12, 0, 0, 20, 0, 0]);

    let read = |tail: &[u8]| {
        let mut bytes = vec![0, 0, 0, 1, 0, 0, 0, 2, 3, 0, 0, 0, 3];
        bytes.extend([0; 1000]);
        bytes.extend(tail);
        lossless::jpg::Jpg::<Rgb16>::decode(&mut BitStreamReader::new(bytes))
    };
    // Ten of twelve low bits: the whole byte among them is gone, the two bits
    // before it are read again.
    let image = read(&[0b1110_0111, 0b0101_0101]).unwrap();
    assert_eq!(image.pixels().as_slice(), [4000, 0, 0, 8096, 0, 0]);
    // Four of twelve low bits, with eight missing: nothing is left.
    assert!(matches!(read(&[0b1111_1111]), Err(Error::Io(IoErrorKind::UnexpectedEof))));
}

#[test]
fn pixels_are_found_by_row_and_column() {
    let dimensions = PixelDimensions { width: 3, height: 2 };
    let mut image =
        ImageRgba8::new(dimensions, Rgba8::new((0..24).collect()), Subsampling::Sample420);
    assert_eq!(image.depth(), 4);
    assert_eq!(image.line_stride(), 12);
    assert_eq!(image.subsampling(), Subsampling::Sample420);
    assert_eq!(image.pixel((1, 2)), 14);
    image.update_pixel((1, 2), 99);
    assert_eq!(image.pixel((1, 2)), 99);
    image.pixels_mut();
    let borrowed = image.as_ref();
    assert_eq!(borrowed.dimensions(), dimensions);
    assert_eq!(borrowed.depth(), 4);
    assert_eq!(borrowed.line_stride(), 12);
    assert_eq!(borrowed.pixels().as_slice()[14], 99);
    let grey = ImageGrey::new(dimensions, Grey::new(vec![7; 6]), Subsampling::Sample444);
    assert_eq!(grey.depth(), 1);
    assert_eq!(grey.line_stride(), 3);
}
