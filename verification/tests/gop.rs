use vidoc::bitstream::{BitStreamReader, BitStreamWriter};
use vidoc::block::quantization::Quantizor;
use vidoc::block::{Block, Blocks};
use vidoc::color::Subsampling;
use vidoc::dimensions::{BlockDimensions, PixelDimensions};
use vidoc::error::{Error, Result};
use vidoc::lossy::frame::gop::encode::{encode_bframe, Transform};
use vidoc::lossy::frame::gop::frames_reader::FramesReader;
use vidoc::lossy::frame::gop::frames_writer::{FrameStream, FramesWriter};
use vidoc::lossy::frame::gop::header::GroupOfPicturesHeader;
use vidoc::lossy::frame::gop::reader::GroupOfPicturesReader;
use vidoc::lossy::frame::gop::scene::detect_scene_change;
use vidoc::lossy::frame::gop::writer::{encode_batch, GroupOfPicturesWriter};
use vidoc::lossy::frame::gop::{DecodedFrame, FrameOrder, FrameReader};
use vidoc::lossy::frame::macroblock::block_location::BlockLocation;
use vidoc::lossy::frame::macroblock::bmacro::{BMacroBlock, BMacroBlocks, Prediction};
use vidoc::lossy::frame::macroblock::Residuals;
use vidoc::lossy::frame::motion_vector::MotionVector;
use vidoc::lossy::frame::prediction::Plane;
use vidoc::lossy::frame::Kind;
use vidoc::lossy::SubSampleBlockGroup;
use vidoc::point::Point;

fn basis(k: usize, x: usize) -> f64 {
    let scale = if k == 0 { (1.0f64 / 8.0).sqrt() } else { 0.5 };
    scale * ((2 * x + 1) as f64 * k as f64 * std::f64::consts::PI / 16.0).cos()
}

fn forward(block: &Block<i16>) -> [f64; 64] {
    let mut rows = [0.0f64; 64];
    let mut r = [0.0f64; 64];
    for y in 0..8 {
        for k in 0..8 {
            rows[y * 8 + k] = (0..8).map(|x| block.0[y * 8 + x] as f64 * basis(k, x)).sum();
        }
    }
    for k in 0..8 {
        for x in 0..8 {
            r[k * 8 + x] = (0..8).map(|y| rows[y * 8 + x] * basis(k, y)).sum();
        }
    }
    r
}

fn backward(block: &[f64; 64]) -> [f64; 64] {
    let mut rows = [0.0f64; 64];
    let mut r = [0.0f64; 64];
    for y in 0..8 {
        for x in 0..8 {
            rows[y * 8 + x] = (0..8).map(|k| block[y * 8 + k] * basis(k, x)).sum();
        }
    }
    for y in 0..8 {
        for x in 0..8 {
            r[y * 8 + x] = (0..8).map(|k| rows[k * 8 + x] * basis(k, y)).sum();
        }
    }
    r
}

fn rounded(block: &[f64; 64]) -> Block<i16> {
    let mut r = [0i16; 64];
    for i in 0..64 {
        r[i] = block[i].round() as i16;
    }
    Block(r)
}

fn dct(block: &Block<i16>) -> Block<i16> {
    rounded(&forward(block))
}

fn idct(block: &Block<i16>) -> Block<i16> {
    let mut wide = [0.0f64; 64];
    for i in 0..64 {
        wide[i] = block.0[i] as f64;
    }
    rounded(&backward(&wide))
}

fn steps(plane: Plane) -> Block<i16> {
    match plane {
        Plane::Luma => *Quantizor::<i16>::video_luminance().steps(),
        Plane::Chroma => *Quantizor::<i16>::video_chrominance().steps(),
    }
}

fn code(plane: Plane, residual: &Block<i16>) -> Block<i16> {
    let steps = steps(plane);
    let mut coefficients = forward(residual);
    for i in 0..64 {
        coefficients[i] /= steps.0[i] as f64;
    }
    rounded(&coefficients)
}

fn restore(plane: Plane, prediction: &Block<i16>, residual: &Block<i16>) -> Block<i16> {
    let steps = steps(plane);
    let mut coefficients = [0.0f64; 64];
    for i in 0..64 {
        coefficients[i] = residual.0[i] as f64 * steps.0[i] as f64;
    }
    let mut r = backward(&coefficients);
    for i in 0..64 {
        r[i] = (prediction.0[i] as f64 + r[i]).clamp(i16::MIN as f64, i16::MAX as f64);
    }
    rounded(&r)
}

struct VecFrameReader {
    frames: Vec<SubSampleBlockGroup<i16>>,
    index: usize,
}

impl FrameReader<i16> for VecFrameReader {
    fn read_frame(&mut self) -> Result<Option<SubSampleBlockGroup<i16>>> {
        if self.index < self.frames.len() {
            let frame = self.frames[self.index].clone();
            self.index += 1;
            Ok(Some(frame))
        } else {
            Ok(None)
        }
    }
}

struct FailingReader;

impl FrameReader<i16> for FailingReader {
    fn read_frame(&mut self) -> Result<Option<SubSampleBlockGroup<i16>>> {
        Err(Error::BufferOverflow)
    }
}

fn make_frame(width: usize, height: usize, luma: i16) -> SubSampleBlockGroup<i16> {
    let mut block = Block::<i16>::default();
    for r in 0..8 {
        for c in 0..8 {
            block.set(r, c, luma);
        }
    }
    SubSampleBlockGroup {
        dimensions: BlockDimensions { width, height },
        subsampling: Subsampling::Sample420,
        y: vec![block; width * height],
        cb: vec![Block::<i16>::default(); width * height / 4],
        cr: vec![Block::<i16>::default(); width * height / 4],
    }
}

fn make_gradient_frame(width: usize, height: usize, base: i16) -> SubSampleBlockGroup<i16> {
    let y: Vec<Block<i16>> = (0..width * height)
        .map(|i| {
            let mut b = Block::<i16>::default();
            let (brow, bcol) = (i / width, i % width);
            for r in 0..8 {
                for c in 0..8 {
                    b.set(
                        r,
                        c,
                        base + ((brow * 8 + r) as i16 % 50) + ((bcol * 8 + c) as i16 % 50),
                    );
                }
            }
            b
        })
        .collect();
    SubSampleBlockGroup {
        dimensions: BlockDimensions { width, height },
        subsampling: Subsampling::Sample420,
        y,
        cb: vec![Block::<i16>::default(); width * height / 4],
        cr: vec![Block::<i16>::default(); width * height / 4],
    }
}

fn mse(a: &SubSampleBlockGroup<i16>, b: &SubSampleBlockGroup<i16>) -> f64 {
    let mut sq = 0i64;
    let mut n = 0i64;
    for (ab, bb) in a.y.iter().zip(b.y.iter()) {
        for r in 0..8 {
            for c in 0..8 {
                let d = ab.get(r, c) as i64 - bb.get(r, c) as i64;
                sq += d * d;
                n += 1;
            }
        }
    }
    sq as f64 / n as f64
}

fn psnr(mse: f64) -> f64 {
    if mse == 0.0 {
        f64::INFINITY
    } else {
        20.0 * (255.0_f64 / mse.sqrt()).log10()
    }
}

fn order(anchor_distance: usize, full_image_distance: usize) -> FrameOrder {
    FrameOrder { anchor_distance, full_image_distance, ..FrameOrder::with_parallelism(None) }
}

fn grouped(frames: Vec<SubSampleBlockGroup<i16>>, ordering: FrameOrder) -> Vec<u8> {
    let mut writer = GroupOfPicturesWriter::new(VecFrameReader { frames, index: 0 }, ordering);
    let mut stream = BitStreamWriter::new();
    writer.encode(&Transform { dct, idct, code, restore }, &mut stream).unwrap();
    stream.into_inner()
}

fn streamed(frames: Vec<SubSampleBlockGroup<i16>>, ordering: FrameOrder) -> Vec<u8> {
    let mut writer = FramesWriter::new(VecFrameReader { frames, index: 0 }, ordering);
    let mut stream = BitStreamWriter::new();
    writer.encode(&Transform { dct, idct, code, restore }, &mut stream).unwrap();
    stream.into_inner()
}

fn read_groups(bytes: Vec<u8>, ordering: FrameOrder) -> Vec<DecodedFrame> {
    let mut reader = GroupOfPicturesReader::new(bytes, ordering);
    let mut frames = vec![];
    while let Some(frame) = reader.next(&idct, &restore) {
        frames.push(frame.unwrap());
    }
    frames
}

fn read_frames(bytes: Vec<u8>) -> Vec<DecodedFrame> {
    let mut reader = FramesReader::new(bytes);
    let mut frames = vec![];
    while let Some(frame) = reader.next(&idct, &restore) {
        frames.push(frame.unwrap());
    }
    frames
}

fn encode_decode(
    frames: Vec<SubSampleBlockGroup<i16>>,
    ordering: FrameOrder,
) -> Vec<DecodedFrame> {
    read_groups(grouped(frames, ordering), ordering)
}

#[test]
fn test_gop_frame_pattern() {
    let ordering = order(3, 12);
    let expected = [
        Kind::I,
        Kind::B,
        Kind::B,
        Kind::P,
        Kind::B,
        Kind::B,
        Kind::P,
        Kind::B,
        Kind::B,
        Kind::P,
        Kind::B,
        Kind::B,
    ];
    for (idx, &exp) in expected.iter().enumerate() {
        assert_eq!(ordering.frame_kind(idx), exp, "frame {idx}");
    }
    assert_eq!(ordering.frame_kind(12), Kind::I);
}

#[test]
fn test_identical_frames() {
    let ordering = order(3, 12);
    let frames: Vec<_> = (0..12).map(|_| make_frame(8, 8, 128)).collect();
    let original = frames.clone();
    let decoded = encode_decode(frames, ordering);
    assert_eq!(decoded.len(), original.len());
    for (i, (orig, dec)) in original.iter().zip(&decoded).enumerate() {
        let p = psnr(mse(orig, &dec.data));
        assert!(p > 40.0 || p.is_infinite(), "frame {i}: PSNR {p:.2} dB");
    }
}

#[test]
fn test_gradient_frames_quality() {
    let ordering = order(3, 12);
    let frames: Vec<_> = (0..24)
        .map(|i| make_gradient_frame(16, 12, 100 + i as i16 * 10))
        .collect();
    let original = frames.clone();
    let decoded = encode_decode(frames, ordering);
    assert_eq!(decoded.len(), original.len());

    let mut i_psnrs = vec![];
    let mut p_psnrs = vec![];
    let mut b_psnrs = vec![];

    for (orig, dec) in original.iter().zip(&decoded) {
        let p = psnr(mse(orig, &dec.data));
        match dec.kind {
            Kind::I => i_psnrs.push(p),
            Kind::P => p_psnrs.push(p),
            Kind::B => b_psnrs.push(p),
        }
    }

    let avg = |v: &[f64]| v.iter().sum::<f64>() / v.len() as f64;
    assert!(
        avg(&i_psnrs) > 35.0,
        "I-frame avg PSNR: {:.2}",
        avg(&i_psnrs)
    );
    assert!(
        avg(&p_psnrs) > 30.0,
        "P-frame avg PSNR: {:.2}",
        avg(&p_psnrs)
    );
    assert!(
        avg(&b_psnrs) > 20.0,
        "B-frame avg PSNR: {:.2}",
        avg(&b_psnrs)
    );
}

#[test]
fn test_streaming_reader_bframe_order() {
    // FramesReader must emit frames in display order even when B-frames
    // are buffered pending their forward anchor.
    let ordering = order(3, 12);
    let frames: Vec<_> = (0..12)
        .map(|i| make_gradient_frame(8, 8, 80 + i as i16 * 5))
        .collect();

    // Encode with GroupOfPicturesWriter (produces real B-frames)
    let buf = grouped(frames, ordering);

    // Decode with FramesReader — should emit all 12 frames in display order
    let decoded = read_frames(buf);

    assert_eq!(decoded.len(), 12, "should decode all 12 frames");

    // Verify display order matches the original GOP pattern
    let expected_kinds = [
        Kind::I,
        Kind::B,
        Kind::B,
        Kind::P,
        Kind::B,
        Kind::B,
        Kind::P,
        Kind::B,
        Kind::B,
        Kind::P,
        Kind::B,
        Kind::B,
    ];
    for (i, (dec, &exp)) in decoded.iter().zip(expected_kinds.iter()).enumerate() {
        assert_eq!(dec.kind, exp, "frame {i} kind mismatch");
    }
}

fn kinds(frames: &[DecodedFrame]) -> Vec<Kind> {
    frames.iter().map(|f| f.kind).collect()
}

#[test]
fn an_order_repeats_its_pattern() {
    let order = order(3, 10);
    let expected = [
        Kind::I, Kind::B, Kind::B, Kind::P, Kind::B, Kind::B, Kind::P, Kind::B, Kind::B, Kind::P,
    ];
    for pos in 0..10 {
        assert_eq!(order.frame_kind(pos), expected[pos]);
        assert_eq!(order.gop_frame_kind(pos), expected[pos]);
    }
    assert_eq!(order.frame_kind(10), Kind::I);
    assert_eq!(order.frame_kind(12), order.frame_kind(2));
    assert_eq!(order.frame_kind(13), Kind::P);
    assert_eq!(order.gop_frame_kind(10), Kind::I);
    assert_eq!(order.effective_parallel_gops(), 4);
    assert_eq!(FrameOrder::with_parallelism(Some(0)).effective_parallel_gops(), 1);
    assert_eq!(FrameOrder::with_parallelism(Some(7)).effective_parallel_gops(), 7);
}

#[test]
fn both_readers_give_the_same_frames() {
    let ordering = order(3, 7);
    let frames: Vec<_> = (0..12).map(|i| make_gradient_frame(4, 4, 40 + 9 * i as i16)).collect();
    let bytes = grouped(frames, ordering);
    let groups = read_groups(bytes.clone(), ordering);
    let single = read_frames(bytes);
    assert_eq!(kinds(&groups), kinds(&single));
    assert_eq!(
        kinds(&groups),
        [
            Kind::I, Kind::B, Kind::B, Kind::P, Kind::B, Kind::B, Kind::P, Kind::I, Kind::B,
            Kind::B, Kind::P, Kind::B,
        ]
    );
    for i in [0, 1, 2, 3, 4, 5, 6, 7, 8, 9, 10] {
        assert_eq!(groups[i].data.y, single[i].data.y);
        assert_eq!(groups[i].data.cb, single[i].data.cb);
        assert_eq!(groups[i].data.cr, single[i].data.cr);
    }
}

#[test]
fn a_group_of_uniform_frames_comes_back_exactly() {
    let ordering = order(2, 4);
    let frames: Vec<_> = (0..9).map(|i| make_frame(4, 2, 16 * (i % 3) as i16)).collect();
    let decoded = encode_decode(frames.clone(), ordering);
    assert_eq!(decoded.len(), 9);
    for (frame, read) in frames.iter().zip(&decoded) {
        assert_eq!(frame.dimensions, read.data.dimensions);
        assert_eq!(frame.subsampling, read.data.subsampling);
        assert_eq!(frame.y, read.data.y);
        assert_eq!(frame.cb, read.data.cb);
        assert_eq!(frame.cr, read.data.cr);
    }
}

#[test]
fn the_number_of_threads_changes_nothing() {
    let frames: Vec<_> = (0..10).map(|i| make_gradient_frame(4, 4, 30 + 5 * i as i16)).collect();
    let one = FrameOrder { anchor_distance: 2, full_image_distance: 3, parallel_gops: 1 };
    let many = FrameOrder { parallel_gops: 4, ..one };
    assert_eq!(grouped(frames.clone(), one), grouped(frames, many));
}

#[test]
fn a_video_without_frames_is_an_end_mark() {
    assert_eq!(grouped(vec![], order(3, 12)), [1]);
    assert_eq!(streamed(vec![], order(3, 12)), [1]);
    assert!(read_frames(vec![1]).is_empty());
    assert!(read_groups(vec![1], order(3, 12)).is_empty());
}

#[test]
fn streamed_frames_come_back_in_order() {
    let frames: Vec<_> = (0..7)
        .map(|i| {
            let mut frame = make_frame(4, 4, 64);
            frame.y[i].0[9] += 20;
            frame
        })
        .collect();
    let decoded = read_frames(streamed(frames.clone(), order(2, 4)));
    assert_eq!(
        kinds(&decoded),
        [Kind::I, Kind::P, Kind::P, Kind::P, Kind::I, Kind::P, Kind::P]
    );
    for (frame, read) in frames.iter().zip(&decoded) {
        assert!(psnr(mse(frame, &read.data)) > 40.0);
    }
}

#[test]
fn a_new_scene_is_streamed_as_a_full_image() {
    let mut frames: Vec<_> = (0..3).map(|_| make_frame(4, 4, 10)).collect();
    frames.push(make_frame(4, 4, 200));
    frames.push(make_frame(4, 4, 200));
    let decoded = read_frames(streamed(frames, order(2, 12)));
    assert_eq!(kinds(&decoded), [Kind::I, Kind::P, Kind::P, Kind::I, Kind::P]);
}

#[test]
fn scenes_are_told_apart_by_luma() {
    let dark = make_frame(4, 4, 10);
    let near = make_frame(4, 4, 10);
    assert!(!detect_scene_change(&dark.as_ref(), &near.as_ref()));
    let mut edge = make_frame(4, 4, 10);
    for block in edge.y.iter_mut() {
        block.0[0] += 30;
    }
    assert!(!detect_scene_change(&dark.as_ref(), &edge.as_ref()));
    for block in edge.y.iter_mut() {
        block.0[63] -= 1;
    }
    assert!(detect_scene_change(&dark.as_ref(), &edge.as_ref()));
    let larger = make_frame(8, 4, 10);
    assert!(detect_scene_change(&dark.as_ref(), &larger.as_ref()));
    let fewer = SubSampleBlockGroup { y: vec![], ..make_frame(4, 4, 10) };
    assert!(detect_scene_change(&dark.as_ref(), &fewer.as_ref()));
    let empty = SubSampleBlockGroup {
        dimensions: BlockDimensions { width: 0, height: 4 },
        ..make_frame(4, 4, 10)
    };
    assert!(!detect_scene_change(&empty.as_ref(), &empty.as_ref()));
}

#[test]
fn a_failing_source_fails_the_writers() {
    let transform = Transform { dct, idct, code, restore };
    let mut stream = BitStreamWriter::new();
    let r = GroupOfPicturesWriter::new(FailingReader, order(3, 12)).encode(&transform, &mut stream);
    assert!(matches!(r, Err(Error::BufferOverflow)));
    let r = FramesWriter::new(FailingReader, order(3, 12)).encode(&transform, &mut stream);
    assert!(matches!(r, Err(Error::BufferOverflow)));
}

#[test]
fn frame_headers_come_back() {
    for kind in [Kind::B, Kind::I, Kind::P] {
        let header = GroupOfPicturesHeader::Frame {
            subsampling: Subsampling::Sample422,
            dimensions: PixelDimensions { width: 640, height: 480 },
            kind,
        };
        let mut stream = BitStreamWriter::new();
        header.encode(&mut stream).unwrap();
        let bytes = stream.into_inner();
        assert_eq!(bytes.len(), 11);
        assert_eq!(bytes[..10], [0, 2, 0, 0, 2, 128, 0, 0, 1, 224]);
        match GroupOfPicturesHeader::decode(&mut BitStreamReader::new(bytes)).unwrap() {
            GroupOfPicturesHeader::Frame { subsampling, dimensions, kind: read } => {
                assert_eq!(subsampling, Subsampling::Sample422);
                assert_eq!(dimensions, PixelDimensions { width: 640, height: 480 });
                assert_eq!(read, kind);
            }
            GroupOfPicturesHeader::End => panic!("not an end"),
        }
    }
    let end = GroupOfPicturesHeader::decode(&mut BitStreamReader::new(vec![1])).unwrap();
    assert!(matches!(end, GroupOfPicturesHeader::End));
}

#[test]
fn broken_frame_headers_are_refused() {
    let part = |bytes: &[u8]| {
        match GroupOfPicturesHeader::decode(&mut BitStreamReader::new(bytes.to_vec())) {
            Err(Error::FailedToDecode(part)) => part,
            _ => panic!("not refused"),
        }
    };
    assert_eq!(part(&[]), "header type");
    assert_eq!(part(&[0]), "subsampling");
    assert_eq!(part(&[0, 1]), "width");
    assert_eq!(part(&[0, 1, 0, 0, 0, 8]), "height");
    assert_eq!(part(&[0, 1, 0, 0, 0, 8, 0, 0, 0, 8]), "kind");
    for bytes in [vec![0, 4], vec![0, 1, 0, 0, 0, 8, 0, 0, 0, 8, 0]] {
        let r = GroupOfPicturesHeader::decode(&mut BitStreamReader::new(bytes));
        assert!(matches!(r, Err(Error::InvalidData)));
    }
}

#[test]
fn readers_refuse_broken_streams() {
    let bytes = grouped(vec![make_frame(2, 2, 40)], order(3, 12));
    let cut = bytes[..bytes.len() - 4].to_vec();
    assert!(matches!(FramesReader::new(cut.clone()).next(&idct, &restore), Some(Err(_))));
    let mut reader = GroupOfPicturesReader::new(cut, order(3, 12));
    assert!(matches!(reader.next(&idct, &restore), Some(Err(_))));
    let mut alone = bytes.clone();
    alone[10] = grouped_kind_of_p();
    assert!(matches!(FramesReader::new(alone).next(&idct, &restore), Some(Err(_))));
}

fn grouped_kind_of_p() -> u8 {
    u8::from(Kind::P)
}

#[test]
fn frames_at_the_end_that_look_ahead_are_shown() {
    let anchor = make_frame(4, 4, 64);
    let ahead = make_frame(4, 4, 80);
    let mut bytes = grouped(vec![anchor.clone()], order(3, 12));
    assert_eq!(bytes.pop(), Some(1));
    let chunk = encode_bframe(&code, &ahead.as_ref(), Some(ahead.as_ref()), &anchor.as_ref());
    bytes.extend(chunk.unwrap());
    bytes.push(1);
    let shown = read_frames(bytes);
    assert_eq!(kinds(&shown), [Kind::I, Kind::B]);
    assert_eq!(shown[0].data.y, anchor.y);
    assert_eq!(shown[1].data.y, anchor.y);
}

#[test]
fn calls_behind_the_last_frame_give_none() {
    let frames: Vec<_> = (0..5)
        .map(|i| {
            let mut frame = make_frame(4, 4, 64);
            frame.y[i].0[9] += 20;
            frame
        })
        .collect();
    let expected = [Kind::I, Kind::B, Kind::B, Kind::P, Kind::I];
    let mut reader = FramesReader::new(grouped(frames.clone(), order(3, 4)));
    for kind in expected {
        assert_eq!(reader.next(&idct, &restore).unwrap().unwrap().kind, kind);
    }
    for _ in 0..3 {
        assert!(reader.next(&idct, &restore).is_none());
    }
    let expected = [Kind::I, Kind::P, Kind::P, Kind::P, Kind::I];
    let mut reader = FramesReader::new(streamed(frames, order(3, 4)));
    for kind in expected {
        assert_eq!(reader.next(&idct, &restore).unwrap().unwrap().kind, kind);
    }
    for _ in 0..3 {
        assert!(reader.next(&idct, &restore).is_none());
    }
}

#[test]
fn a_video_can_be_handed_on_in_parts() {
    let frames: Vec<_> = (0..9).map(|i| make_gradient_frame(4, 4, 30 + i as i16)).collect();
    let ordering = order(2, 4);
    let transform = Transform { dct, idct, code, restore };
    let mut parts = vec![];
    let mut single = FrameStream::new(ordering);
    for frame in frames.clone() {
        let mut stream = BitStreamWriter::new();
        single.write_frame(&transform, frame, &mut stream).unwrap();
        parts.extend(stream.into_inner());
    }
    parts.push(1);
    assert_eq!(parts, streamed(frames.clone(), ordering));
    let ordering = FrameOrder { parallel_gops: 2, ..ordering };
    let content = VecFrameReader { frames: frames.clone(), index: 0 };
    let mut writer = GroupOfPicturesWriter::new(content, ordering);
    let mut parts = vec![];
    let mut sizes = vec![];
    loop {
        let batch = writer.collect_batch().unwrap();
        if batch.is_empty() {
            break;
        }
        sizes.push(batch.len());
        let mut stream = BitStreamWriter::new();
        encode_batch(&transform, &batch, ordering, &mut stream).unwrap();
        parts.extend(stream.into_inner());
    }
    parts.push(1);
    assert_eq!(sizes, [2, 1]);
    assert_eq!(parts, grouped(frames, ordering));
}

fn one_macro_bframe(place: Point) -> Vec<u8> {
    let mut stream = BitStreamWriter::new();
    GroupOfPicturesHeader::Frame {
        subsampling: Subsampling::Sample420,
        dimensions: PixelDimensions { width: 32, height: 32 },
        kind: Kind::B,
    }
    .encode(&mut stream)
    .unwrap();
    let macro_block = BMacroBlock {
        location: BlockLocation { start: place, end: place },
        prediction: Prediction::Forward(MotionVector { x: 0, y: 0 }),
        residuals: Residuals {
            y: Blocks::<i16>::new(vec![]),
            cb: Blocks::new(vec![]),
            cr: Blocks::new(vec![]),
        },
    };
    BMacroBlocks::new(vec![macro_block]).encode(&mut stream).unwrap();
    stream.align_to_byte().unwrap();
    stream.into_inner()
}

#[test]
fn macroblocks_outside_a_frame_need_no_anchor() {
    let anchor = make_frame(4, 4, 64);
    let mut bytes = grouped(vec![anchor.clone()], order(3, 12));
    assert_eq!(bytes.pop(), Some(1));
    let mut outside = bytes.clone();
    outside.extend(one_macro_bframe(Point { row: 100, col: 100 }));
    outside.push(1);
    let shown = read_groups(outside, order(3, 12));
    assert_eq!(kinds(&shown), [Kind::I, Kind::B]);
    assert_eq!(shown[1].data.y, anchor.y);
    let mut inside = bytes;
    inside.extend(one_macro_bframe(Point { row: 1, col: 1 }));
    inside.push(1);
    let mut reader = GroupOfPicturesReader::new(inside, order(3, 12));
    assert!(matches!(reader.next(&idct, &restore), Some(Err(Error::InvalidData))));
}

#[test]
fn frames_that_are_held_back_outlive_an_error() {
    let anchor = make_frame(4, 4, 64);
    let mut bytes = grouped(vec![anchor.clone()], order(3, 12));
    assert_eq!(bytes.pop(), Some(1));
    bytes.extend(one_macro_bframe(Point { row: 100, col: 100 }));
    bytes.extend([0, 9, 1]);
    let mut reader = FramesReader::new(bytes);
    assert_eq!(reader.next(&idct, &restore).unwrap().unwrap().kind, Kind::I);
    assert!(matches!(reader.next(&idct, &restore), Some(Err(Error::InvalidData))));
    let shown = reader.next(&idct, &restore).unwrap().unwrap();
    assert_eq!(shown.kind, Kind::B);
    assert_eq!(shown.data.y, anchor.y);
    assert!(reader.next(&idct, &restore).is_none());
}

struct BrokenReader {
    frames: Vec<SubSampleBlockGroup<i16>>,
    index: usize,
}

impl FrameReader<i16> for BrokenReader {
    fn read_frame(&mut self) -> Result<Option<SubSampleBlockGroup<i16>>> {
        if self.index < self.frames.len() {
            self.index += 1;
            Ok(Some(self.frames[self.index - 1].clone()))
        } else {
            Err(Error::BufferOverflow)
        }
    }
}

#[test]
fn what_came_before_an_error_of_the_source_is_written() {
    let frames: Vec<_> = (0..5).map(|_| make_frame(4, 4, 64)).collect();
    let transform = Transform { dct, idct, code, restore };
    let ordering = FrameOrder { parallel_gops: 2, ..order(1, 2) };
    let content = BrokenReader { frames: frames.clone(), index: 0 };
    let mut stream = BitStreamWriter::new();
    let r = GroupOfPicturesWriter::new(content, ordering).encode(&transform, &mut stream);
    assert!(matches!(r, Err(Error::BufferOverflow)));
    let mut expected = grouped(frames[..4].to_vec(), ordering);
    assert_eq!(expected.pop(), Some(1));
    assert_eq!(stream.into_inner(), expected);
    let content = BrokenReader { frames: frames.clone(), index: 0 };
    let mut stream = BitStreamWriter::new();
    let r = FramesWriter::new(content, ordering).encode(&transform, &mut stream);
    assert!(matches!(r, Err(Error::BufferOverflow)));
    let mut expected = streamed(frames, ordering);
    assert_eq!(expected.pop(), Some(1));
    assert_eq!(stream.into_inner(), expected);
}

#[test]
fn frames_are_streamed_where_cr_has_what_is_reached() {
    let frame = |cr: usize, width: usize| SubSampleBlockGroup {
        dimensions: BlockDimensions { width, height: 1 },
        subsampling: Subsampling::Sample444,
        y: vec![Block([64i16; 64]); width],
        cb: vec![Block([0i16; 64]); 2],
        cr: vec![Block([0i16; 64]); cr],
    };
    let transform = Transform { dct, idct, code, restore };
    let mut stream = BitStreamWriter::new();
    let mut frames = FrameStream::new(order(2, 4));
    frames.write_frame(&transform, frame(1, 1), &mut stream).unwrap();
    frames.write_frame(&transform, frame(1, 1), &mut stream).unwrap();
    let mut stream = BitStreamWriter::new();
    let mut frames = FrameStream::new(order(2, 4));
    frames.write_frame(&transform, frame(1, 2), &mut stream).unwrap();
    let r = frames.write_frame(&transform, frame(1, 2), &mut stream);
    assert!(matches!(r, Err(Error::InvalidData)));
}
