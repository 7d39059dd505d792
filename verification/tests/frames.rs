use vidoc::bitstream::{BitStreamReader, BitStreamWriter};
use vidoc::block::quantization::Quantizor;
use vidoc::block::Block;
use vidoc::bytes::{FromBytes, ToBytes};
use vidoc::color::Subsampling;
use vidoc::dimensions::{BlockDimensions, PixelDimensions};
use vidoc::error::{Error, IoErrorKind, Result};
use vidoc::lossy::frame::bframe::BFrame;
use vidoc::lossy::frame::iframe::IFrame;
use vidoc::lossy::frame::macroblock::block_location::BlockLocation;
use vidoc::lossy::frame::macroblock::bmacro::{BMacroBlock, Prediction};
use vidoc::lossy::frame::motion_vector::MotionVector;
use vidoc::lossy::frame::pframe::PFrame;
use vidoc::lossy::frame::prediction::{build_predicted_blocks, Plane};
use vidoc::lossy::{subsample_into_block_ycbcr, SubSampleBlockGroup};
use vidoc::point::Point;

fn basis(k: usize, x: usize) -> f64 {
    let scale = if k == 0 { (1.0f64 / 8.0).sqrt() } else { 0.5 };
    scale * ((2 * x + 1) as f64 * k as f64 * std::f64::consts::PI / 16.0).cos()
}

fn forward(block: &Block<i16>) -> [f64; 64] {
    let mut rows = [0.0f64; 64];
    let mut r = [0.0f64; 64];
    for y in 0..8 {
        for k in 0..8 {
            rows[y * 8 + k] = (0..8).map(|x| block.0[y * 8 + x] as f64 * basis(k, x)).sum();
        }
    }
    for k in 0..8 {
        for x in 0..8 {
            r[k * 8 + x] = (0..8).map(|y| rows[y * 8 + x] * basis(k, y)).sum();
        }
    }
    r
}

fn backward(block: &[f64; 64]) -> [f64; 64] {
    let mut rows = [0.0f64; 64];
    let mut r = [0.0f64; 64];
    for y in 0..8 {
        for x in 0..8 {
            rows[y * 8 + x] = (0..8).map(|k| block[y * 8 + k] * basis(k, x)).sum();
        }
    }
    for y in 0..8 {
        for x in 0..8 {
            r[y * 8 + x] = (0..8).map(|k| rows[k * 8 + x] * basis(k, y)).sum();
        }
    }
    r
}

fn rounded(block: &[f64; 64]) -> Block<i16> {
    let mut r = [0i16; 64];
    for i in 0..64 {
        r[i] = block[i].round() as i16;
    }
    Block(r)
}

fn dct(block: &Block<i16>) -> Block<i16> {
    rounded(&forward(block))
}

fn idct(block: &Block<i16>) -> Block<i16> {
    let mut wide = [0.0f64; 64];
    for i in 0..64 {
        wide[i] = block.0[i] as f64;
    }
    rounded(&backward(&wide))
}

fn steps(plane: Plane) -> Block<i16> {
    match plane {
        Plane::Luma => *Quantizor::<i16>::video_luminance().steps(),
        Plane::Chroma => *Quantizor::<i16>::video_chrominance().steps(),
    }
}

fn code(plane: Plane, residual: &Block<i16>) -> Block<i16> {
    let steps = steps(plane);
    let mut coefficients = forward(residual);
    for i in 0..64 {
        coefficients[i] /= steps.0[i] as f64;
    }
    rounded(&coefficients)
}

fn restore(plane: Plane, prediction: &Block<i16>, residual: &Block<i16>) -> Block<i16> {
    let steps = steps(plane);
    let mut coefficients = [0.0f64; 64];
    for i in 0..64 {
        coefficients[i] = residual.0[i] as f64 * steps.0[i] as f64;
    }
    let mut r = backward(&coefficients);
    for i in 0..64 {
        r[i] = (prediction.0[i] as f64 + r[i]).clamp(i16::MIN as f64, i16::MAX as f64);
    }
    rounded(&r)
}

fn create_test_frame(width: usize, height: usize, fill_value: i16) -> SubSampleBlockGroup<i16> {
    // For 4:2:0, chroma is half resolution in both dimensions
    let chroma_blocks = (width / 2) * (height / 2);
    SubSampleBlockGroup {
        dimensions: BlockDimensions { width, height },
        subsampling: Subsampling::Sample420,
        y: vec![Block([fill_value; 64]); width * height],
        cb: vec![Block::<i16>::default(); chroma_blocks],
        cr: vec![Block::<i16>::default(); chroma_blocks],
    }
}

#[test]
fn test_pframe_encode_decode_identical_frames() {
    // Test: When current and previous frames are identical,
    // motion vectors should be (0,0) and residuals should be near zero
    let width = 8;
    let height = 8;
    let current = create_test_frame(width, height, 100);
    let previous = create_test_frame(width, height, 100);

    // Create P-frame
    let pframe = PFrame::new(current.as_ref(), previous.as_ref());

    // Get macroblocks
    let macroblocks = pframe.get_macroblocks(&code);

    println!("Test: Identical frames");
    println!("Number of macroblocks: {}", macroblocks.len());

    // Verify we have macroblocks
    assert!(
        !macroblocks.is_empty(),
        "Should have at least one macroblock"
    );

    // Check that motion vectors are (0,0) for identical frames
    for (idx, mb) in macroblocks.iter().enumerate() {
        println!(
            "Macroblock {}: MV=({}, {}), Y Residuals={}",
            idx,
            mb.mv.x,
            mb.mv.y,
            mb.residuals.y.len()
        );
        assert_eq!(
            mb.mv.x, 0,
            "Motion vector X should be 0 for identical frames"
        );
        assert_eq!(
            mb.mv.y, 0,
            "Motion vector Y should be 0 for identical frames"
        );
    }

    // Reassemble and verify
    let reconstructed = PFrame::reassemble(&previous.as_ref(), &macroblocks, &restore)
        .expect("Reassembly should succeed");

    println!(
        "Reconstructed: {}x{} blocks",
        reconstructed.dimensions.width, reconstructed.dimensions.height
    );

    // Verify dimensions match
    assert_eq!(reconstructed.dimensions.width, current.dimensions.width);
    assert_eq!(reconstructed.dimensions.height, current.dimensions.height);

    // Verify Y blocks are close to original (allowing for quantization error)
    for (idx, (orig, recon)) in current.y.iter().zip(reconstructed.y.iter()).enumerate() {
        for r in 0..8 {
            for c in 0..8 {
                let orig_val = orig.get(r, c);
                let recon_val = recon.get(r, c);
                let diff = (orig_val - recon_val).abs();
                assert!(
                    diff < 10,
                    "Block {} at ({},{}) differs too much: {} vs {} (diff={})",
                    idx,
                    r,
                    c,
                    orig_val,
                    recon_val,
                    diff
                );
            }
        }
    }
}

#[test]
fn test_pframe_encode_decode_different_frames() {
    // Test: When frames differ, residuals should capture the difference
    let width = 8;
    let height = 8;
    let current = create_test_frame(width, height, 150);
    let previous = create_test_frame(width, height, 100);

    // Create P-frame
    let pframe = PFrame::new(current.as_ref(), previous.as_ref());

    // Get macroblocks
    let macroblocks = pframe.get_macroblocks(&code);

    assert!(
        !macroblocks.is_empty(),
        "Should have at least one macroblock"
    );

    // Reassemble
    let reconstructed = PFrame::reassemble(&previous.as_ref(), &macroblocks, &restore)
        .expect("Reassembly should succeed");

    // Verify the reconstructed frame is closer to current than to previous
    let mut total_error_to_current = 0i64;
    let mut total_error_to_previous = 0i64;

    for (idx, recon) in reconstructed.y.iter().enumerate() {
        let curr = &current.y[idx];
        let prev = &previous.y[idx];

        for r in 0..8 {
            for c in 0..8 {
                let recon_val = recon.get(r, c);
                let curr_val = curr.get(r, c);
                let prev_val = prev.get(r, c);

                total_error_to_current += (recon_val - curr_val).abs() as i64;
                total_error_to_previous += (recon_val - prev_val).abs() as i64;
            }
        }
    }

    // Reconstructed should be much closer to current than to previous
    assert!(
        total_error_to_current < total_error_to_previous / 2,
        "Reconstructed frame should be closer to current than previous"
    );
}

#[test]
fn test_pframe_residual_application() {
    // Test: Verify that residuals are correctly applied during reassembly
    let width = 4;
    let height = 4;

    // Create a simple test case where we can manually verify
    let mut current = create_test_frame(width, height, 0);
    let mut previous = create_test_frame(width, height, 0);

    // Set specific values in first block
    for r in 0..8 {
        for c in 0..8 {
            current.y[0].set(r, c, 100);
            previous.y[0].set(r, c, 50);
        }
    }

    println!("\nTest: Residual application");
    println!("Current block[0]: all 100");
    println!("Previous block[0]: all 50");
    println!("Expected residual: ~50 (after DCT/IDCT)");

    let pframe = PFrame::new(current.as_ref(), previous.as_ref());
    let macroblocks = pframe.get_macroblocks(&code);

    // Check that we have residuals
    assert!(!macroblocks.is_empty(), "Should have macroblocks");
    assert!(
        macroblocks[0].residuals.y.len() > 0,
        "Should have Y residuals"
    );

    println!(
        "First macroblock has {} Y residual blocks",
        macroblocks[0].residuals.y.len()
    );

    // Reassemble
    let reconstructed = PFrame::reassemble(&previous.as_ref(), &macroblocks, &restore)
        .expect("Reassembly should succeed");

    // Check first block is closer to 100 than to 50
    let mut sum = 0i32;
    for r in 0..8 {
        for c in 0..8 {
            sum += reconstructed.y[0].get(r, c) as i32;
        }
    }
    let recon_avg = (sum / 64) as i16;

    println!("Reconstructed block[0] average: {}", recon_avg);

    let error_to_current = (recon_avg - 100).abs();
    let error_to_previous = (recon_avg - 50).abs();

    println!("Error to current (100): {}", error_to_current);
    println!("Error to previous (50): {}", error_to_previous);

    assert!(
        error_to_current < error_to_previous,
        "Reconstructed should be closer to current than previous"
    );
}

#[test]
fn test_pframe_motion_vector_calculation() {
    // Test: Verify motion vectors are calculated when content moves
    let width = 8;
    let height = 8;

    let current = create_test_frame(width, height, 100);
    let previous = create_test_frame(width, height, 50);

    let pframe = PFrame::new(current.as_ref(), previous.as_ref());
    let macroblocks = pframe.get_macroblocks(&code);

    println!("\nTest: Motion vector calculation");

    for (idx, mb) in macroblocks.iter().enumerate() {
        println!(
            "Macroblock {}: Location ({},{}) to ({},{}), MV=({},{}), Y Residuals={}",
            idx,
            mb.location.start.row,
            mb.location.start.col,
            mb.location.end.row,
            mb.location.end.col,
            mb.mv.x,
            mb.mv.y,
            mb.residuals.y.len()
        );

        // Verify residuals exist
        assert!(
            mb.residuals.y.len() > 0,
            "Macroblock {} should have Y residuals",
            idx
        );

        // Verify location is within bounds
        assert!(mb.location.end.row < height, "End row out of bounds");
        assert!(mb.location.end.col < width, "End col out of bounds");
    }
}

#[test]
fn test_bprediction_mode_conversion() {
    let mv = MotionVector { x: 0, y: 0 };
    assert_eq!(Prediction::from(0), Prediction::Forward(mv));
    assert_eq!(Prediction::from(1), Prediction::Backward(mv));
    assert_eq!(
        Prediction::from(2),
        Prediction::Both {
            forward: mv,
            backward: mv
        }
    );

    assert_eq!(Prediction::Forward(mv).to_code(), 0);
    assert_eq!(Prediction::Backward(mv).to_code(), 1);
    assert_eq!(
        Prediction::Both {
            forward: mv,
            backward: mv
        }
        .to_code(),
        2
    );
}

#[test]
fn test_bframe_basic_operations() {
    // Combined test for creation, motion vector calculation, and cost calculation
    let forward_ref = create_test_frame(8, 8, 0);
    let backward_ref = create_test_frame(8, 8, 0);
    let current = create_test_frame(8, 8, 0);

    // Test creation
    let bframe = BFrame::new(
        current.as_ref(),
        Some(forward_ref.as_ref()),
        backward_ref.as_ref(),
    );

    assert_eq!(bframe.dimensions(), current.as_ref().dimensions);
    assert_eq!(bframe.current.y.len(), current.as_ref().y.len());

    // Test motion vector calculation
    let mvs = bframe.motion_vectors();
    assert_eq!(mvs.len(), current.as_ref().dimensions.height);
    if !mvs.is_empty() {
        assert_eq!(mvs[0].len(), current.as_ref().dimensions.width);
    }

    // Test bidirectional cost calculation
    if !current.y.is_empty() {
        let cost = bframe.calculate_bidirectional_cost(
            &current.as_ref().y[0],
            Point { row: 0, col: 0 },
            MotionVector { x: 0, y: 0 },
            MotionVector { x: 0, y: 0 },
        );

        assert!(cost < i16::MAX);
    }
}

#[test]
fn test_bframe_encode_decode_identical_frames() {
    // Test: When all frames are identical, motion vectors should be (0,0)
    // and residuals should be minimal
    let width = 8;
    let height = 8;
    let value = 100;

    let current = create_test_frame(width, height, value);
    let forward_ref = create_test_frame(width, height, value);
    let backward_ref = create_test_frame(width, height, value);

    // Create B-frame
    let bframe = BFrame::new(
        current.as_ref(),
        Some(forward_ref.as_ref()),
        backward_ref.as_ref(),
    );

    // Get macroblocks
    let macroblocks = bframe.get_macroblocks(&code);

    assert!(
        !macroblocks.is_empty(),
        "Should have at least one macroblock"
    );

    // Verify motion vectors are close to zero and residuals are minimal
    for mb in &macroblocks {
        match &mb.prediction {
            Prediction::Forward(mv) | Prediction::Backward(mv) => {
                assert!(
                    mv.x.abs() <= 1 && mv.y.abs() <= 1,
                    "Motion vectors should be near zero for identical frames"
                );
            }
            Prediction::Both { forward, backward } => {
                assert!(
                    forward.x.abs() <= 1 && forward.y.abs() <= 1,
                    "Forward MV should be near zero"
                );
                assert!(
                    backward.x.abs() <= 1 && backward.y.abs() <= 1,
                    "Backward MV should be near zero"
                );
            }
        }

        // Check residuals are minimal
        for residual in mb.residuals.y.as_slice().iter() {
            let mut max_abs = 0i16;
            for r in 0..8 {
                for c in 0..8 {
                    max_abs = max_abs.max(residual.get(r, c).abs());
                }
            }
            assert!(
                max_abs < 50,
                "Residuals should be minimal for identical frames, got {}",
                max_abs
            );
        }
    }

    // Test encode/decode
    let mut writer = BitStreamWriter::new();
    bframe.encode(&code, &mut writer).expect("Encoding should succeed");
    let bytes = writer.into_inner();

    let decoded_macroblocks = {
        let mut reader = BitStreamReader::new(bytes);
        BFrame::decode(&mut reader).expect("Decoding should succeed")
    };

    // Reassemble using decoded macroblocks
    let reconstructed = BFrame::reassemble(
        Some(&forward_ref.as_ref()),
        &backward_ref.as_ref(),
        &decoded_macroblocks.into_inner(),
        &restore,
    )
    .expect("Reassembly should succeed");

    // Verify reconstructed is close to original
    for (idx, recon) in reconstructed.y.iter().enumerate() {
        let orig = &current.y[idx];
        for r in 0..8 {
            for c in 0..8 {
                let diff = (recon.get(r, c) - orig.get(r, c)).abs();
                assert!(diff < 20, "Reconstructed should match original closely");
            }
        }
    }
}

#[test]
fn test_bframe_encode_decode_different_frames() {
    // Test: When frames differ, ensure all blocks are covered with residuals
    let width = 8;
    let height = 8;
    let current = create_test_frame(width, height, 150);
    let forward_ref = create_test_frame(width, height, 100);
    let backward_ref = create_test_frame(width, height, 80);

    // Create B-frame
    let bframe = BFrame::new(
        current.as_ref(),
        Some(forward_ref.as_ref()),
        backward_ref.as_ref(),
    );

    // Get macroblocks
    let macroblocks = bframe.get_macroblocks(&code);

    // Count total blocks covered by all macroblocks
    let mut total_blocks = 0;
    for mb in &macroblocks {
        let rows = mb.location.end.row - mb.location.start.row + 1;
        let cols = mb.location.end.col - mb.location.start.col + 1;
        let blocks_in_mb = rows * cols;
        total_blocks += blocks_in_mb;

        // Verify residuals count matches location
        assert_eq!(
            mb.residuals.y.len(),
            blocks_in_mb,
            "Y residual count should match blocks in macroblock"
        );
    }

    // CRITICAL TEST: Verify 100% block coverage
    assert_eq!(
        total_blocks,
        width * height,
        "All blocks in frame must be covered by macroblocks"
    );

    // Reassemble
    let reconstructed = BFrame::reassemble(
        Some(&forward_ref.as_ref()),
        &backward_ref.as_ref(),
        &macroblocks,
        &restore,
    )
    .expect("Reassembly should succeed");

    // Verify the reconstructed frame is closer to current than to references
    let mut total_error_to_current = 0i64;
    let mut total_error_to_forward = 0i64;

    for (idx, recon) in reconstructed.y.iter().enumerate() {
        let curr = &current.y[idx];
        let fwd = &forward_ref.y[idx];

        for r in 0..8 {
            for c in 0..8 {
                let recon_val = recon.get(r, c);
                let curr_val = curr.get(r, c);
                let fwd_val = fwd.get(r, c);

                total_error_to_current += (recon_val - curr_val).abs() as i64;
                total_error_to_forward += (recon_val - fwd_val).abs() as i64;
            }
        }
    }

    // Reconstructed should be much closer to current than to forward reference
    assert!(
        total_error_to_current < total_error_to_forward / 2,
        "Reconstructed frame should be closer to current than forward reference"
    );
}

#[test]
fn test_bframe_residual_application() {
    // Test: Verify that residuals are correctly applied for all prediction types
    let width = 4;
    let height = 4;

    let current = create_test_frame(width, height, 120);
    let forward_ref = create_test_frame(width, height, 100);
    let backward_ref = create_test_frame(width, height, 80);

    let bframe = BFrame::new(
        current.as_ref(),
        Some(forward_ref.as_ref()),
        backward_ref.as_ref(),
    );
    let macroblocks = bframe.get_macroblocks(&code);

    assert!(!macroblocks.is_empty(), "Should have macroblocks");

    // Test reassembly
    let reconstructed = BFrame::reassemble(
        Some(&forward_ref.as_ref()),
        &backward_ref.as_ref(),
        &macroblocks,
        &restore,
    )
    .expect("Reassembly should succeed");

    // Verify residuals were applied
    let mut has_nonzero_residual = false;
    for mb in &macroblocks {
        for residual in mb.residuals.y.as_slice().iter() {
            for r in 0..8 {
                for c in 0..8 {
                    if residual.get(r, c).abs() > 10 {
                        has_nonzero_residual = true;
                        break;
                    }
                }
            }
        }
    }

    assert!(
        has_nonzero_residual,
        "Should have significant residuals for different frames"
    );

    // Verify reconstructed is not identical to either reference
    let mut diff_from_forward = 0i64;
    let mut diff_from_backward = 0i64;

    for (idx, recon) in reconstructed.y.iter().enumerate() {
        let fwd = &forward_ref.y[idx];
        let bwd = &backward_ref.y[idx];

        for r in 0..8 {
            for c in 0..8 {
                diff_from_forward += (recon.get(r, c) - fwd.get(r, c)).abs() as i64;
                diff_from_backward += (recon.get(r, c) - bwd.get(r, c)).abs() as i64;
            }
        }
    }

    assert!(
        diff_from_forward > 0,
        "Reconstructed should differ from forward ref"
    );
    assert!(
        diff_from_backward > 0,
        "Reconstructed should differ from backward ref"
    );
}

#[test]
fn test_bframe_bidirectional_prediction() {
    // Test: Verify bi-directional prediction type works correctly
    let width = 4;
    let height = 4;

    // Create scenario where bi-directional might be chosen
    let current = create_test_frame(width, height, 90);
    let forward_ref = create_test_frame(width, height, 100);
    let backward_ref = create_test_frame(width, height, 80);

    let bframe = BFrame::new(
        current.as_ref(),
        Some(forward_ref.as_ref()),
        backward_ref.as_ref(),
    );
    let macroblocks = bframe.get_macroblocks(&code);

    assert!(!macroblocks.is_empty(), "Should have macroblocks");

    // Check that we have prediction types
    let mut has_forward = false;
    let mut has_backward = false;
    let mut has_both = false;

    for mb in &macroblocks {
        match &mb.prediction {
            Prediction::Forward(_) => has_forward = true,
            Prediction::Backward(_) => has_backward = true,
            Prediction::Both { .. } => has_both = true,
        }
    }

    // At least one prediction type should be used
    assert!(
        has_forward || has_backward || has_both,
        "Should have at least one prediction type"
    );

    // Verify reassembly works with all prediction types
    let reconstructed = BFrame::reassemble(
        Some(&forward_ref.as_ref()),
        &backward_ref.as_ref(),
        &macroblocks,
        &restore,
    )
    .expect("Reassembly should succeed with all prediction types");

    assert_eq!(
        reconstructed.y.len(),
        current.y.len(),
        "Reconstructed should have same number of blocks"
    );
}

#[test]
fn test_bframe_chroma_motion_vector_scaling() {
    // CRITICAL TEST: Verify chroma motion vectors are correctly scaled for 4:2:0
    // This tests the core issue with colored square artifacts

    // Create 8x8 luma blocks (8 blocks wide x 8 blocks tall)
    // Chroma will be 4x4 blocks for 4:2:0 subsampling
    let width = 8;
    let height = 8;

    // Create frames with distinct values to test motion compensation
    let mut current = create_test_frame(width, height, 0);
    let mut forward_ref = create_test_frame(width, height, 0);
    let mut backward_ref = create_test_frame(width, height, 0);

    // Set specific chroma values in forward reference
    // Cb channel: set first block to 100
    for r in 0..8 {
        for c in 0..8 {
            forward_ref.cb[0].set(r, c, 100);
            forward_ref.cr[0].set(r, c, 200);
        }
    }

    // Set different chroma values in backward reference
    for r in 0..8 {
        for c in 0..8 {
            backward_ref.cb[0].set(r, c, 50);
            backward_ref.cr[0].set(r, c, 150);
        }
    }

    // Current frame: set chroma to match forward ref (should prefer forward prediction)
    for r in 0..8 {
        for c in 0..8 {
            current.cb[0].set(r, c, 100);
            current.cr[0].set(r, c, 200);
        }
    }

    // Create B-frame
    let bframe = BFrame::new(
        current.as_ref(),
        Some(forward_ref.as_ref()),
        backward_ref.as_ref(),
    );

    let macroblocks = bframe.get_macroblocks(&code);

    // Reassemble with chroma
    let reconstructed = BFrame::reassemble(
        Some(&forward_ref.as_ref()),
        &backward_ref.as_ref(),
        &macroblocks,
        &restore,
    )
    .expect("Reassembly should succeed");

    // CRITICAL VERIFICATION: Check that chroma was reconstructed
    assert_eq!(
        reconstructed.cb.len(),
        (width * height) / 4,
        "Chroma should have 1/4 the blocks of luma for 4:2:0"
    );
    assert_eq!(
        reconstructed.cr.len(),
        (width * height) / 4,
        "Chroma should have 1/4 the blocks of luma for 4:2:0"
    );

    // Verify first chroma block was reconstructed (should be close to forward ref)
    let cb_block = &reconstructed.cb[0];
    let cr_block = &reconstructed.cr[0];

    let mut cb_avg = 0i32;
    let mut cr_avg = 0i32;
    for r in 0..8 {
        for c in 0..8 {
            cb_avg += cb_block.get(r, c) as i32;
            cr_avg += cr_block.get(r, c) as i32;
        }
    }
    cb_avg /= 64;
    cr_avg /= 64;

    // Allow some tolerance for quantization/compression
    assert!(
        (cb_avg - 100).abs() < 30,
        "Cb should be close to forward reference (100), got {}",
        cb_avg
    );
    assert!(
        (cr_avg - 200).abs() < 30,
        "Cr should be close to forward reference (200), got {}",
        cr_avg
    );

    // Verify chroma is NOT just zeros (common bug)
    let mut has_nonzero_cb = false;
    let mut has_nonzero_cr = false;
    for block in &reconstructed.cb {
        for r in 0..8 {
            for c in 0..8 {
                if block.get(r, c).abs() > 10 {
                    has_nonzero_cb = true;
                    break;
                }
            }
        }
    }
    for block in &reconstructed.cr {
        for r in 0..8 {
            for c in 0..8 {
                if block.get(r, c).abs() > 10 {
                    has_nonzero_cr = true;
                    break;
                }
            }
        }
    }

    assert!(has_nonzero_cb, "Cb channel should have non-zero values");
    assert!(has_nonzero_cr, "Cr channel should have non-zero values");
}

#[test]
fn test_bframe_chroma_with_motion() {
    // Test chroma reconstruction when motion vectors are non-zero
    // This specifically tests the motion vector scaling from luma to chroma

    let width = 8;
    let height = 8;

    // Create frames where content has moved
    let mut forward_ref = create_test_frame(width, height, 0);

    // Put a chroma "feature" at position (1, 1) - second chroma block row/col
    // Row 1, Col 1 in 4x4 chroma grid
    let chroma_idx = 4 + 1;
    for r in 0..8 {
        for c in 0..8 {
            forward_ref.cb[chroma_idx].set(r, c, 150);
            forward_ref.cr[chroma_idx].set(r, c, 180);
        }
    }

    // Current frame: same "feature" but needs motion compensation to find it
    let mut current = create_test_frame(width, height, 0);

    // Put same chroma feature at same location
    for r in 0..8 {
        for c in 0..8 {
            current.cb[chroma_idx].set(r, c, 150);
            current.cr[chroma_idx].set(r, c, 180);
        }
    }

    let backward_ref = create_test_frame(width, height, 0);

    // Create B-frame
    let bframe = BFrame::new(
        current.as_ref(),
        Some(forward_ref.as_ref()),
        backward_ref.as_ref(),
    );

    let macroblocks = bframe.get_macroblocks(&code);

    // Reassemble
    let reconstructed = BFrame::reassemble(
        Some(&forward_ref.as_ref()),
        &backward_ref.as_ref(),
        &macroblocks,
        &restore,
    )
    .expect("Reassembly should succeed");

    // Verify the chroma "feature" was reconstructed
    let recon_cb = &reconstructed.cb[chroma_idx];
    let recon_cr = &reconstructed.cr[chroma_idx];

    let mut cb_avg = 0i32;
    let mut cr_avg = 0i32;
    for r in 0..8 {
        for c in 0..8 {
            cb_avg += recon_cb.get(r, c) as i32;
            cr_avg += recon_cr.get(r, c) as i32;
        }
    }
    cb_avg /= 64;
    cr_avg /= 64;

    // The feature should be reconstructed with reasonable accuracy
    assert!(
        cb_avg > 100,
        "Cb should reflect the feature (expected ~150), got {}",
        cb_avg
    );
    assert!(
        cr_avg > 100,
        "Cr should reflect the feature (expected ~180), got {}",
        cr_avg
    );
}

#[test]
fn test_motion_vector_coordinate_system() {
    // CRITICAL TEST: Verify the coordinate system of motion vectors
    // This test documents and verifies how motion vectors map to blocks

    let width = 8;
    let height = 8;

    // Create a distinctive pattern in forward reference
    // We'll put a unique value in each luma block to track motion
    let mut forward_ref = create_test_frame(width, height, 0);

    // Set luma block at position (2, 2) to value 100
    // Row 2, Col 2
    let luma_idx_2_2 = 2 * width + 2;
    for r in 0..8 {
        for c in 0..8 {
            forward_ref.y[luma_idx_2_2].set(r, c, 100);
        }
    }

    // Set chroma block at position (1, 1) to specific values (this corresponds to luma blocks
    // (2,2)-(3,3))
    // Row 1, Col 1 in chroma (4x4 grid)
    let chroma_idx_1_1 = 4 + 1;
    for r in 0..8 {
        for c in 0..8 {
            forward_ref.cb[chroma_idx_1_1].set(r, c, 150);
            forward_ref.cr[chroma_idx_1_1].set(r, c, 180);
        }
    }

    // Create current frame with same pattern at position (3, 3)
    let mut current = create_test_frame(width, height, 0);

    let luma_idx_3_3 = 3 * width + 3;
    for r in 0..8 {
        for c in 0..8 {
            current.y[luma_idx_3_3].set(r, c, 100);
        }
    }

    // Chroma still at (1, 1) since (3,3) luma maps to same chroma block
    for r in 0..8 {
        for c in 0..8 {
            current.cb[chroma_idx_1_1].set(r, c, 150);
            current.cr[chroma_idx_1_1].set(r, c, 180);
        }
    }

    let backward_ref = create_test_frame(width, height, 0);

    // Debug: Print what's in the forward reference

    // Create B-frame and examine motion vectors
    let bframe = BFrame::new(
        current.as_ref(),
        Some(forward_ref.as_ref()),
        backward_ref.as_ref(),
    );

    let macroblocks = bframe.get_macroblocks(&code);

    // Print ALL macroblocks to understand chroma updates

    for (idx, mb) in macroblocks.iter().enumerate() {
        // Specifically track which chroma blocks this affects
        for luma_r in mb.location.start.row..=mb.location.end.row {
            for luma_c in mb.location.start.col..=mb.location.end.col {
                let chroma_r = luma_r / 2;
                let chroma_c = luma_c / 2;
                if chroma_r == 1 && chroma_c == 1 {}
            }
        }
    }

    // Reassemble and verify
    let reconstructed = BFrame::reassemble(
        Some(&forward_ref.as_ref()),
        &backward_ref.as_ref(),
        &macroblocks,
        &restore,
    )
    .expect("Reassembly should succeed");

    // Verify the luma block at (3,3) was reconstructed correctly
    let recon_luma = &reconstructed.y[luma_idx_3_3];
    let mut luma_avg = 0i32;
    for r in 0..8 {
        for c in 0..8 {
            luma_avg += recon_luma.get(r, c) as i32;
        }
    }
    luma_avg /= 64;

    assert!(
        luma_avg > 50,
        "Luma should be reconstructed from forward ref, got {}",
        luma_avg
    );

    // Verify chroma was also reconstructed
    let recon_cb = &reconstructed.cb[chroma_idx_1_1];
    let mut cb_avg = 0i32;
    for r in 0..8 {
        for c in 0..8 {
            cb_avg += recon_cb.get(r, c) as i32;
        }
    }
    cb_avg /= 64;

    // Also check what the base_cb had
    let base_cb_at_1_1 = {
        let mut sum = 0i32;
        for r in 0..8 {
            for c in 0..8 {
                sum += forward_ref.cb[chroma_idx_1_1].get(r, c) as i32;
            }
        }
        sum / 64
    };

    assert!(
        cb_avg > 100,
        "Chroma should be reconstructed, got {}. Base had {}",
        cb_avg,
        base_cb_at_1_1
    );
}

#[test]
fn test_chroma_residuals_stored_and_retrieved() {
    // Test that chroma residuals are actually stored in macroblocks

    let width = 8;
    let height = 8;

    // Create frames with different chroma values
    let mut current = create_test_frame(width, height, 0);

    // Set distinct chroma values
    for idx in 0..current.cb.len() {
        for r in 0..8 {
            for c in 0..8 {
                current.cb[idx].set(r, c, 100);
                current.cr[idx].set(r, c, -100);
            }
        }
    }

    let forward_ref = create_test_frame(width, height, 0);

    let backward_ref = create_test_frame(width, height, 0);

    let bframe = BFrame::new(
        current.as_ref(),
        Some(forward_ref.as_ref()),
        backward_ref.as_ref(),
    );
    let macroblocks = bframe.get_macroblocks(&code);

    let mut has_cb_residuals = false;
    let mut has_cr_residuals = false;

    for (idx, mb) in macroblocks.iter().enumerate() {
        println!(
            "MB{}: cb_residuals={}, cr_residuals={}",
            idx,
            mb.residuals.cb.len(),
            mb.residuals.cr.len()
        );

        if mb.residuals.cb.len() > 0 {
            has_cb_residuals = true;
        }
        if mb.residuals.cr.len() > 0 {
            has_cr_residuals = true;
        }
    }

    assert!(
        has_cb_residuals,
        "Macroblocks should have Cb residuals stored"
    );
    assert!(
        has_cr_residuals,
        "Macroblocks should have Cr residuals stored"
    );
}

#[test]
fn test_chroma_residuals_no_duplicates() {
    // Test that we don't store duplicate chroma residuals for 4:2:0

    let width = 8;
    let height = 8;

    let current = create_test_frame(width, height, 0);
    let forward_ref = create_test_frame(width, height, 0);
    let backward_ref = create_test_frame(width, height, 0);

    let bframe = BFrame::new(
        current.as_ref(),
        Some(forward_ref.as_ref()),
        backward_ref.as_ref(),
    );
    let macroblocks = bframe.get_macroblocks(&code);

    for (idx, mb) in macroblocks.iter().enumerate() {
        // Calculate how many luma blocks in this macroblock
        let luma_count = (mb.location.end.row - mb.location.start.row + 1)
            * (mb.location.end.col - mb.location.start.col + 1);

        // For 4:2:0, chroma should have 1/4 the blocks of luma (or fewer due to deduplication)
        let expected_max_chroma = luma_count.div_ceil(4);

        assert!(
            mb.residuals.cb.len() <= expected_max_chroma,
            "MB{}: Too many Cb residuals! Got {}, expected at most {} (luma blocks: {})",
            idx,
            mb.residuals.cb.len(),
            expected_max_chroma,
            luma_count
        );

        assert!(
            mb.residuals.cr.len() <= expected_max_chroma,
            "MB{}: Too many Cr residuals! Got {}, expected at most {} (luma blocks: {})",
            idx,
            mb.residuals.cr.len(),
            expected_max_chroma,
            luma_count
        );
    }
}

#[test]
fn test_chroma_residuals_roundtrip() -> Result<()> {
    // Test that chroma residuals survive encode/decode roundtrip

    let width = 4;
    let height = 4;

    // Create a current frame with specific chroma values
    let mut current = create_test_frame(width, height, 0);

    // Set specific chroma values - these will require residuals
    for r in 0..8 {
        for c in 0..8 {
            current.cb[0].set(r, c, 50);
            current.cr[0].set(r, c, -50);
        }
    }

    let forward_ref = create_test_frame(width, height, 0);
    let backward_ref = create_test_frame(width, height, 0);

    // Encode
    let bframe = BFrame::new(
        current.as_ref(),
        Some(forward_ref.as_ref()),
        backward_ref.as_ref(),
    );
    let macroblocks = bframe.get_macroblocks(&code);

    // Serialize and deserialize macroblocks
    let mut serialized = Vec::new();
    for mb in &macroblocks {
        serialized.extend_from_slice(&mb.to_bytes());
    }

    // Deserialize
    let mut deserialized_mbs = Vec::new();
    let mut offset = 0;
    for _ in 0..macroblocks.len() {
        let (mb, bytes_read) = BMacroBlock::<i16>::from_bytes(&serialized[offset..]).unwrap();
        deserialized_mbs.push(mb);
        offset += bytes_read;
    }

    // Check that chroma residuals survived
    for (idx, (orig, deser)) in macroblocks.iter().zip(deserialized_mbs.iter()).enumerate() {
        assert_eq!(
            orig.residuals.cb.len(),
            deser.residuals.cb.len(),
            "MB{}: Cb residual count mismatch",
            idx
        );
        assert_eq!(
            orig.residuals.cr.len(),
            deser.residuals.cr.len(),
            "MB{}: Cr residual count mismatch",
            idx
        );
    }

    // Reconstruct and verify chroma is correct
    let reconstructed = BFrame::reassemble(
        Some(&forward_ref.as_ref()),
        &backward_ref.as_ref(),
        &deserialized_mbs,
        &restore,
    )?;

    let recon_cb = reconstructed.cb[0].get(4, 4);
    let recon_cr = reconstructed.cr[0].get(4, 4);

    // Should be close to original (within quantization error)
    let cb_error = (recon_cb - current.cb[0].get(4, 4)).abs();
    let cr_error = (recon_cr - current.cr[0].get(4, 4)).abs();

    assert!(
        cb_error < 30,
        "Cb reconstruction error too large: {}",
        cb_error
    );
    assert!(
        cr_error < 30,
        "Cr reconstruction error too large: {}",
        cr_error
    );

    Ok(())
}

#[test]
fn test_chroma_residuals_with_motion_vectors() -> Result<()> {
    let width = 8;
    let height = 8;

    // Create current frame with chroma at position 1,1
    let mut current = create_test_frame(width, height, 0);

    let chroma_idx_1_1 = 4 + 1;
    for r in 0..8 {
        for c in 0..8 {
            current.cb[chroma_idx_1_1].set(r, c, 80);
            current.cr[chroma_idx_1_1].set(r, c, -80);
        }
    }

    // Create forward ref with chroma at position 0,0
    let mut forward_ref = create_test_frame(width, height, 0);

    for r in 0..8 {
        for c in 0..8 {
            forward_ref.cb[0].set(r, c, 20);
            forward_ref.cr[0].set(r, c, -20);
        }
    }

    let backward_ref = create_test_frame(width, height, 0);

    let bframe = BFrame::new(
        current.as_ref(),
        Some(forward_ref.as_ref()),
        backward_ref.as_ref(),
    );
    let macroblocks = bframe.get_macroblocks(&code);

    // Reconstruct
    let reconstructed = BFrame::reassemble(
        Some(&forward_ref.as_ref()),
        &backward_ref.as_ref(),
        &macroblocks,
        &restore,
    )?;

    let recon_cb = reconstructed.cb[chroma_idx_1_1].get(4, 4);

    // With motion compensation and residuals, should be close to original
    let error = (recon_cb - current.cb[chroma_idx_1_1].get(4, 4)).abs();

    assert!(
        error < 30,
        "Chroma reconstruction with motion vectors failed, error: {}",
        error
    );

    Ok(())
}

#[test]
fn test_chroma_residuals_large_frame() -> Result<()> {
    // Test with frame size similar to real video (88x60 for 704×480)

    // 704 pixels / 8 = 88 blocks
    let width = 88;
    // 480 pixels / 8 = 60 blocks
    let height = 60;

    // Create current frame with specific chroma pattern
    let mut current = create_test_frame(width, height, 0);

    // Set a pattern in chroma - bright blue region in center
    let chroma_width = width / 2;
    let chroma_height = height / 2;
    for r in 10..20 {
        for c in 10..20 {
            let idx = r * chroma_width + c;
            if idx < current.cb.len() {
                for br in 0..8 {
                    for bc in 0..8 {
                        // High Cb = blue
                        current.cb[idx].set(br, bc, 100);
                        // Negative Cr
                        current.cr[idx].set(br, bc, -100);
                    }
                }
            }
        }
    }

    let forward_ref = create_test_frame(width, height, 0);
    let backward_ref = create_test_frame(width, height, 0);

    // Encode
    let bframe = BFrame::new(
        current.as_ref(),
        Some(forward_ref.as_ref()),
        backward_ref.as_ref(),
    );
    let macroblocks = bframe.get_macroblocks(&code);

    // Count total residuals
    let total_cb_residuals: usize = macroblocks.iter().map(|mb| mb.residuals.cb.len()).sum();
    let total_cr_residuals: usize = macroblocks.iter().map(|mb| mb.residuals.cr.len()).sum();

    println!("Total Cb residuals: {}", total_cb_residuals);
    println!("Total Cr residuals: {}", total_cr_residuals);

    // Reconstruct
    let reconstructed = BFrame::reassemble(
        Some(&forward_ref.as_ref()),
        &backward_ref.as_ref(),
        &macroblocks,
        &restore,
    )?;

    // Check the blue region
    let mut errors = 0;
    let mut max_error = 0;
    for r in 10..20 {
        for c in 10..20 {
            let idx = r * chroma_width + c;
            if idx < current.cb.len() {
                let original_cb = current.cb[idx].get(4, 4);
                let recon_cb = reconstructed.cb[idx].get(4, 4);
                let error = (recon_cb - original_cb).abs();

                if error > max_error {
                    max_error = error;
                }

                if error > 30 {
                    errors += 1;
                    if errors <= 3 {}
                }
            }
        }
    }

    assert!(
        max_error < 30,
        "Large frame chroma reconstruction failed, max error: {}",
        max_error
    );

    Ok(())
}

#[test]
fn test_chroma_residuals_macroblock_spans() -> Result<()> {
    // Test edge case: macroblock that spans multiple chroma blocks
    // With 4:2:0, a 16x16 macroblock (4 luma blocks) maps to ONE 8x8 chroma block
    // But what if motion estimation creates odd-sized macroblocks?

    // Small test case
    let width = 16;
    let height = 16;

    let mut current = create_test_frame(width, height, 0);

    // Set specific chroma pattern - alternating values
    let chroma_width = width / 2;
    for r in 0..chroma_width {
        for c in 0..chroma_width {
            let idx = r * chroma_width + c;
            let value = if (r + c) % 2 == 0 { 100 } else { -100 };
            for br in 0..8 {
                for bc in 0..8 {
                    current.cb[idx].set(br, bc, value);
                    current.cr[idx].set(br, bc, -value);
                }
            }
        }
    }

    let forward_ref = create_test_frame(width, height, 0);
    let backward_ref = create_test_frame(width, height, 0);

    let bframe = BFrame::new(
        current.as_ref(),
        Some(forward_ref.as_ref()),
        backward_ref.as_ref(),
    );
    let macroblocks = bframe.get_macroblocks(&code);

    // Print detailed info about each macroblock
    for (idx, mb) in macroblocks.iter().enumerate() {
        let luma_blocks = (mb.location.end.row - mb.location.start.row + 1)
            * (mb.location.end.col - mb.location.start.col + 1);
        println!(
            "MB{}: loc=({},{})-({},{}), luma={}, cb_res={}, cr_res={}",
            idx,
            mb.location.start.row,
            mb.location.start.col,
            mb.location.end.row,
            mb.location.end.col,
            luma_blocks,
            mb.residuals.cb.len(),
            mb.residuals.cr.len()
        );
    }

    // Reconstruct
    let reconstructed = BFrame::reassemble(
        Some(&forward_ref.as_ref()),
        &backward_ref.as_ref(),
        &macroblocks,
        &restore,
    )?;

    // Check every chroma block
    let mut errors = 0;
    for r in 0..chroma_width {
        for c in 0..chroma_width {
            let idx = r * chroma_width + c;
            let orig_cb = current.cb[idx].get(4, 4);
            let recon_cb = reconstructed.cb[idx].get(4, 4);
            let error = (recon_cb - orig_cb).abs();

            if error > 30 {
                errors += 1;
            }
        }
    }

    assert_eq!(errors, 0, "Should have no reconstruction errors");

    Ok(())
}

#[test]
fn test_bframe_without_forward_ref() -> Result<()> {
    // Test B-frame encoding/decoding when forward_ref is None
    // This mimics what happens in GOP encoding

    let width = 16;
    let height = 16;

    // Create current frame with distinct chroma
    let mut current = create_test_frame(width, height, 0);

    // Set chroma values
    for idx in 0..current.cb.len() {
        for r in 0..8 {
            for c in 0..8 {
                current.cb[idx].set(r, c, 80);
                current.cr[idx].set(r, c, -80);
            }
        }
    }

    // Backward reference (different from current)
    let mut backward_ref = create_test_frame(width, height, 0);

    for idx in 0..backward_ref.cb.len() {
        for r in 0..8 {
            for c in 0..8 {
                backward_ref.cb[idx].set(r, c, 20);
                backward_ref.cr[idx].set(r, c, -20);
            }
        }
    }

    // Encode with forward_ref=None (like GOP does)
    let bframe = BFrame::new(current.as_ref(), None, backward_ref.as_ref());
    let macroblocks = bframe.get_macroblocks(&code);

    println!("Macroblocks: {}", macroblocks.len());

    // Check prediction types
    let mut forward_count = 0;
    let mut backward_count = 0;
    let mut both_count = 0;

    for (idx, mb) in macroblocks.iter().enumerate() {
        match &mb.prediction {
            Prediction::Forward(_) => {
                forward_count += 1;
                if idx < 3 {
                    println!("MB{}: Forward prediction (UNEXPECTED!)", idx);
                }
            }
            Prediction::Backward(_) => {
                backward_count += 1;
            }
            Prediction::Both { .. } => {
                both_count += 1;
                if idx < 3 {
                    println!("MB{}: Both prediction (UNEXPECTED!)", idx);
                }
            }
        }
    }

    println!(
        "Prediction types: Forward={}, Backward={}, Both={}",
        forward_count, backward_count, both_count
    );
    println!(
        "Total Cb residuals: {}",
        macroblocks
            .iter()
            .map(|mb| mb.residuals.cb.len())
            .sum::<usize>()
    );

    // Decode with forward_ref=None
    let reconstructed = BFrame::reassemble(None, &backward_ref.as_ref(), &macroblocks, &restore)?;

    // Check reconstruction
    let mut max_error = 0;
    for idx in 0..current.cb.len() {
        let orig = current.cb[idx].get(4, 4);
        let recon = reconstructed.cb[idx].get(4, 4);
        let error = (orig - recon).abs();
        if error > max_error {
            max_error = error;
        }
        if error > 30 && idx < 3 {
            println!(
                "Cb[{}]: orig={}, recon={}, error={}",
                idx, orig, recon, error
            );
        }
    }

    assert!(
        max_error < 30,
        "Reconstruction error too large: {}",
        max_error
    );

    Ok(())
}

fn create_test_group(width: usize, height: usize) -> SubSampleBlockGroup<i16> {
    let mut y_blocks = Vec::new();
    let mut cb_blocks = Vec::new();
    let mut cr_blocks = Vec::new();
    for i in 0..(width * height) {
        let pattern_val = (i % 256) as f64 - 128.0;

        // Y channel - main luminance data
        let mut y_data = [0.0f64; 64];
        for j in 0..64 {
            y_data[j] = pattern_val + (j as f64 % 8.0);
        }
        y_blocks.push(rounded(&y_data));

        // Cb and Cr channels - chroma data
        cb_blocks.push(rounded(&[pattern_val / 4.0; 64]));
        cr_blocks.push(rounded(&[pattern_val / 8.0; 64]));
    }
    SubSampleBlockGroup {
        dimensions: BlockDimensions::from((width, height)),
        subsampling: Subsampling::Sample444,
        y: y_blocks,
        cb: cb_blocks,
        cr: cr_blocks,
    }
}

/// Test basic iframe roundtrip functionality
fn iframe_roundtrip(width: usize, height: usize) -> Result<()> {
    let group = create_test_group(width, height);
    let iframe = IFrame::new(group.as_ref());

    // Encode
    let mut writer = BitStreamWriter::new();
    iframe.encode(&dct, &mut writer)?;

    // Decode
    let mut reader = BitStreamReader::new(writer.into_inner());
    let decoded_iframe = IFrame::<i16>::decode(&idct, &mut reader)?;

    // Basic validation
    let original_group = iframe.blocks();
    assert_eq!(decoded_iframe.dimensions, original_group.dimensions);
    assert_eq!(decoded_iframe.y.len(), original_group.y.len());
    assert_eq!(decoded_iframe.cb.len(), original_group.cb.len());
    assert_eq!(decoded_iframe.cr.len(), original_group.cr.len());

    // The steps bound how far the coefficients are off, and so the samples.
    for (a, b) in decoded_iframe.y.iter().zip(original_group.y.iter()) {
        for i in 0..64 {
            assert!((a.0[i] - b.0[i]).abs() < 60);
        }
    }
    Ok(())
}

#[test]
fn test_iframe_1x1_blocks() {
    iframe_roundtrip(1, 1).expect("1x1 iframe roundtrip failed");
}

#[test]
fn iframes_of_several_sizes_come_back() {
    for (width, height) in [(2, 2), (5, 3), (9, 8)] {
        iframe_roundtrip(width, height).unwrap();
    }
}

#[test]
fn test_iframe_creation() {
    let group = create_test_group(1, 1);
    let iframe = IFrame::new(group.as_ref());
    let blocks = iframe.blocks();

    assert_eq!(blocks.dimensions, BlockDimensions::from((1usize, 1usize)));
    assert_eq!(blocks.y.len(), 1);
    assert_eq!(blocks.cb.len(), 1);
    assert_eq!(blocks.cr.len(), 1);
    assert_eq!(blocks.subsampling, Subsampling::Sample444);
}

#[test]
fn test_iframe_encoding_only() {
    // Test that encoding works even for larger sizes
    let group = create_test_group(2, 2);
    let iframe = IFrame::new(group.as_ref());
    let mut writer = BitStreamWriter::new();

    iframe.encode(&dct, &mut writer).expect("Encoding should succeed");
    let encoded = writer.into_inner();

    // Verify we got some encoded data
    assert!(!encoded.is_empty(), "Encoded data should not be empty");
    assert!(encoded.len() > 100, "Encoded data should be substantial");
}

fn ycbcr(pixel: &[u8]) -> (f64, f64, f64) {
    let (r, g, b) = (pixel[0] as f64, pixel[1] as f64, pixel[2] as f64);
    (
        0.299 * r + 0.587 * g + 0.114 * b - 128.0,
        -0.1687 * r - 0.3313 * g + 0.5 * b,
        0.5 * r - 0.4187 * g - 0.0813 * b,
    )
}

#[test]
fn test_iframe_direct_decode_small() {
    // Simple test for iframe encode/decode with small dimensions
    let width = 2;
    let height = 2;
    let dimensions = PixelDimensions { width, height };

    let data = vec![255u8; width * height * 3];
    let pixels: Vec<(f64, f64, f64)> = data.chunks(3).map(ycbcr).collect();
    let luma = |pixel: &(f64, f64, f64)| pixel.0.round() as i16;
    let mean = |taken: &Vec<(f64, f64, f64)>| {
        let n = taken.len() as f64;
        (
            (taken.iter().map(|p| p.1).sum::<f64>() / n).round() as i16,
            (taken.iter().map(|p| p.2).sum::<f64>() / n).round() as i16,
        )
    };
    let subsampled =
        subsample_into_block_ycbcr(dimensions, &pixels, Subsampling::Sample444, &luma, &mean);
    let iframe = IFrame::new(subsampled.as_ref());

    // Encode
    let mut writer = BitStreamWriter::new();
    iframe.encode(&dct, &mut writer).expect("encode should work");

    // Decode
    let mut reader = BitStreamReader::new(writer.into_inner());
    let result = IFrame::<i16>::decode(&idct, &mut reader).expect("decode should work");
    assert_eq!(result.dimensions, BlockDimensions { width: 1, height: 1 });
}

#[test]
fn iframes_that_end_early() {
    let group = create_test_group(2, 2);
    let mut writer = BitStreamWriter::new();
    IFrame::new(group.as_ref()).encode(&dct, &mut writer).unwrap();
    let bytes = writer.into_inner();
    for (len, what) in [(3usize, "width"), (7, "height"), (8 + 256, "subsampling")] {
        let mut reader = BitStreamReader::new(bytes[..len].to_vec());
        match IFrame::<i16>::decode(&idct, &mut reader) {
            Err(Error::FailedToDecode(part)) => assert_eq!(part, what),
            _ => panic!("the stream ends before the {what}"),
        }
    }
    for len in [8 + 100, 8 + 128 + 100, bytes.len() - 1] {
        let mut reader = BitStreamReader::new(bytes[..len].to_vec());
        assert!(matches!(
            IFrame::<i16>::decode(&idct, &mut reader),
            Err(Error::Io(IoErrorKind::UnexpectedEof))
        ));
    }
    let mut damaged = bytes.clone();
    damaged[8 + 256] = 9;
    let mut reader = BitStreamReader::new(damaged);
    assert!(matches!(IFrame::<i16>::decode(&idct, &mut reader), Err(Error::InvalidData)));
}

#[test]
fn pframes_come_back_from_streams() {
    let previous = create_test_group(4, 4);
    let mut current = create_test_group(4, 4);
    for block in current.y.iter_mut() {
        for i in 0..64 {
            block.0[i] += 9;
        }
    }
    let frame = PFrame::new(current.as_ref(), previous.as_ref());
    let mut writer = BitStreamWriter::new();
    frame.encode(&code, &mut writer).unwrap();
    let mut reader = BitStreamReader::new(writer.into_inner());
    let macro_blocks = PFrame::decode(&mut reader).unwrap().into_inner();
    let back = PFrame::reassemble(&previous.as_ref(), &macro_blocks, &restore).unwrap();
    for (a, b) in back.y.iter().zip(current.y.iter()) {
        for i in 0..64 {
            assert!((a.0[i] - b.0[i]).abs() <= 20);
        }
    }
    let mut reader = BitStreamReader::new(vec![1, 0]);
    assert!(matches!(
        PFrame::decode(&mut reader),
        Err(Error::Io(IoErrorKind::UnexpectedEof))
    ));
}

#[test]
fn every_chroma_block_of_an_area_is_predicted() {
    for (width, height) in [(2, 8), (8, 2), (1, 5)] {
        let previous = create_test_group(width, height);
        let area = BlockLocation {
            start: Point { row: 0, col: 0 },
            end: Point { row: height - 1, col: width - 1 },
        };
        let (y, cb, cr) = build_predicted_blocks(
            &area,
            &Prediction::Backward(MotionVector::default()),
            &previous.dimensions,
            previous.subsampling,
            None,
            &previous.as_ref(),
        );
        assert_eq!(y, previous.y);
        assert_eq!(cb, previous.cb);
        assert_eq!(cr, previous.cr);
    }
}

#[test]
fn chroma_of_tall_and_wide_frames_comes_back() {
    for (width, height) in [(2, 8), (8, 2), (1, 5)] {
        let previous = create_test_group(width, height);
        let mut current = create_test_group(width, height);
        for block in current.cb.iter_mut().chain(current.cr.iter_mut()) {
            for i in 0..64 {
                block.0[i] += 60;
            }
        }
        let macro_blocks =
            PFrame::new(current.as_ref(), previous.as_ref()).get_macroblocks(&code);
        let back = PFrame::reassemble(&previous.as_ref(), &macro_blocks, &restore).unwrap();
        for (a, b) in back.cb.iter().zip(&current.cb).chain(back.cr.iter().zip(&current.cr)) {
            for i in 0..64 {
                assert!((a.0[i] - b.0[i]).abs() <= 20);
            }
        }
    }
}

#[test]
fn cr_blocks_without_a_cb_block_stay() {
    let mut previous = create_test_group(4, 4);
    let current = create_test_group(4, 4);
    previous.cr.push(Block([77; 64]));
    let macro_blocks = PFrame::new(current.as_ref(), previous.as_ref()).get_macroblocks(&code);
    let back = PFrame::reassemble(&previous.as_ref(), &macro_blocks, &restore).unwrap();
    assert_eq!(back.cb.len(), 16);
    assert_eq!(back.cr.len(), 17);
    assert_eq!(back.cr[16], Block([77; 64]));
    assert_eq!(back.cr[..16], current.cr[..]);
}
