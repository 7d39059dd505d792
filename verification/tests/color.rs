use vidoc::color::{upsample_ycbcr, SubSampleGroup, Subsampling};
use vidoc::dimensions::PixelDimensions;

#[derive(Clone, Copy)]
#[allow(dead_code)]
struct Ycbcr {
    y: f64,
    cb: f64,
    cr: f64,
    a: f64,
}

fn subsample_ycbcr(
    dimensions: PixelDimensions,
    pixels: &[Ycbcr],
    subsampling: Subsampling,
) -> SubSampleGroup<f64> {
    let luma = |pixel: &Ycbcr| pixel.y;
    let mean = |taken: &Vec<Ycbcr>| {
        let n = taken.len() as f64;
        (
            taken.iter().map(|p| p.cb).sum::<f64>() / n,
            taken.iter().map(|p| p.cr).sum::<f64>() / n,
        )
    };
    vidoc::color::subsample_ycbcr(dimensions, pixels, subsampling, &luma, &mean)
}

// Helper function to create test YCbCr data
fn create_test_ycbcr_data(width: usize, height: usize) -> Vec<Ycbcr> {
    let mut data = Vec::new();
    for r in 0..height {
        for c in 0..width {
            // Create varied color pattern for testing
            let normalized_r = r as f64 / height as f64;
            let normalized_c = c as f64 / width as f64;
            data.push(Ycbcr {
                y: (normalized_r + normalized_c) / 2.0,
                cb: normalized_c - 0.5,
                cr: normalized_r - 0.5,
                a: 1.0,
            });
        }
    }
    data
}

#[test]
fn test_subsampling_444_no_change() {
    let width = 8;
    let height = 4;
    let dimensions = PixelDimensions { width, height };
    let test_data = create_test_ycbcr_data(width, height);
    let original_count = test_data.len();

    let subsampled = subsample_ycbcr(dimensions, &test_data, Subsampling::Sample444);

    assert_eq!(subsampled.y.len(), original_count);
    assert_eq!(subsampled.cb.len(), original_count);
    assert_eq!(subsampled.cr.len(), original_count);
    assert_eq!(subsampled.dimensions, dimensions);
}

#[test]
fn test_subsampling_422_horizontal_reduction() {
    let width = 8;
    let height = 4;
    let dimensions = PixelDimensions { width, height };
    let test_data = create_test_ycbcr_data(width, height);
    let original_count = test_data.len();

    let subsampled = subsample_ycbcr(dimensions, &test_data, Subsampling::Sample422);

    // Y channel should be unchanged
    assert_eq!(subsampled.y.len(), original_count);
    // Cb and Cr should be horizontally subsampled (every 2nd pixel)
    assert_eq!(subsampled.cb.len(), width * height / 2);
    assert_eq!(subsampled.cr.len(), width * height / 2);
    assert_eq!(subsampled.dimensions, dimensions);
}

#[test]
fn test_subsampling_420_both_reduction() {
    let width = 8;
    let height = 4;
    let dimensions = PixelDimensions { width, height };
    let test_data = create_test_ycbcr_data(width, height);
    let original_count = test_data.len();

    let subsampled = subsample_ycbcr(dimensions, &test_data, Subsampling::Sample420);

    // Y channel should be unchanged
    assert_eq!(subsampled.y.len(), original_count);
    // Cb and Cr should be subsampled both horizontally and vertically (2x2 -> 1)
    let expected_chroma_count = (width / 2) * (height / 2);
    assert_eq!(subsampled.cb.len(), expected_chroma_count);
    assert_eq!(subsampled.cr.len(), expected_chroma_count);
    assert_eq!(subsampled.dimensions, dimensions);

    println!(
        "420 Subsampling - Original: {}, Y: {}, Cb: {}, Cr: {}",
        original_count,
        subsampled.y.len(),
        subsampled.cb.len(),
        subsampled.cr.len()
    );
}

#[test]
fn test_subsampling_411_quarter_reduction() {
    let width = 8;
    let height = 4;
    let dimensions = PixelDimensions { width, height };
    let test_data = create_test_ycbcr_data(width, height);
    let original_count = test_data.len();

    let subsampled = subsample_ycbcr(dimensions, &test_data, Subsampling::Sample411);

    // Y channel should be unchanged
    assert_eq!(subsampled.y.len(), original_count);
    // Cb and Cr should be subsampled to 1/4 (every 4th pixel)
    assert_eq!(subsampled.cb.len(), original_count / 4);
    assert_eq!(subsampled.cr.len(), original_count / 4);
    assert_eq!(subsampled.dimensions, dimensions);
}

#[test]
fn test_upsampling_444_no_change() {
    let width = 8;
    let height = 4;
    let dimensions = PixelDimensions { width, height };
    let pixel_count = width * height;

    let y: Vec<f64> = (0..pixel_count)
        .map(|i| i as f64 / pixel_count as f64)
        .collect();
    let cb = y.clone();
    let cr = y.clone();

    let upsampled = upsample_ycbcr(
        dimensions,
        y.clone(),
        cb.clone(),
        cr.clone(),
        Subsampling::Sample444,
    );

    assert_eq!(upsampled.y.len(), pixel_count);
    assert_eq!(upsampled.cb.len(), pixel_count);
    assert_eq!(upsampled.cr.len(), pixel_count);
    assert_eq!(upsampled.dimensions, dimensions);
}

#[test]
fn test_upsampling_422_horizontal_expansion() {
    let width = 8;
    let height = 4;
    let dimensions = PixelDimensions { width, height };
    let pixel_count = width * height;
    let chroma_count = pixel_count / 2; // 422 has half the chroma samples

    let y: Vec<f64> = (0..pixel_count)
        .map(|i| i as f64 / pixel_count as f64)
        .collect();
    let cb: Vec<f64> = (0..chroma_count)
        .map(|i| i as f64 / chroma_count as f64)
        .collect();
    let cr = cb.clone();

    let upsampled = upsample_ycbcr(dimensions, y, cb, cr, Subsampling::Sample422);

    assert_eq!(upsampled.y.len(), pixel_count);
    assert_eq!(upsampled.cb.len(), pixel_count);
    assert_eq!(upsampled.cr.len(), pixel_count);
    assert_eq!(upsampled.dimensions, dimensions);
}

#[test]
fn test_upsampling_420_both_expansion() {
    let width = 8;
    let height = 4;
    let dimensions = PixelDimensions { width, height };
    let pixel_count = width * height;
    let chroma_count = (width / 2) * (height / 2); // 420 has 1/4 the chroma samples

    let y: Vec<f64> = (0..pixel_count)
        .map(|i| i as f64 / pixel_count as f64)
        .collect();
    let cb: Vec<f64> = (0..chroma_count)
        .map(|i| i as f64 / chroma_count as f64)
        .collect();
    let cr = cb.clone();

    println!(
        "420 Upsampling input - Y: {}, Cb: {}, Cr: {}",
        y.len(),
        cb.len(),
        cr.len()
    );

    let upsampled = upsample_ycbcr(dimensions, y, cb, cr, Subsampling::Sample420);

    println!(
        "420 Upsampling output - Y: {}, Cb: {}, Cr: {}",
        upsampled.y.len(),
        upsampled.cb.len(),
        upsampled.cr.len()
    );

    assert_eq!(upsampled.y.len(), pixel_count);
    assert_eq!(upsampled.cb.len(), pixel_count);
    assert_eq!(upsampled.cr.len(), pixel_count);
    assert_eq!(upsampled.dimensions, dimensions);
}

#[test]
fn test_upsampling_411_quarter_expansion() {
    let width = 8;
    let height = 4;
    let dimensions = PixelDimensions { width, height };
    let pixel_count = width * height;
    let chroma_count = pixel_count / 4; // 411 has 1/4 the chroma samples

    let y: Vec<f64> = (0..pixel_count)
        .map(|i| i as f64 / pixel_count as f64)
        .collect();
    let cb: Vec<f64> = (0..chroma_count)
        .map(|i| i as f64 / chroma_count as f64)
        .collect();
    let cr = cb.clone();

    let upsampled = upsample_ycbcr(dimensions, y, cb, cr, Subsampling::Sample411);

    assert_eq!(upsampled.y.len(), pixel_count);
    assert_eq!(upsampled.cb.len(), pixel_count);
    assert_eq!(upsampled.cr.len(), pixel_count);
    assert_eq!(upsampled.dimensions, dimensions);
}

#[test]
fn test_roundtrip_subsampling_444() {
    let width = 8;
    let height = 4;
    let dimensions = PixelDimensions { width, height };
    let test_data = create_test_ycbcr_data(width, height);
    let original_count = test_data.len();

    // Subsample
    let subsampled = subsample_ycbcr(dimensions, &test_data, Subsampling::Sample444);

    // Upsample
    let upsampled = upsample_ycbcr(
        dimensions,
        subsampled.y,
        subsampled.cb,
        subsampled.cr,
        Subsampling::Sample444,
    );

    assert_eq!(upsampled.y.len(), original_count);
    assert_eq!(upsampled.cb.len(), original_count);
    assert_eq!(upsampled.cr.len(), original_count);
}

#[test]
fn test_roundtrip_subsampling_422() {
    let width = 8;
    let height = 4;
    let dimensions = PixelDimensions { width, height };
    let test_data = create_test_ycbcr_data(width, height);
    let original_count = test_data.len();

    // Subsample
    let subsampled = subsample_ycbcr(dimensions, &test_data, Subsampling::Sample422);

    // Upsample
    let upsampled = upsample_ycbcr(
        dimensions,
        subsampled.y,
        subsampled.cb,
        subsampled.cr,
        Subsampling::Sample422,
    );

    assert_eq!(upsampled.y.len(), original_count);
    assert_eq!(upsampled.cb.len(), original_count);
    assert_eq!(upsampled.cr.len(), original_count);
}

#[test]
fn test_roundtrip_subsampling_420() {
    let width = 8;
    let height = 4;
    let dimensions = PixelDimensions { width, height };
    let test_data = create_test_ycbcr_data(width, height);
    let original_count = test_data.len();

    println!("Original data count: {original_count}");

    // Subsample
    let subsampled = subsample_ycbcr(dimensions, &test_data, Subsampling::Sample420);

    println!(
        "After subsampling - Y: {}, Cb: {}, Cr: {}",
        subsampled.y.len(),
        subsampled.cb.len(),
        subsampled.cr.len()
    );

    // Upsample
    let upsampled = upsample_ycbcr(
        dimensions,
        subsampled.y,
        subsampled.cb,
        subsampled.cr,
        Subsampling::Sample420,
    );

    println!(
        "After upsampling - Y: {}, Cb: {}, Cr: {}",
        upsampled.y.len(),
        upsampled.cb.len(),
        upsampled.cr.len()
    );

    assert_eq!(upsampled.y.len(), original_count);
    assert_eq!(upsampled.cb.len(), original_count);
    assert_eq!(upsampled.cr.len(), original_count);
}

#[test]
fn test_roundtrip_subsampling_411() {
    let width = 8;
    let height = 4;
    let dimensions = PixelDimensions { width, height };
    let test_data = create_test_ycbcr_data(width, height);
    let original_count = test_data.len();

    // Subsample
    let subsampled = subsample_ycbcr(dimensions, &test_data, Subsampling::Sample411);

    // Upsample
    let upsampled = upsample_ycbcr(
        dimensions,
        subsampled.y,
        subsampled.cb,
        subsampled.cr,
        Subsampling::Sample411,
    );

    assert_eq!(upsampled.y.len(), original_count);
    assert_eq!(upsampled.cb.len(), original_count);
    assert_eq!(upsampled.cr.len(), original_count);
}

#[test]
fn test_subsample_upsample_420_uniform_red() {
    // Test with uniform red color - should preserve chroma values exactly
    let width = 16;
    let height = 16;
    let dimensions = PixelDimensions { width, height };

    // Create uniform red pixels
    let red_ycbcr = Ycbcr {
        y: 67.0,
        cb: 92.4,
        cr: 255.5,
        a: 255.0,
    };
    let pixels: Vec<Ycbcr> = vec![red_ycbcr; width * height];

    // Subsample
    let subsampled = subsample_ycbcr(dimensions, &pixels, Subsampling::Sample420);

    // Check all Cb values are approximately 92.4
    for &cb_val in &subsampled.cb {
        assert!(
            (cb_val - 92.4).abs() < 0.1,
            "Sample420: Cb value {} differs from expected 92.4",
            cb_val
        );
    }

    // Check all Cr values are approximately 255.5
    for &cr_val in &subsampled.cr {
        assert!(
            (cr_val - 255.5).abs() < 0.1,
            "Sample420: Cr value {} differs from expected 255.5",
            cr_val
        );
    }

    // Upsample
    let upsampled = upsample_ycbcr(
        dimensions,
        subsampled.y,
        subsampled.cb,
        subsampled.cr,
        Subsampling::Sample420,
    );

    // Check first pixel maintains chroma values
    assert!(
        (upsampled.cb[0] - 92.4).abs() < 0.1,
        "Sample420 upsample: First Cb {} differs from 92.4",
        upsampled.cb[0]
    );
    assert!(
        (upsampled.cr[0] - 255.5).abs() < 0.1,
        "Sample420 upsample: First Cr {} differs from 255.5",
        upsampled.cr[0]
    );
}

#[test]
fn test_subsample_upsample_422_uniform_red() {
    // Test with uniform red color - should preserve chroma values exactly
    let width = 16;
    let height = 16;
    let dimensions = PixelDimensions { width, height };

    let red_ycbcr = Ycbcr {
        y: 67.0,
        cb: 92.4,
        cr: 255.5,
        a: 255.0,
    };
    let pixels: Vec<Ycbcr> = vec![red_ycbcr; width * height];

    let subsampled = subsample_ycbcr(dimensions, &pixels, Subsampling::Sample422);

    for &cb_val in &subsampled.cb {
        assert!(
            (cb_val - 92.4).abs() < 0.1,
            "Sample422: Cb value {} differs from expected 92.4",
            cb_val
        );
    }

    for &cr_val in &subsampled.cr {
        assert!(
            (cr_val - 255.5).abs() < 0.1,
            "Sample422: Cr value {} differs from expected 255.5",
            cr_val
        );
    }

    let upsampled = upsample_ycbcr(
        dimensions,
        subsampled.y,
        subsampled.cb,
        subsampled.cr,
        Subsampling::Sample422,
    );

    assert!(
        (upsampled.cb[0] - 92.4).abs() < 0.1,
        "Sample422 upsample: First Cb {} differs from 92.4",
        upsampled.cb[0]
    );
    assert!(
        (upsampled.cr[0] - 255.5).abs() < 0.1,
        "Sample422 upsample: First Cr {} differs from 255.5",
        upsampled.cr[0]
    );
}

#[test]
fn test_subsample_upsample_411_uniform_red() {
    // Test with uniform red color - should preserve chroma values exactly
    let width = 16;
    let height = 16;
    let dimensions = PixelDimensions { width, height };

    let red_ycbcr = Ycbcr {
        y: 67.0,
        cb: 92.4,
        cr: 255.5,
        a: 255.0,
    };
    let pixels: Vec<Ycbcr> = vec![red_ycbcr; width * height];

    let subsampled = subsample_ycbcr(dimensions, &pixels, Subsampling::Sample411);

    for &cb_val in &subsampled.cb {
        assert!(
            (cb_val - 92.4).abs() < 0.1,
            "Sample411: Cb value {} differs from expected 92.4",
            cb_val
        );
    }

    for &cr_val in &subsampled.cr {
        assert!(
            (cr_val - 255.5).abs() < 0.1,
            "Sample411: Cr value {} differs from expected 255.5",
            cr_val
        );
    }

    let upsampled = upsample_ycbcr(
        dimensions,
        subsampled.y,
        subsampled.cb,
        subsampled.cr,
        Subsampling::Sample411,
    );

    assert!(
        (upsampled.cb[0] - 92.4).abs() < 0.1,
        "Sample411 upsample: First Cb {} differs from 92.4",
        upsampled.cb[0]
    );
    assert!(
        (upsampled.cr[0] - 255.5).abs() < 0.1,
        "Sample411 upsample: First Cr {} differs from 255.5",
        upsampled.cr[0]
    );
}

#[test]
fn test_subsample_upsample_444_uniform_red() {
    // Test with uniform red color - 444 should preserve everything
    let width = 16;
    let height = 16;
    let dimensions = PixelDimensions { width, height };

    let red_ycbcr = Ycbcr {
        y: 67.0,
        cb: 92.4,
        cr: 255.5,
        a: 255.0,
    };
    let pixels: Vec<Ycbcr> = vec![red_ycbcr; width * height];

    let subsampled = subsample_ycbcr(dimensions, &pixels, Subsampling::Sample444);

    // 444 should have full resolution chroma
    assert_eq!(subsampled.cb.len(), width * height);
    assert_eq!(subsampled.cr.len(), width * height);

    for &cb_val in &subsampled.cb {
        assert!(
            (cb_val - 92.4).abs() < 0.1,
            "Sample444: Cb value {} differs from expected 92.4",
            cb_val
        );
    }

    for &cr_val in &subsampled.cr {
        assert!(
            (cr_val - 255.5).abs() < 0.1,
            "Sample444: Cr value {} differs from expected 255.5",
            cr_val
        );
    }

    let upsampled = upsample_ycbcr(
        dimensions,
        subsampled.y,
        subsampled.cb,
        subsampled.cr,
        Subsampling::Sample444,
    );

    assert!(
        (upsampled.cb[0] - 92.4).abs() < 0.1,
        "Sample444 upsample: First Cb {} differs from 92.4",
        upsampled.cb[0]
    );
    assert!(
        (upsampled.cr[0] - 255.5).abs() < 0.1,
        "Sample444 upsample: First Cr {} differs from 255.5",
        upsampled.cr[0]
    );
}

#[test]
fn test_subsample_no_cb_cr_swap_420() {
    // Test that Cb and Cr are not swapped during subsampling
    let width = 4;
    let height = 4;
    let dimensions = PixelDimensions { width, height };

    // Create pixels with distinct Cb and Cr values to detect swap
    let test_ycbcr = Ycbcr {
        y: 128.0,
        cb: 50.0,
        cr: 200.0,
        a: 255.0,
    };
    let pixels: Vec<Ycbcr> = vec![test_ycbcr; width * height];

    let subsampled = subsample_ycbcr(dimensions, &pixels, Subsampling::Sample420);

    // Cb should be around 50, not 200
    for &cb_val in &subsampled.cb {
        assert!(
            cb_val < 100.0,
            "Sample420: Cb={} appears swapped with Cr (expected ~50)",
            cb_val
        );
    }

    // Cr should be around 200, not 50
    for &cr_val in &subsampled.cr {
        assert!(
            cr_val > 150.0,
            "Sample420: Cr={} appears swapped with Cb (expected ~200)",
            cr_val
        );
    }
}

#[test]
fn test_subsample_no_cb_cr_swap_422() {
    let width = 4;
    let height = 4;
    let dimensions = PixelDimensions { width, height };

    let test_ycbcr = Ycbcr {
        y: 128.0,
        cb: 50.0,
        cr: 200.0,
        a: 255.0,
    };
    let pixels: Vec<Ycbcr> = vec![test_ycbcr; width * height];

    let subsampled = subsample_ycbcr(dimensions, &pixels, Subsampling::Sample422);

    for &cb_val in &subsampled.cb {
        assert!(
            cb_val < 100.0,
            "Sample422: Cb={} appears swapped with Cr (expected ~50)",
            cb_val
        );
    }

    for &cr_val in &subsampled.cr {
        assert!(
            cr_val > 150.0,
            "Sample422: Cr={} appears swapped with Cb (expected ~200)",
            cr_val
        );
    }
}

#[test]
fn test_subsample_no_cb_cr_swap_411() {
    let width = 8;
    let height = 8;
    let dimensions = PixelDimensions { width, height };

    let test_ycbcr = Ycbcr {
        y: 128.0,
        cb: 50.0,
        cr: 200.0,
        a: 255.0,
    };
    let pixels: Vec<Ycbcr> = vec![test_ycbcr; width * height];

    let subsampled = subsample_ycbcr(dimensions, &pixels, Subsampling::Sample411);

    for &cb_val in &subsampled.cb {
        assert!(
            cb_val < 100.0,
            "Sample411: Cb={} appears swapped with Cr (expected ~50)",
            cb_val
        );
    }

    for &cr_val in &subsampled.cr {
        assert!(
            cr_val > 150.0,
            "Sample411: Cr={} appears swapped with Cb (expected ~200)",
            cr_val
        );
    }
}

#[test]
fn test_upsample_no_cb_cr_swap_420() {
    // Test that upsampling doesn't swap Cb and Cr
    let width = 4;
    let height = 4;
    let dimensions = PixelDimensions { width, height };

    // Create subsampled data with distinct values
    let y = vec![128.0; width * height];
    let chroma_size = (width / 2) * (height / 2);
    let cb = vec![50.0; chroma_size];
    let cr = vec![200.0; chroma_size];

    let upsampled = upsample_ycbcr(dimensions, y, cb, cr, Subsampling::Sample420);

    // Check that Cb stays around 50
    assert!(
        upsampled.cb[0] < 100.0,
        "Upsample420: Cb[0]={} appears swapped with Cr (expected ~50)",
        upsampled.cb[0]
    );

    // Check that Cr stays around 200
    assert!(
        upsampled.cr[0] > 150.0,
        "Upsample420: Cr[0]={} appears swapped with Cb (expected ~200)",
        upsampled.cr[0]
    );
}

#[test]
fn test_subsample_dimensions_420() {
    // Verify that 420 subsampling produces correct dimensions
    let width = 16;
    let height = 16;
    let dimensions = PixelDimensions { width, height };

    let pixels = vec![
        Ycbcr {
            y: 128.0,
            cb: 128.0,
            cr: 128.0,
            a: 255.0
        };
        width * height
    ];
    let subsampled = subsample_ycbcr(dimensions, &pixels, Subsampling::Sample420);

    // 420: half width, half height
    let expected_chroma_size = (width / 2) * (height / 2);
    assert_eq!(
        subsampled.cb.len(),
        expected_chroma_size,
        "Sample420: Cb size incorrect"
    );
    assert_eq!(
        subsampled.cr.len(),
        expected_chroma_size,
        "Sample420: Cr size incorrect"
    );
}

#[test]
fn test_subsample_dimensions_422() {
    let width = 16;
    let height = 16;
    let dimensions = PixelDimensions { width, height };

    let pixels = vec![
        Ycbcr {
            y: 128.0,
            cb: 128.0,
            cr: 128.0,
            a: 255.0
        };
        width * height
    ];
    let subsampled = subsample_ycbcr(dimensions, &pixels, Subsampling::Sample422);

    // 422: half width, full height
    let expected_chroma_size = (width / 2) * height;
    assert_eq!(
        subsampled.cb.len(),
        expected_chroma_size,
        "Sample422: Cb size incorrect"
    );
    assert_eq!(
        subsampled.cr.len(),
        expected_chroma_size,
        "Sample422: Cr size incorrect"
    );
}

#[test]
fn test_subsample_dimensions_411() {
    let width = 16;
    let height = 16;
    let dimensions = PixelDimensions { width, height };

    let pixels = vec![
        Ycbcr {
            y: 128.0,
            cb: 128.0,
            cr: 128.0,
            a: 255.0
        };
        width * height
    ];
    let subsampled = subsample_ycbcr(dimensions, &pixels, Subsampling::Sample411);

    // 411: quarter width, full height
    let expected_chroma_size = (width / 4) * height;
    assert_eq!(
        subsampled.cb.len(),
        expected_chroma_size,
        "Sample411: Cb size incorrect"
    );
    assert_eq!(
        subsampled.cr.len(),
        expected_chroma_size,
        "Sample411: Cr size incorrect"
    );
}

#[test]
fn test_upsample_dimensions_restoration() {
    // Test that upsampling restores original dimensions
    let width = 16;
    let height = 16;
    let dimensions = PixelDimensions { width, height };

    let pixels = vec![
        Ycbcr {
            y: 128.0,
            cb: 128.0,
            cr: 128.0,
            a: 255.0
        };
        width * height
    ];

    for subsampling in &[
        Subsampling::Sample420,
        Subsampling::Sample422,
        Subsampling::Sample411,
        Subsampling::Sample444,
    ] {
        let subsampled = subsample_ycbcr(dimensions, &pixels, *subsampling);
        let upsampled = upsample_ycbcr(
            dimensions,
            subsampled.y,
            subsampled.cb,
            subsampled.cr,
            *subsampling,
        );

        assert_eq!(
            upsampled.y.len(),
            width * height,
            "{:?}: Y size not restored",
            subsampling
        );
        assert_eq!(
            upsampled.cb.len(),
            width * height,
            "{:?}: Cb size not restored",
            subsampling
        );
        assert_eq!(
            upsampled.cr.len(),
            width * height,
            "{:?}: Cr size not restored",
            subsampling
        );
    }
}

#[test]
fn chroma_is_averaged_and_spread() {
    let dimensions = PixelDimensions { width: 3, height: 3 };
    let pixels: Vec<Ycbcr> = (0..9)
        .map(|i| Ycbcr { y: i as f64, cb: 10.0 * i as f64, cr: -(i as f64), a: 0.0 })
        .collect();
    let group = subsample_ycbcr(dimensions, &pixels, Subsampling::Sample420);
    assert_eq!(group.y, [0.0, 1.0, 2.0, 3.0, 4.0, 5.0, 6.0, 7.0, 8.0]);
    assert_eq!(group.cb, [20.0, 27.5, 0.0, 0.0]);
    assert_eq!(group.cr, [-2.0, -2.75, 0.0, 0.0]);
    let dimensions = PixelDimensions { width: 4, height: 2 };
    let group = subsample_ycbcr(dimensions, &pixels[..8], Subsampling::Sample411);
    assert_eq!(group.cb, [15.0, 55.0]);
    let back = upsample_ycbcr(dimensions, group.y, group.cb, group.cr, Subsampling::Sample411);
    assert_eq!(back.cb, [15.0, 15.0, 15.0, 15.0, 55.0, 55.0, 55.0, 55.0]);
    let dimensions = PixelDimensions { width: 3, height: 3 };
    let group = subsample_ycbcr(dimensions, &pixels, Subsampling::Sample444);
    let back = upsample_ycbcr(dimensions, group.y, group.cb, group.cr, Subsampling::Sample444);
    assert_eq!(back.cr, [0.0, -1.0, -2.0, -3.0, -4.0, -5.0, -6.0, -7.0, -8.0]);
}
