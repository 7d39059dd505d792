use vidoc::bitstream::{BitStreamReader, BitStreamWriter};
use vidoc::color::Subsampling;
use vidoc::dimensions::{BlockDimensions, PixelDimensions};
use vidoc::error::Error;


#[test]
fn test_block_dimensions_from_tuple_u32() {
    let dims = BlockDimensions::from((640u32, 480u32));
    assert_eq!(dims.width, 640);
    assert_eq!(dims.height, 480);
}

#[test]
fn test_block_dimensions_from_tuple_usize() {
    let dims = BlockDimensions::from((1920usize, 1080usize));
    assert_eq!(dims.width, 1920);
    assert_eq!(dims.height, 1080);
}

#[test]
fn test_block_dimensions_to_tuple() {
    let dims = BlockDimensions {
        width: 100,
        height: 75,
    };
    let tuple: (usize, usize) = dims.into();
    assert_eq!(tuple, (100, 75));
}

#[test]
fn test_block_dimensions_from_pixel_dimensions() {
    let pixel_dims = PixelDimensions {
        width: 640,
        height: 480,
    };
    let block_dims = BlockDimensions::from(pixel_dims);
    assert_eq!(block_dims.width, 80); // 640 / 8
    assert_eq!(block_dims.height, 60); // 480 / 8
}

#[test]
fn test_block_dimensions_from_pixel_dimensions_rounds_up() {
    let pixel_dims = PixelDimensions {
        width: 641,
        height: 481,
    };
    let block_dims = BlockDimensions::from(pixel_dims);
    assert_eq!(block_dims.width, 81); // div_ceil(641 / 8) = 81
    assert_eq!(block_dims.height, 61); // div_ceil(481 / 8) = 61
}

#[test]
fn test_block_dimensions_subsample_444() {
    let dims = BlockDimensions {
        width: 80,
        height: 60,
    };
    let subsampled = dims.subsample(Subsampling::Sample444);
    assert_eq!(subsampled.width, 80);
    assert_eq!(subsampled.height, 60);
}

#[test]
fn test_block_dimensions_subsample_422() {
    let dims = BlockDimensions {
        width: 80,
        height: 60,
    };
    let subsampled = dims.subsample(Subsampling::Sample422);
    assert_eq!(subsampled.width, 40); // div_ceil(80 / 2)
    assert_eq!(subsampled.height, 60);
}

#[test]
fn test_block_dimensions_subsample_420() {
    let dims = BlockDimensions {
        width: 80,
        height: 60,
    };
    let subsampled = dims.subsample(Subsampling::Sample420);
    assert_eq!(subsampled.width, 40); // div_ceil(80 / 2)
    assert_eq!(subsampled.height, 30); // div_ceil(60 / 2)
}

#[test]
fn test_block_dimensions_subsample_411() {
    let dims = BlockDimensions {
        width: 80,
        height: 60,
    };
    let subsampled = dims.subsample(Subsampling::Sample411);
    assert_eq!(subsampled.width, 20); // div_ceil(80 / 4)
    assert_eq!(subsampled.height, 60);
}

#[test]
fn test_block_dimensions_encode_decode() {
    let dims = BlockDimensions {
        width: 100,
        height: 75,
    };

        let mut writer = BitStreamWriter::new();
    dims.encode(&mut writer).unwrap();
    writer.flush().unwrap();

    let mut reader = BitStreamReader::new(writer.into_inner());
    let decoded = BlockDimensions::decode(&mut reader).unwrap();

    assert_eq!(decoded.width, 100);
    assert_eq!(decoded.height, 75);
}

#[test]
fn test_pixel_dimensions_from_tuple_u32() {
    let dims = PixelDimensions::from((1920u32, 1080u32));
    assert_eq!(dims.width, 1920);
    assert_eq!(dims.height, 1080);
}

#[test]
fn test_pixel_dimensions_from_tuple_usize() {
    let dims = PixelDimensions::from((640usize, 480usize));
    assert_eq!(dims.width, 640);
    assert_eq!(dims.height, 480);
}

#[test]
fn test_pixel_dimensions_to_tuple() {
    let dims = PixelDimensions {
        width: 1920,
        height: 1080,
    };
    let tuple: (usize, usize) = dims.into();
    assert_eq!(tuple, (1920, 1080));
}

#[test]
fn test_pixel_dimensions_from_block_dimensions() {
    let block_dims = BlockDimensions {
        width: 80,
        height: 60,
    };
    let pixel_dims = PixelDimensions::from(block_dims);
    assert_eq!(pixel_dims.width, 640); // 80 * 8
    assert_eq!(pixel_dims.height, 480); // 60 * 8
}

#[test]
fn test_pixel_dimensions_from_block_dimensions_ref() {
    let block_dims = BlockDimensions {
        width: 100,
        height: 75,
    };
    let pixel_dims = PixelDimensions::from(&block_dims);
    assert_eq!(pixel_dims.width, 800); // 100 * 8
    assert_eq!(pixel_dims.height, 600); // 75 * 8
}

#[test]
fn test_pixel_dimensions_subsample_444() {
    let dims = PixelDimensions {
        width: 640,
        height: 480,
    };
    let subsampled = dims.subsample(Subsampling::Sample444);
    assert_eq!(subsampled.width, 640);
    assert_eq!(subsampled.height, 480);
}

#[test]
fn test_pixel_dimensions_subsample_422() {
    let dims = PixelDimensions {
        width: 640,
        height: 480,
    };
    let subsampled = dims.subsample(Subsampling::Sample422);
    assert_eq!(subsampled.width, 320); // div_ceil(640 / 2)
    assert_eq!(subsampled.height, 480);
}

#[test]
fn test_pixel_dimensions_subsample_420() {
    let dims = PixelDimensions {
        width: 640,
        height: 480,
    };
    let subsampled = dims.subsample(Subsampling::Sample420);
    assert_eq!(subsampled.width, 320); // div_ceil(640 / 2)
    assert_eq!(subsampled.height, 240); // div_ceil(480 / 2)
}

#[test]
fn test_pixel_dimensions_subsample_411() {
    let dims = PixelDimensions {
        width: 640,
        height: 480,
    };
    let subsampled = dims.subsample(Subsampling::Sample411);
    assert_eq!(subsampled.width, 160); // div_ceil(640 / 4)
    assert_eq!(subsampled.height, 480);
}

#[test]
fn test_pixel_dimensions_encode_decode() {
    let dims = PixelDimensions {
        width: 1920,
        height: 1080,
    };

        let mut writer = BitStreamWriter::new();
    dims.encode(&mut writer).unwrap();
    writer.flush().unwrap();

    let mut reader = BitStreamReader::new(writer.into_inner());
    let decoded = PixelDimensions::decode(&mut reader).unwrap();

    assert_eq!(decoded.width, 1920);
    assert_eq!(decoded.height, 1080);
}

#[test]
fn test_dimensions_equality() {
    let dims1 = PixelDimensions {
        width: 640,
        height: 480,
    };
    let dims2 = PixelDimensions {
        width: 640,
        height: 480,
    };
    let dims3 = PixelDimensions {
        width: 1920,
        height: 1080,
    };

    assert_eq!(dims1, dims2);
    assert_ne!(dims1, dims3);
}

#[test]
fn sizes_that_end_early() {
    let mut reader = BitStreamReader::new(vec![0, 0, 0]);
    match BlockDimensions::decode(&mut reader) {
        Err(Error::FailedToDecode(what)) => assert_eq!(what, "width"),
        _ => panic!("the stream has no width"),
    }
    let mut reader = BitStreamReader::new(vec![0, 0, 0, 1, 0]);
    match PixelDimensions::decode(&mut reader) {
        Err(Error::FailedToDecode(what)) => assert_eq!(what, "height"),
        _ => panic!("the stream has no height"),
    }
}

#[test]
fn modes_come_back() {
    for mode in [
        Subsampling::Sample411,
        Subsampling::Sample420,
        Subsampling::Sample422,
        Subsampling::Sample444,
    ] {
        let mut writer = BitStreamWriter::new();
        mode.encode(&mut writer).unwrap();
        let mut reader = BitStreamReader::new(writer.into_inner());
        assert_eq!(Subsampling::decode(&mut reader).unwrap(), mode);
    }
    let mut reader = BitStreamReader::new(vec![4]);
    assert!(matches!(Subsampling::decode(&mut reader), Err(Error::InvalidData)));
}
