use rand::{rngs::StdRng, Rng, SeedableRng};
use tegra_swizzle::swizzle::{
    deswizzle_block_linear, deswizzled_mip_size, swizzle_block_linear, swizzled_mip_size,
};
use tegra_swizzle::{block_height, BlockHeight, SwizzleError};

fn swizzle_deswizzle_round_trip(width: u32, height: u32, block_height: BlockHeight, bytes_per_pixel: u32) {
    let deswizzled_size = deswizzled_mip_size(width, height, 1, bytes_per_pixel);

    // Generate mostly unique input data.
    let seed = [13u8; 32];
    let mut rng: StdRng = SeedableRng::from_seed(seed);
    let input: Vec<_> = (0..deswizzled_size)
        .map(|_| rng.gen_range::<u8, _>(0..=255))
        .collect();

    let swizzled =
        swizzle_block_linear(width, height, 1, &input, block_height, bytes_per_pixel).unwrap();

    let deswizzled =
        deswizzle_block_linear(width, height, 1, &swizzled, block_height, bytes_per_pixel)
            .unwrap();

    assert_eq!(input, deswizzled);
}

#[test]
fn swizzle_swizzle_deswizzle_bytes_per_pixel() {
    // Test a value that isn't 4, 8, or 16.
    swizzle_deswizzle_round_trip(312, 575, BlockHeight::Eight, 12);
}

#[test]
fn lib_swizzle_deswizzle_bytes_per_pixel() {
    swizzle_deswizzle_round_trip(312, 575, BlockHeight::Eight, 12);
}

#[test]
fn swizzle_swizzle_empty() {
    let result = swizzle_block_linear(32, 32, 1, &[], BlockHeight::Sixteen, 4);
    assert!(matches!(
        result,
        Err(SwizzleError::NotEnoughData {
            actual_size: 0,
            expected_size: 4096
        })
    ));
}

#[test]
fn lib_swizzle_empty() {
    let err = swizzle_block_linear(32, 32, 1, &[], BlockHeight::Sixteen, 4);
    assert!(matches!(
        err,
        Err(SwizzleError::NotEnoughData {
            actual_size: 0,
            expected_size: 4096
        })
    ));
}

#[test]
fn swizzle_deswizzle_empty() {
    let result = deswizzle_block_linear(32, 32, 1, &[], BlockHeight::Sixteen, 4);
    assert!(matches!(
        result,
        Err(SwizzleError::NotEnoughData {
            actual_size: 0,
            expected_size: 16384
        })
    ));
}

#[test]
fn lib_deswizzle_empty() {
    let err = deswizzle_block_linear(32, 32, 1, &[], BlockHeight::Sixteen, 4);
    assert!(matches!(
        err,
        Err(SwizzleError::NotEnoughData {
            actual_size: 0,
            expected_size: 16384
        })
    ));
}

#[test]
fn swizzle_swizzle_bc7_64_64_not_enough_data() {
    let result = swizzle_block_linear(
        64 / 4,
        64 / 4,
        1,
        &vec![0u8; 64 * 64 - 1],
        BlockHeight::Sixteen,
        16,
    );
    assert!(matches!(
        result,
        Err(SwizzleError::NotEnoughData {
            actual_size: 4095,
            expected_size: 4096
        })
    ));
}

#[test]
fn swizzle_deswizzle_bc7_64_64_not_enough_data() {
    let result =
        deswizzle_block_linear(64 / 4, 64 / 4, 1, &[0u8; 64 * 64], BlockHeight::Sixteen, 16);
    assert!(matches!(
        result,
        Err(SwizzleError::NotEnoughData {
            actual_size: 4096,
            expected_size: 32768
        })
    ));
}

#[test]
fn deswizzled_mip_sizes() {
    assert_eq!(3145728, deswizzled_mip_size(512, 512, 3, 4));
}

#[test]
fn lib_surface_sizes_block4() {
    assert_eq!(
        1048576,
        swizzled_mip_size(512, 512, 1, BlockHeight::Sixteen, 4)
    );
}

#[test]
fn lib_surface_sizes_3d() {
    assert_eq!(16384, swizzled_mip_size(16, 16, 16, BlockHeight::One, 4));
}

#[test]
fn lib_surface_sizes_block16() {
    assert_eq!(
        163840,
        swizzled_mip_size(320 / 4, 320 / 4, 1, BlockHeight::Sixteen, 16)
    );
    assert_eq!(
        40960,
        swizzled_mip_size(160 / 4, 160 / 4, 1, BlockHeight::Four, 16)
    );
    assert_eq!(
        1024,
        swizzled_mip_size(32 / 4, 32 / 4, 1, BlockHeight::One, 16)
    );
}

#[test]
fn swizzled_mip_sizes_are_gob_aligned_and_cover_the_data() {
    for (width, height, depth, bpp) in [(1u32, 1u32, 1u32, 1u32), (312, 575, 1, 12), (33, 33, 33, 4), (7, 3, 5, 16)] {
        for block_height in [BlockHeight::One, BlockHeight::Four, BlockHeight::ThirtyTwo] {
            let swizzled = swizzled_mip_size(width, height, depth, block_height, bpp);
            assert_eq!(0, swizzled % 512);
            assert!(swizzled >= deswizzled_mip_size(width, height, depth, bpp));
        }
    }
    assert_eq!(512, swizzled_mip_size(1, 1, 1, BlockHeight::One, 1));
    assert_eq!(0, swizzled_mip_size(0, 16, 1, BlockHeight::One, 4));
}

#[test]
fn swizzle_places_bytes_by_the_gob_pattern() {
    // One GOB: 16 RGBA pixels per row, 8 rows.
    let input: Vec<u8> = (0..512).map(|i| (i % 256) as u8).collect();
    let swizzled = swizzle_block_linear(16, 8, 1, &input, BlockHeight::One, 4).unwrap();
    assert_eq!(512, swizzled.len());
    // Row 0, bytes 0..16 stay in place; row 1 starts at offset 16; bytes 16..32 of row 0 go to 32.
    assert_eq!(&input[0..16], &swizzled[0..16]);
    assert_eq!(&input[64..80], &swizzled[16..32]);
    assert_eq!(&input[16..32], &swizzled[32..48]);
    assert_eq!(&input[32..48], &swizzled[256..272]);
    assert_ne!(input, swizzled);
}

#[test]
fn deswizzle_of_partial_gobs() {
    // A 3x5 RGBA surface fills part of one GOB.
    let mut tiled = vec![0u8; 512];
    for (i, byte) in tiled.iter_mut().enumerate() {
        *byte = (i % 199) as u8;
    }
    let linear = deswizzle_block_linear(3, 5, 1, &tiled, BlockHeight::One, 4).unwrap();
    assert_eq!(60, linear.len());
    // Byte 0 of row 1 lies at offset 16 of the GOB.
    assert_eq!(tiled[16], linear[12]);
    let again = swizzle_block_linear(3, 5, 1, &linear, BlockHeight::One, 4).unwrap();
    let round = deswizzle_block_linear(3, 5, 1, &again, BlockHeight::One, 4).unwrap();
    assert_eq!(linear, round);
}

#[test]
fn swizzle_empty() {
    let result = swizzle_block_linear(32, 32, 1, &[], BlockHeight::Sixteen, 4);
    assert!(matches!(
        result,
        Err(SwizzleError::NotEnoughData {
            actual_size: 0,
            expected_size: 4096
        })
    ));
}

#[test]
fn deswizzle_empty() {
    let result = deswizzle_block_linear(32, 32, 1, &[], BlockHeight::Sixteen, 4);
    assert!(matches!(
        result,
        Err(SwizzleError::NotEnoughData {
            actual_size: 0,
            expected_size: 16384
        })
    ));
}

#[test]
fn swizzle_bc7_64_64_not_enough_data() {
    let result = swizzle_block_linear(
        64 / 4,
        64 / 4,
        1,
        &vec![0u8; 64 * 64 - 1],
        BlockHeight::Sixteen,
        16,
    );
    assert!(matches!(
        result,
        Err(SwizzleError::NotEnoughData {
            actual_size: 4095,
            expected_size: 4096
        })
    ));
}

#[test]
fn deswizzle_bc7_64_64_not_enough_data() {
    let result =
        deswizzle_block_linear(64 / 4, 64 / 4, 1, &[0u8; 64 * 64], BlockHeight::Sixteen, 16);
    assert!(matches!(
        result,
        Err(SwizzleError::NotEnoughData {
            actual_size: 4096,
            expected_size: 32768
        })
    ));
}

#[test]
fn swizzle_deswizzle_bytes_per_pixel() {
    // Test a value that isn't 4, 8, or 16.
    swizzle_deswizzle_round_trip(312, 575, BlockHeight::Eight, 12);
}

#[test]
fn surface_sizes_block4() {
    assert_eq!(
        1048576,
        swizzled_mip_size(512, 512, 1, block_height(512), 4)
    );
}

#[test]
fn surface_sizes_3d() {
    assert_eq!(
        16384,
        swizzled_mip_size(16, 16, 16, BlockHeight::Two, 4)
    );
}

#[test]
fn surface_sizes_block16() {
    assert_eq!(
        163840,
        swizzled_mip_size(320 / 4, 320 / 4, 1, block_height(320 / 4), 16)
    );
    assert_eq!(
        40960,
        swizzled_mip_size(160 / 4, 160 / 4, 1, block_height(160 / 4), 16)
    );
    assert_eq!(
        1024,
        swizzled_mip_size(32 / 4, 32 / 4, 1, block_height(32 / 4), 16)
    );
}

fn patterned(size: usize) -> Vec<u8> {
    (0..size).map(|i| (i * 31 % 256) as u8).collect()
}

#[test]
fn deswizzle_bc7_64_64_sizes() {
    let input = patterned(4096);
    let output = deswizzle_block_linear(64 / 4, 64 / 4, 1, &input, BlockHeight::Two, 16).unwrap();
    assert_eq!(4096, output.len());
    let back = swizzle_block_linear(64 / 4, 64 / 4, 1, &output, BlockHeight::Two, 16).unwrap();
    assert_eq!(input, back);
}

#[test]
fn deswizzle_bc1_128_128_sizes() {
    // 32x32 blocks of 8 bytes.
    assert_eq!(8192, swizzled_mip_size(128 / 4, 128 / 4, 1, BlockHeight::Four, 8));
    let input = patterned(8192);
    let output = deswizzle_block_linear(128 / 4, 128 / 4, 1, &input, BlockHeight::Four, 8).unwrap();
    assert_eq!(128 * 128 / 2, output.len());
}

#[test]
fn deswizzle_bc3_128_128_sizes() {
    // 32x32 blocks of 16 bytes.
    assert_eq!(16384, swizzled_mip_size(128 / 4, 128 / 4, 1, BlockHeight::Four, 16));
    let input = patterned(16384);
    let output =
        deswizzle_block_linear(128 / 4, 128 / 4, 1, &input, BlockHeight::Four, 16).unwrap();
    assert_eq!(16384, output.len());
}

#[test]
fn deswizzle_rgba_f32_128_128_sizes() {
    let input = patterned(262144);
    let output = deswizzle_block_linear(128, 128, 1, &input, BlockHeight::Sixteen, 16).unwrap();
    assert_eq!(262144, output.len());
}

#[test]
fn deswizzle_rgba_16_16_16_sizes() {
    let input = patterned(16384);
    let output = deswizzle_block_linear(16, 16, 16, &input, BlockHeight::One, 4).unwrap();
    assert_eq!(16384, output.len());
    let back = swizzle_block_linear(16, 16, 16, &output, BlockHeight::One, 4).unwrap();
    assert_eq!(input, back);
}
