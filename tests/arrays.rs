use std::cmp::max;
use tegra_swizzle::arrays::align_layer_size;
use tegra_swizzle::swizzle::swizzled_mip_size;
use tegra_swizzle::{block_height_mip0, div_round_up, mip_block_height, BlockHeight};

fn aligned_size(
    width: u32,
    height: u32,
    block_width: u32,
    block_height: u32,
    bpp: u32,
    mipmap_count: u32,
) -> usize {
    let block_height_mip0 = block_height_mip0(div_round_up(height, block_height));

    let mut layer_size = 0;

    for mip in 0..mipmap_count {
        let mip_width = max(div_round_up(width >> mip, block_width), 1);
        let mip_height = max(div_round_up(height >> mip, block_height), 1);

        // The block height will likely change for each mip level.
        let mip_block_height = mip_block_height(mip_height, block_height_mip0);

        layer_size += swizzled_mip_size(mip_width, mip_height, 1, mip_block_height, bpp);
    }

    // Assume 6 array layers.
    align_layer_size(layer_size, height, 1, block_height_mip0, 1) * 6
}

fn layer_size_no_mips(width: u32, height: u32, block_width: u32, block_height: u32, bpp: u32) -> usize {
    let width = div_round_up(width, block_width);
    let height = div_round_up(height, block_height);
    let block_height_mip0 = block_height_mip0(height);
    let layer_size = swizzled_mip_size(width, height, 1, block_height_mip0, bpp);
    let aligned = align_layer_size(layer_size, height, 1, block_height_mip0, 1);
    aligned * 6
}

#[test]
fn layer_sizes_no_mipmaps() {
    assert_eq!(6144, aligned_size(16, 16, 1, 1, 4, 1));
    assert_eq!(3072, aligned_size(16, 16, 4, 4, 8, 1));
    assert_eq!(25165824, aligned_size(2048, 2048, 4, 4, 16, 1));
    assert_eq!(1572864, aligned_size(256, 256, 1, 1, 4, 1));
    assert_eq!(98304, aligned_size(64, 64, 1, 1, 4, 1));
    assert_eq!(98304, aligned_size(64, 64, 1, 1, 4, 1));
    assert_eq!(393216, aligned_size(64, 64, 1, 1, 16, 1));
}

#[test]
fn layer_sizes_mipmaps() {
    assert_eq!(147456, aligned_size(128, 128, 4, 4, 16, 8));
    assert_eq!(15360, aligned_size(16, 16, 4, 4, 16, 5));
    assert_eq!(540672, aligned_size(256, 256, 4, 4, 16, 9));
    assert_eq!(1204224, aligned_size(288, 288, 4, 4, 16, 9));
    assert_eq!(2113536, aligned_size(512, 512, 4, 4, 16, 10));
    assert_eq!(49152, aligned_size(64, 64, 4, 4, 16, 7));
}

#[test]
fn layer_size_no_mipmaps() {
    assert_eq!(6144, layer_size_no_mips(16, 16, 1, 1, 4));
    assert_eq!(3072, layer_size_no_mips(16, 16, 4, 4, 8));
    assert_eq!(25165824, layer_size_no_mips(2048, 2048, 4, 4, 16));
    assert_eq!(1572864, layer_size_no_mips(256, 256, 1, 1, 4));
    assert_eq!(98304, layer_size_no_mips(64, 64, 1, 1, 4));
    assert_eq!(98304, layer_size_no_mips(64, 64, 1, 1, 4));
    assert_eq!(393216, layer_size_no_mips(64, 64, 1, 1, 16));
}

#[test]
fn layer_size_mipmaps() {
    assert_eq!(147456, aligned_size(128, 128, 4, 4, 16, 8));
}

#[test]
fn align_layer_size_rounds_up_to_the_block_of_gobs() {
    // A block height of 16 shrinks to 2 for a surface 16 rows tall: 1024 byte alignment.
    assert_eq!(1024, align_layer_size(1, 16, 1, BlockHeight::Sixteen, 1));
    assert_eq!(2048, align_layer_size(1025, 16, 1, BlockHeight::Sixteen, 1));
    assert_eq!(2048, align_layer_size(2048, 16, 1, BlockHeight::Sixteen, 1));
    assert_eq!(0, align_layer_size(0, 16, 1, BlockHeight::Sixteen, 1));
    // The depth in GOBs shrinks to fit the depth as well.
    assert_eq!(2048, align_layer_size(100, 1000, 4, BlockHeight::One, 16));
}
