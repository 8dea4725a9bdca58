//! Alignment of the tiled size of each array layer.
use vstd::prelude::*;

use crate::blockdepth::{mip_block_depth, mip_block_depth_spec};
use crate::blockheight::{mip_block_height, mip_block_height_spec};
use crate::{round_up_spec, BlockHeight};

verus! {

/// The alignment of an array layer: a block of GOBs whose height and depth are the
/// block height and block depth of the base level, shrunk to fit the surface.
pub open spec fn layer_alignment(
    height: u32,
    depth: u32,
    block_height_mip0: BlockHeight,
    depth_in_gobs: u32,
) -> int {
    mip_block_height_spec(height as int, block_height_mip0)@ * mip_block_depth_spec(
        depth as int,
        depth_in_gobs as int,
    ) * 512
}

/// The size of an array layer of `layer_size` tiled bytes, padded to its alignment.
pub open spec fn align_layer_size_spec(
    layer_size: int,
    height: u32,
    depth: u32,
    block_height_mip0: BlockHeight,
    depth_in_gobs: u32,
) -> int {
    round_up_spec(layer_size, layer_alignment(height, depth, block_height_mip0, depth_in_gobs))
}

pub proof fn lemma_mip_block_depth_bounds(mip_depth: int, gob_depth: int)
    requires
        gob_depth >= 1,
    ensures
        1 <= mip_block_depth_spec(mip_depth, gob_depth) <= gob_depth,
    decreases gob_depth,
{
    if gob_depth > 1 && mip_depth <= gob_depth / 2 {
        lemma_mip_block_depth_bounds(mip_depth, gob_depth / 2);
    }
}

/// The alignment of a layer is a positive multiple of the GOB size.
pub proof fn lemma_layer_alignment(
    height: u32,
    depth: u32,
    block_height_mip0: BlockHeight,
    depth_in_gobs: u32,
)
    requires
        depth_in_gobs >= 1,
    ensures
        512 <= layer_alignment(height, depth, block_height_mip0, depth_in_gobs) <= 512 * 32
            * depth_in_gobs,
        layer_alignment(height, depth, block_height_mip0, depth_in_gobs) % 512 == 0,
{
    let gh = mip_block_height_spec(height as int, block_height_mip0)@ as int;
    let gd = mip_block_depth_spec(depth as int, depth_in_gobs as int);
    lemma_mip_block_depth_bounds(depth as int, depth_in_gobs as int);
    assert(1 <= gh <= 32);
    assert(512 <= gh * gd * 512 <= 512 * 32 * depth_in_gobs) by (nonlinear_arith)
        requires 1 <= gh <= 32, 1 <= gd <= depth_in_gobs;
    assert((gh * gd * 512) % 512 == 0) by (nonlinear_arith);
}

/// Pads the tiled size `layer_size` of one array layer to the alignment that the
/// layers of an array or cube map surface use, or returns `None` where the padded
/// size does not fit in `usize`.
pub(crate) fn checked_align_layer_size(
    layer_size: usize,
    height: u32,
    depth: u32,
    block_height_mip0: BlockHeight,
    depth_in_gobs: u32,
) -> (r: Option<usize>)
    requires
        depth_in_gobs >= 1,
    ensures
        r == (if align_layer_size_spec(
            layer_size as int,
            height,
            depth,
            block_height_mip0,
            depth_in_gobs,
        ) <= usize::MAX {
            Some(
                align_layer_size_spec(
                    layer_size as int,
                    height,
                    depth,
                    block_height_mip0,
                    depth_in_gobs,
                ) as usize,
            )
        } else {
            None::<usize>
        }),
{
    proof {
        lemma_layer_alignment(height, depth, block_height_mip0, depth_in_gobs);
    }
    // Sparse textures are not supported, so there is one block of GOBs in a tile.
    let gob_blocks_in_tile_x: u128 = 1;
    let gob_height = mip_block_height(height, block_height_mip0).value() as u128;
    let gob_depth = mip_block_depth(depth, depth_in_gobs) as u128;
    proof {
        lemma_mip_block_depth_bounds(depth as int, depth_in_gobs as int);
        assert(gob_height * gob_depth <= 32 * u32::MAX) by (nonlinear_arith)
            requires gob_height <= 32, gob_depth <= u32::MAX;
    }
    let size = layer_size as u128;
    let alignment = if gob_blocks_in_tile_x < 2 {
        gob_height * gob_depth * 512
    } else {
        (gob_blocks_in_tile_x * 512) * gob_height * gob_depth
    };
    let size_in_blocks = size / alignment;
    proof {
        crate::lemma_div_ceil_bounds(size as int, alignment as int);
        assert(size_in_blocks * alignment <= size) by (nonlinear_arith)
            requires size_in_blocks == size / alignment, alignment > 0, size >= 0;
        assert(size_in_blocks * alignment + size % alignment == size) by (nonlinear_arith)
            requires size_in_blocks == size / alignment, alignment > 0, size >= 0;
        assert(crate::div_ceil(size as int, alignment as int) == size_in_blocks + (if size
            % alignment == 0 { 0int } else { 1 })) by (nonlinear_arith)
            requires size_in_blocks == size / alignment, alignment > 0, size >= 0;
        assert((size_in_blocks + 1) * alignment == size_in_blocks * alignment + alignment)
            by (nonlinear_arith);
    }
    let aligned = if size % alignment != 0 {
        (size_in_blocks + 1) * alignment
    } else {
        size
    };
    if aligned <= usize::MAX as u128 {
        Some(aligned as usize)
    } else {
        None
    }
}

/// Pads the tiled size `layer_size` of one array layer to the alignment that the
/// layers of an array or cube map surface use.
pub fn align_layer_size(
    layer_size: usize,
    height: u32,
    depth: u32,
    block_height_mip0: BlockHeight,
    depth_in_gobs: u32,
) -> (r: usize)
    requires
        depth_in_gobs >= 1,
        align_layer_size_spec(layer_size as int, height, depth, block_height_mip0, depth_in_gobs)
            <= usize::MAX,
    ensures
        r == align_layer_size_spec(
            layer_size as int,
            height,
            depth,
            block_height_mip0,
            depth_in_gobs,
        ),
        r >= layer_size,
{
    proof {
        lemma_layer_alignment(height, depth, block_height_mip0, depth_in_gobs);
        crate::lemma_div_ceil_bounds(
            layer_size as int,
            layer_alignment(height, depth, block_height_mip0, depth_in_gobs),
        );
    }
    match checked_align_layer_size(layer_size, height, depth, block_height_mip0, depth_in_gobs) {
        Some(size) => size,
        None => layer_size,
    }
}

} // verus!
