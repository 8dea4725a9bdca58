//! Selection of the block height for the base mip level and for each further mip level.
use vstd::prelude::*;

use crate::{div_ceil, BlockHeight};

verus! {

/// The block height inferred for a surface `height` items tall, for its first mip level:
/// the largest of 1, 2, 4, 8, 16 whose rows `block_height * 8` are at most `height * 3 / 2`
/// (where `height / 2` truncates).
pub open spec fn block_height_mip0_spec(height: int) -> BlockHeight {
    let height_and_half = height + height / 2;
    if height_and_half >= 128 {
        BlockHeight::Sixteen
    } else if height_and_half >= 64 {
        BlockHeight::Eight
    } else if height_and_half >= 32 {
        BlockHeight::Four
    } else if height_and_half >= 16 {
        BlockHeight::Two
    } else {
        BlockHeight::One
    }
}

/// The block height for a mip level `mip_height` items tall: `block_height` halved
/// for as long as half of it still covers the mip level.
pub open spec fn mip_block_height_spec(mip_height: int, block_height: BlockHeight) -> BlockHeight
    decreases block_height@,
{
    if block_height@ > 1 && mip_height <= (block_height@ / 2) * 8 {
        mip_block_height_spec(mip_height, block_height.halved())
    } else {
        block_height
    }
}

/// A mip level's block height is never larger than the one it starts from.
pub proof fn lemma_mip_block_height_le(mip_height: int, block_height: BlockHeight)
    ensures
        mip_block_height_spec(mip_height, block_height)@ <= block_height@,
    decreases block_height@,
{
    if block_height@ > 1 && mip_height <= (block_height@ / 2) * 8 {
        lemma_mip_block_height_le(mip_height, block_height.halved());
    }
}

/// Calculates the block height parameter to use for the first mip level
/// if no block height is specified.
///
/// Uncompressed formats like R8G8B8A8 can use the height in pixels.
/// For compressed formats, divide the height by the block dimensions.
pub fn block_height_mip0(height: u32) -> (r: BlockHeight)
    ensures
        r == block_height_mip0_spec(height as int),
{
    let height_and_half = height as u64 + (height / 2) as u64;
    if height_and_half >= 128 {
        BlockHeight::Sixteen
    } else if height_and_half >= 64 {
        BlockHeight::Eight
    } else if height_and_half >= 32 {
        BlockHeight::Four
    } else if height_and_half >= 16 {
        BlockHeight::Two
    } else {
        BlockHeight::One
    }
}

/// Calculates the block height parameter for a mip level `mip_height` items tall.
///
/// For texture formats that don't specify the block height for the base mip level,
/// use [block_height_mip0] to calculate the initial block height.
pub fn mip_block_height(mip_height: u32, block_height_mip0: BlockHeight) -> (r: BlockHeight)
    ensures
        r == mip_block_height_spec(mip_height as int, block_height_mip0),
        r@ <= block_height_mip0@,
{
    proof {
        lemma_mip_block_height_le(mip_height as int, block_height_mip0);
    }
    let mut block_height = block_height_mip0;
    while block_height.value() > 1 && mip_height <= (block_height.value() / 2) * 8
        invariant
            mip_block_height_spec(mip_height as int, block_height)
                == mip_block_height_spec(mip_height as int, block_height_mip0),
        decreases block_height@,
    {
        block_height = block_height.halve();
    }
    block_height
}

/// The block height that the simpler heuristic picks for a surface `height` items tall:
/// the height in GOBs, rounded up to the next supported block height, at most 16.
pub open spec fn block_height_spec(height: int) -> BlockHeight {
    let gobs = div_ceil(height, 8);
    if gobs <= 1 {
        BlockHeight::One
    } else if gobs == 2 {
        BlockHeight::Two
    } else if gobs <= 4 {
        BlockHeight::Four
    } else if gobs <= 8 {
        BlockHeight::Eight
    } else {
        BlockHeight::Sixteen
    }
}

/// Gets the height of each block in GOBs for a surface `height` items tall by rounding
/// its height in GOBs up to the next supported block height, with at most 16 GOBs.
///
/// This heuristic matches fewer real textures than [block_height_mip0].
pub fn block_height(height: u32) -> (r: BlockHeight)
    ensures
        r == block_height_spec(height as int),
{
    let gobs = crate::div_round_up(height, 8);
    if gobs <= 1 {
        BlockHeight::One
    } else if gobs == 2 {
        BlockHeight::Two
    } else if gobs <= 4 {
        BlockHeight::Four
    } else if gobs <= 8 {
        BlockHeight::Eight
    } else {
        BlockHeight::Sixteen
    }
}

} // verus!
