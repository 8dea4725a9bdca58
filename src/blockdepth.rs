//! Selection of the block depth for 3D surfaces.
use vstd::prelude::*;

verus! {

/// The block depth (in slices) for a surface `depth` slices deep: the largest of
/// 1, 2, 4, 8, 16 that is at most `depth + depth / 2`.
pub open spec fn block_depth_spec(depth: int) -> int {
    let depth_and_half = depth + depth / 2;
    if depth_and_half >= 16 {
        16
    } else if depth_and_half >= 8 {
        8
    } else if depth_and_half >= 4 {
        4
    } else if depth_and_half >= 2 {
        2
    } else {
        1
    }
}

/// The block depth for a mip level `mip_depth` slices deep: `gob_depth` halved
/// for as long as half of it still covers the mip level.
pub open spec fn mip_block_depth_spec(mip_depth: int, gob_depth: int) -> int
    decreases gob_depth,
{
    if gob_depth > 1 && mip_depth <= gob_depth / 2 {
        mip_block_depth_spec(mip_depth, gob_depth / 2)
    } else {
        gob_depth
    }
}

/// Calculates the block depth for the first mip level of a surface `depth` slices deep.
pub fn block_depth(depth: u32) -> (r: u32)
    ensures
        r == block_depth_spec(depth as int),
{
    let depth_and_half = depth as u64 + (depth / 2) as u64;
    if depth_and_half >= 16 {
        16
    } else if depth_and_half >= 8 {
        8
    } else if depth_and_half >= 4 {
        4
    } else if depth_and_half >= 2 {
        2
    } else {
        1
    }
}

/// Calculates the block depth for a mip level `mip_depth` slices deep,
/// starting from the block depth `gob_depth` of the first mip level.
pub fn mip_block_depth(mip_depth: u32, gob_depth: u32) -> (r: u32)
    ensures
        r == mip_block_depth_spec(mip_depth as int, gob_depth as int),
{
    let mut gob_depth_mip = gob_depth;
    while mip_depth <= gob_depth_mip / 2 && gob_depth_mip > 1
        invariant
            mip_block_depth_spec(mip_depth as int, gob_depth_mip as int)
                == mip_block_depth_spec(mip_depth as int, gob_depth as int),
        decreases gob_depth_mip,
    {
        gob_depth_mip = gob_depth_mip / 2;
    }
    gob_depth_mip
}

} // verus!
