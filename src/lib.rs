//! A CPU implementation of the Tegra X1 block linear memory tiling for texture surfaces.
//!
//! Block linear arranges the bytes of a surface into a grid of blocks, each one GOB
//! ("group of bytes", 64x8 bytes) wide and `block_height` GOBs tall. Blocks are laid out
//! linearly in row-major order. The tiled size is padded to whole blocks, so tiled data
//! may be larger than the same data in row-major order.
use vstd::prelude::*;

pub mod arrays;
pub mod blockdepth;
pub mod blockheight;
pub mod surface;
pub mod swizzle;

pub use blockheight::{block_height, block_height_mip0, mip_block_height};

verus! {

/// The width in bytes of a GOB.
pub const GOB_WIDTH_IN_BYTES: usize = 64;

/// The height in bytes (rows) of a GOB.
pub const GOB_HEIGHT_IN_BYTES: usize = 8;

/// The size in bytes of a GOB.
pub const GOB_SIZE_IN_BYTES: usize = 512;

/// The height of each block in GOBs where each GOB is 8 bytes tall.
///
/// Texture file formats differ in how they encode the block height parameter.
/// For formats that do not store it, see [block_height_mip0].
#[derive(Debug, PartialEq, Eq, Clone, Copy, Structural)]
pub enum BlockHeight {
    One,
    Two,
    Four,
    Eight,
    Sixteen,
    ThirtyTwo,
}

/// Errors that can occur while tiling or untiling.
#[derive(Debug, PartialEq, Eq, Clone, Copy, Structural)]
pub enum SwizzleError {
    /// The source data does not contain enough bytes.
    NotEnoughData { expected_size: usize, actual_size: usize },
    /// The surface dimensions would overflow the size computations.
    InvalidSurface { width: u32, height: u32, depth: u32, bytes_per_pixel: u32, mipmap_count: u32 },
}

impl View for BlockHeight {
    type V = nat;

    /// The block height as a number of GOBs.
    open spec fn view(&self) -> nat {
        match self {
            BlockHeight::One => 1,
            BlockHeight::Two => 2,
            BlockHeight::Four => 4,
            BlockHeight::Eight => 8,
            BlockHeight::Sixteen => 16,
            BlockHeight::ThirtyTwo => 32,
        }
    }
}

/// Whether `n` is one of the supported block heights.
pub open spec fn is_block_height(n: int) -> bool {
    n == 1 || n == 2 || n == 4 || n == 8 || n == 16 || n == 32
}

impl BlockHeight {
    /// The next smaller block height, or `One` for `One`.
    pub open spec fn halved(self) -> BlockHeight {
        match self {
            BlockHeight::One => BlockHeight::One,
            BlockHeight::Two => BlockHeight::One,
            BlockHeight::Four => BlockHeight::Two,
            BlockHeight::Eight => BlockHeight::Four,
            BlockHeight::Sixteen => BlockHeight::Eight,
            BlockHeight::ThirtyTwo => BlockHeight::Sixteen,
        }
    }

    /// Attempts to construct a block height from `value`.
    /// Returns `None` if `value` is not a supported block height.
    pub fn new(value: usize) -> (r: Option<Self>)
        ensures
            r.is_some() <==> is_block_height(value as int),
            r matches Some(b) ==> b@ == value,
    {
        match value {
            1 => Some(BlockHeight::One),
            2 => Some(BlockHeight::Two),
            4 => Some(BlockHeight::Four),
            8 => Some(BlockHeight::Eight),
            16 => Some(BlockHeight::Sixteen),
            32 => Some(BlockHeight::ThirtyTwo),
            _ => None,
        }
    }

    /// The block height as a number of GOBs.
    pub fn value(self) -> (r: u32)
        ensures
            r == self@,
            1 <= r <= 32,
    {
        match self {
            BlockHeight::One => 1,
            BlockHeight::Two => 2,
            BlockHeight::Four => 4,
            BlockHeight::Eight => 8,
            BlockHeight::Sixteen => 16,
            BlockHeight::ThirtyTwo => 32,
        }
    }

    /// The next smaller block height, or `One` for `One`.
    pub fn halve(self) -> (r: BlockHeight)
        ensures
            r == self.halved(),
    {
        match self {
            BlockHeight::One => BlockHeight::One,
            BlockHeight::Two => BlockHeight::One,
            BlockHeight::Four => BlockHeight::Two,
            BlockHeight::Eight => BlockHeight::Four,
            BlockHeight::Sixteen => BlockHeight::Eight,
            BlockHeight::ThirtyTwo => BlockHeight::Sixteen,
        }
    }
}

/// `x / d` rounded up.
pub open spec fn div_ceil(x: int, d: int) -> int {
    (x + d - 1) / d
}

/// `x` rounded up to a multiple of `n`.
pub open spec fn round_up_spec(x: int, n: int) -> int {
    div_ceil(x, n) * n
}

/// The number of GOBs needed for one row of `width` items of `bytes_per_pixel` bytes.
pub open spec fn width_in_gobs_spec(width: int, bytes_per_pixel: int) -> int {
    div_ceil(width * bytes_per_pixel, 64)
}

/// The number of blocks of `block_height` GOBs needed for `height` rows.
pub open spec fn height_in_blocks_spec(height: int, block_height: int) -> int {
    div_ceil(height, block_height * 8)
}

proof fn lemma_div_ceil_bounds(x: int, d: int)
    requires
        x >= 0,
        d > 0,
    ensures
        0 <= div_ceil(x, d) <= x,
        div_ceil(x, d) * d >= x,
        div_ceil(x, d) * d < x + d,
        x > 0 ==> div_ceil(x, d) >= 1,
{
    assert(div_ceil(x, d) * d >= x && div_ceil(x, d) * d < x + d
        && 0 <= div_ceil(x, d)) by (nonlinear_arith)
        requires d > 0, x >= 0, div_ceil(x, d) == (x + d - 1) / d;
    let q = div_ceil(x, d);
    assert(q * d <= x + d - 1) by (nonlinear_arith)
        requires d > 0, x >= 0, q == (x + d - 1) / d;
    if q > x {
        assert(q * d >= (x + 1) * d) by (nonlinear_arith) requires q >= x + 1, d > 0;
        assert((x + 1) * d >= x + d) by (nonlinear_arith) requires x >= 0, d >= 1;
    }
}

/// Calculates the division of `x` by `d` but rounds up rather than truncating.
///
/// Use this function when calculating dimensions for block compressed formats like BC7.
/// Uncompressed formats are equivalent to 1x1 pixel blocks.
pub fn div_round_up(x: u32, d: u32) -> (r: u32)
    requires
        d > 0,
    ensures
        r == div_ceil(x as int, d as int),
{
    proof {
        let (xi, di) = (x as int, d as int);
        assert((xi + di - 1) / di == xi / di + (if xi % di != 0 { 1int } else { 0 }))
            by (nonlinear_arith)
            requires di > 0, xi >= 0;
    }
    if x % d != 0 {
        proof {
            assert(x / d < x || x == 0) by (nonlinear_arith) requires d > 0, x >= 0, x % d != 0;
            assert(x / d <= x) by (nonlinear_arith) requires d > 0, x >= 0;
        }
        x / d + 1
    } else {
        x / d
    }
}

/// `x` rounded up to a multiple of `n`.
pub(crate) fn round_up(x: u64, n: u64) -> (r: u64)
    requires
        n > 0,
        x + n <= u64::MAX,
    ensures
        r == round_up_spec(x as int, n as int),
{
    proof {
        lemma_div_ceil_bounds(x as int, n as int);
    }
    ((x + n - 1) / n) * n
}

/// The number of GOBs needed for one row of `width` items of `bytes_per_pixel` bytes.
pub fn width_in_gobs(width: u32, bytes_per_pixel: u32) -> (r: u64)
    ensures
        r == width_in_gobs_spec(width as int, bytes_per_pixel as int),
{
    proof {
        assert(width * bytes_per_pixel <= u32::MAX * u32::MAX) by (nonlinear_arith)
            requires width <= u32::MAX, bytes_per_pixel <= u32::MAX;
    }
    let row = width as u64 * bytes_per_pixel as u64;
    proof {
        lemma_div_ceil_bounds(row as int, 64);
    }
    (row + 63) / 64
}

/// The number of blocks of `block_height` GOBs needed for `height` rows.
pub(crate) fn height_in_blocks(height: u32, block_height: BlockHeight) -> (r: u32)
    ensures
        r == height_in_blocks_spec(height as int, block_height@ as int),
{
    let rows = block_height.value() * 8;
    proof {
        lemma_div_ceil_bounds(height as int, rows as int);
    }
    ((height as u64 + rows as u64 - 1) / rows as u64) as u32
}

} // verus!
