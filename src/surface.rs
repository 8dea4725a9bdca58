//! Functions for working with surfaces stored in a combined buffer for all array layers
//! and mipmaps.
//!
//! Array layers and mipmaps are ordered by layer and then mipmap: layer 0 mip 0,
//! layer 0 mip 1, ..., layer 1 mip 0, and so on. The untiled (row-major) layout is
//! tightly packed. The tiled layout pads each array layer to its alignment.
use vstd::arithmetic::power2::pow2;
use vstd::prelude::*;

use crate::arrays::{align_layer_size_spec, checked_align_layer_size, lemma_layer_alignment};
use crate::blockdepth::{block_depth, block_depth_spec, mip_block_depth, mip_block_depth_spec};
use crate::blockheight::{block_height_mip0_spec, mip_block_height_spec};
use crate::swizzle::{
    checked_deswizzled_mip_size, checked_swizzled_mip_size, deswizzled_mip_size_spec,
    swizzled_mip_size_spec,
};
use crate::swizzle::{deswizzled_mip, swizzled_mip, Mip};
use crate::{div_ceil, div_round_up, BlockHeight, SwizzleError};

verus! {

/// The dimensions of a compressed block, in pixels. Compressed blocks are usually 4x4 pixels.
#[derive(Debug, Clone, Copy, PartialEq, Eq, Structural)]
pub struct BlockDim {
    /// The width of the block in pixels.
    pub width: u32,
    /// The height of the block in pixels.
    pub height: u32,
    /// The depth of the block in pixels.
    pub depth: u32,
}

impl BlockDim {
    /// Every dimension of a block is at least one pixel.
    pub open spec fn valid(self) -> bool {
        self.width >= 1 && self.height >= 1 && self.depth >= 1
    }

    /// A 1x1x1 block for formats that do not use block compression like R8G8B8A8.
    pub fn uncompressed() -> (r: Self)
        ensures
            r.width == 1 && r.height == 1 && r.depth == 1,
            r.valid(),
    {
        BlockDim { width: 1, height: 1, depth: 1 }
    }

    /// A 4x4x1 compressed block. This includes any of the BCN formats like BC1, BC3, or BC7.
    pub fn block_4x4() -> (r: Self)
        ensures
            r.width == 4 && r.height == 4 && r.depth == 1,
            r.valid(),
    {
        BlockDim { width: 4, height: 4, depth: 1 }
    }
}

/// The size in blocks of `block` pixels of mip level `mip` of a dimension of `size`
/// pixels: the size halved `mip` times, rounded up to whole blocks, and at least one.
pub open spec fn mip_dimension(size: u32, mip: int, block: u32) -> int {
    let blocks = div_ceil(size as int / pow2(mip as nat) as int, block as int);
    if blocks < 1 {
        1
    } else {
        blocks
    }
}

/// The block height of the base mip level: the one given, or else the one inferred from
/// the height in blocks. 3D surfaces always use a block height of one.
pub open spec fn surface_block_height_mip0(
    height: u32,
    depth: u32,
    block_dim: BlockDim,
    block_height_mip0: Option<BlockHeight>,
) -> BlockHeight {
    if depth == 1 {
        match block_height_mip0 {
            Some(b) => b,
            None => block_height_mip0_spec(div_ceil(height as int, block_dim.height as int)),
        }
    } else {
        BlockHeight::One
    }
}

/// The block height of mip level `mip`.
pub open spec fn surface_mip_block_height(
    height: u32,
    block_dim: BlockDim,
    block_height_mip0: BlockHeight,
    mip: int,
) -> BlockHeight {
    mip_block_height_spec(mip_dimension(height, mip, block_dim.height), block_height_mip0)
}

/// The shape of mip level `mip` of a surface, with the block height and block depth
/// that its tiling uses.
pub open spec fn surface_mip(
    width: u32,
    height: u32,
    depth: u32,
    block_dim: BlockDim,
    block_height_mip0: BlockHeight,
    bytes_per_pixel: u32,
    mip: int,
) -> crate::swizzle::Mip {
    crate::swizzle::Mip {
        width: mip_dimension(width, mip, block_dim.width),
        height: mip_dimension(height, mip, block_dim.height),
        depth: mip_dimension(depth, mip, block_dim.depth),
        bytes_per_pixel: bytes_per_pixel as int,
        block_height: surface_mip_block_height(height, block_dim, block_height_mip0, mip)@ as int,
        block_depth: mip_block_depth_spec(
            mip_dimension(depth, mip, block_dim.depth),
            block_depth_spec(depth as int),
        ),
    }
}

/// The tiled size of mip level `mip` of a surface.
pub open spec fn mip_swizzled_size(
    width: u32,
    height: u32,
    depth: u32,
    block_dim: BlockDim,
    block_height_mip0: BlockHeight,
    bytes_per_pixel: u32,
    mip: int,
) -> int {
    swizzled_mip_size_spec(
        mip_dimension(width, mip, block_dim.width) as u32,
        mip_dimension(height, mip, block_dim.height) as u32,
        mip_dimension(depth, mip, block_dim.depth) as u32,
        surface_mip_block_height(height, block_dim, block_height_mip0, mip),
        bytes_per_pixel,
    )
}

/// The row-major size of mip level `mip` of a surface.
pub open spec fn mip_deswizzled_size(
    width: u32,
    height: u32,
    depth: u32,
    block_dim: BlockDim,
    bytes_per_pixel: u32,
    mip: int,
) -> int {
    deswizzled_mip_size_spec(
        mip_dimension(width, mip, block_dim.width) as u32,
        mip_dimension(height, mip, block_dim.height) as u32,
        mip_dimension(depth, mip, block_dim.depth) as u32,
        bytes_per_pixel,
    )
}

/// The tiled size of the first `mip_count` mip levels of one layer.
pub open spec fn layer_swizzled_size(
    width: u32,
    height: u32,
    depth: u32,
    block_dim: BlockDim,
    block_height_mip0: BlockHeight,
    bytes_per_pixel: u32,
    mip_count: int,
) -> int
    decreases mip_count,
{
    if mip_count <= 0 {
        0
    } else {
        layer_swizzled_size(
            width,
            height,
            depth,
            block_dim,
            block_height_mip0,
            bytes_per_pixel,
            mip_count - 1,
        ) + mip_swizzled_size(
            width,
            height,
            depth,
            block_dim,
            block_height_mip0,
            bytes_per_pixel,
            mip_count - 1,
        )
    }
}

/// The row-major size of the first `mip_count` mip levels of one layer.
pub open spec fn layer_deswizzled_size(
    width: u32,
    height: u32,
    depth: u32,
    block_dim: BlockDim,
    bytes_per_pixel: u32,
    mip_count: int,
) -> int
    decreases mip_count,
{
    if mip_count <= 0 {
        0
    } else {
        layer_deswizzled_size(width, height, depth, block_dim, bytes_per_pixel, mip_count - 1)
            + mip_deswizzled_size(width, height, depth, block_dim, bytes_per_pixel, mip_count - 1)
    }
}

/// A surface with no bytes: some count is zero.
pub open spec fn is_empty_surface(
    width: u32,
    height: u32,
    depth: u32,
    bytes_per_pixel: u32,
    mipmap_count: u32,
    layer_count: u32,
) -> bool {
    width == 0 || height == 0 || depth == 0 || bytes_per_pixel == 0 || mipmap_count == 0
        || layer_count == 0
}

/// The distance between the starts of two array layers in the tiled layout.
pub open spec fn swizzled_layer_stride(
    width: u32,
    height: u32,
    depth: u32,
    block_dim: BlockDim,
    block_height_mip0: BlockHeight,
    bytes_per_pixel: u32,
    mipmap_count: u32,
    layer_count: u32,
) -> int {
    let layer = layer_swizzled_size(
        width,
        height,
        depth,
        block_dim,
        block_height_mip0,
        bytes_per_pixel,
        mipmap_count as int,
    );
    if layer_count > 1 {
        align_layer_size_spec(layer, height, depth, block_height_mip0, 1)
    } else {
        layer
    }
}

/// The size in bytes of the tiled data of a surface.
pub open spec fn swizzled_surface_size_spec(
    width: u32,
    height: u32,
    depth: u32,
    block_dim: BlockDim,
    block_height_mip0: Option<BlockHeight>,
    bytes_per_pixel: u32,
    mipmap_count: u32,
    layer_count: u32,
) -> int {
    if is_empty_surface(width, height, depth, bytes_per_pixel, mipmap_count, layer_count) {
        0
    } else {
        swizzled_layer_stride(
            width,
            height,
            depth,
            block_dim,
            surface_block_height_mip0(height, depth, block_dim, block_height_mip0),
            bytes_per_pixel,
            mipmap_count,
            layer_count,
        ) * layer_count
    }
}

/// The size in bytes of the row-major data of a surface.
pub open spec fn deswizzled_surface_size_spec(
    width: u32,
    height: u32,
    depth: u32,
    block_dim: BlockDim,
    bytes_per_pixel: u32,
    mipmap_count: u32,
    layer_count: u32,
) -> int {
    if is_empty_surface(width, height, depth, bytes_per_pixel, mipmap_count, layer_count) {
        0
    } else {
        layer_deswizzled_size(
            width,
            height,
            depth,
            block_dim,
            bytes_per_pixel,
            mipmap_count as int,
        ) * layer_count
    }
}

/// The dimensions of a surface keep every size computation within 32 bits, and there
/// are no more mip levels than a 32-bit dimension has.
pub open spec fn valid_surface(
    width: u32,
    height: u32,
    depth: u32,
    bytes_per_pixel: u32,
    mipmap_count: u32,
) -> bool {
    &&& width * height * depth * bytes_per_pixel <= u32::MAX
    &&& width * bytes_per_pixel <= u32::MAX
    &&& depth + depth / 2 <= u32::MAX
    &&& mipmap_count <= 32
}

/// A mip dimension is at least one block and at most the dimension itself.
pub proof fn lemma_mip_dimension(size: u32, mip: int, block: u32)
    requires
        block >= 1,
        mip >= 0,
    ensures
        1 <= mip_dimension(size, mip, block) <= u32::MAX,
        size >= 1 ==> mip_dimension(size, mip, block) <= size,
{
    vstd::arithmetic::power2::lemma_pow2_pos(mip as nat);
    let p = pow2(mip as nat) as int;
    let q = size as int / p;
    assert(0 <= q <= size) by (nonlinear_arith)
        requires q == size as int / p, p >= 1, size >= 0;
    crate::lemma_div_ceil_bounds(q, block as int);
}

/// The tiled size of a mip level with the block depth of its own depth equals its size
/// with the block depth that the surface derives from the depth of its base level.
proof fn lemma_mip_block_depth_size(d: int, base_depth: int)
    requires
        1 <= d <= base_depth,
    ensures
        crate::round_up_spec(d, mip_block_depth_spec(d, block_depth_spec(base_depth)))
            == crate::round_up_spec(d, block_depth_spec(d)),
{
    reveal_with_fuel(mip_block_depth_spec, 6);
    let g = block_depth_spec(base_depth);
    assert(g == 1 || g == 2 || g == 4 || g == 8 || g == 16);
    assert(block_depth_spec(d) <= g);
    if d >= 11 {
        assert(block_depth_spec(base_depth) == 16);
        assert(mip_block_depth_spec(d, 16) == 16);
    } else {
        lemma_block_depth_cases(d, g);
    }
}

/// `x` rounded up to a multiple of `n` is `q * n` when `q` multiples are the first to cover it.
proof fn lemma_round_up_value(x: int, n: int, q: int)
    requires
        n > 0,
        (q - 1) * n < x <= q * n,
    ensures
        crate::round_up_spec(x, n) == q * n,
{
    let r = x + n - 1 - q * n;
    assert(0 <= r < n) by (nonlinear_arith)
        requires r == x + n - 1 - q * n, (q - 1) * n < x, x <= q * n;
    vstd::arithmetic::div_mod::lemma_fundamental_div_mod_converse(x + n - 1, n, q, r);
}

#[verifier::spinoff_prover]
proof fn lemma_block_depth_cases(d: int, g: int)
    requires
        1 <= d <= 10,
        g == 1 || g == 2 || g == 4 || g == 8 || g == 16,
        block_depth_spec(d) <= g,
    ensures
        crate::round_up_spec(d, mip_block_depth_spec(d, g)) == crate::round_up_spec(
            d,
            block_depth_spec(d),
        ),
{
    reveal_with_fuel(mip_block_depth_spec, 6);
    if d == 1 {
        assert(block_depth_spec(1) == 1);
        lemma_round_up_value(1, 1, 1);
        if g == 1 {
            assert(mip_block_depth_spec(1, 1) == 1);
        } else if g == 2 {
            assert(mip_block_depth_spec(1, 2) == 1);
        } else if g == 4 {
            assert(mip_block_depth_spec(1, 4) == 1);
        } else if g == 8 {
            assert(mip_block_depth_spec(1, 8) == 1);
        } else if g == 16 {
            assert(mip_block_depth_spec(1, 16) == 1);
        }
    } else if d == 2 {
        assert(block_depth_spec(2) == 2);
        lemma_round_up_value(2, 2, 1);
        if g == 2 {
            assert(mip_block_depth_spec(2, 2) == 2);
        } else if g == 4 {
            assert(mip_block_depth_spec(2, 4) == 2);
        } else if g == 8 {
            assert(mip_block_depth_spec(2, 8) == 2);
        } else if g == 16 {
            assert(mip_block_depth_spec(2, 16) == 2);
        }
    } else if d == 3 {
        assert(block_depth_spec(3) == 4);
        lemma_round_up_value(3, 4, 1);
        if g == 4 {
            assert(mip_block_depth_spec(3, 4) == 4);
        } else if g == 8 {
            assert(mip_block_depth_spec(3, 8) == 4);
        } else if g == 16 {
            assert(mip_block_depth_spec(3, 16) == 4);
        }
    } else if d == 4 {
        assert(block_depth_spec(4) == 4);
        lemma_round_up_value(4, 4, 1);
        if g == 4 {
            assert(mip_block_depth_spec(4, 4) == 4);
        } else if g == 8 {
            assert(mip_block_depth_spec(4, 8) == 4);
        } else if g == 16 {
            assert(mip_block_depth_spec(4, 16) == 4);
        }
    } else if d == 5 {
        assert(block_depth_spec(5) == 4);
        lemma_round_up_value(5, 4, 2);
        if g == 4 {
            assert(mip_block_depth_spec(5, 4) == 4);
        } else if g == 8 {
            assert(mip_block_depth_spec(5, 8) == 8);
            lemma_round_up_value(5, 8, 1);
        } else if g == 16 {
            assert(mip_block_depth_spec(5, 16) == 8);
            lemma_round_up_value(5, 8, 1);
        }
    } else if d == 6 {
        assert(block_depth_spec(6) == 8);
        lemma_round_up_value(6, 8, 1);
        if g == 8 {
            assert(mip_block_depth_spec(6, 8) == 8);
        } else if g == 16 {
            assert(mip_block_depth_spec(6, 16) == 8);
        }
    } else if d == 7 {
        assert(block_depth_spec(7) == 8);
        lemma_round_up_value(7, 8, 1);
        if g == 8 {
            assert(mip_block_depth_spec(7, 8) == 8);
        } else if g == 16 {
            assert(mip_block_depth_spec(7, 16) == 8);
        }
    } else if d == 8 {
        assert(block_depth_spec(8) == 8);
        lemma_round_up_value(8, 8, 1);
        if g == 8 {
            assert(mip_block_depth_spec(8, 8) == 8);
        } else if g == 16 {
            assert(mip_block_depth_spec(8, 16) == 8);
        }
    } else if d == 9 {
        assert(block_depth_spec(9) == 8);
        lemma_round_up_value(9, 8, 2);
        if g == 8 {
            assert(mip_block_depth_spec(9, 8) == 8);
        } else if g == 16 {
            assert(mip_block_depth_spec(9, 16) == 16);
            lemma_round_up_value(9, 16, 1);
        }
    } else if d == 10 {
        assert(block_depth_spec(10) == 8);
        lemma_round_up_value(10, 8, 2);
        if g == 8 {
            assert(mip_block_depth_spec(10, 8) == 8);
        } else if g == 16 {
            assert(mip_block_depth_spec(10, 16) == 16);
            lemma_round_up_value(10, 16, 1);
        }
    }
}

/// The shape of a mip level of a surface gives its tiled and row-major sizes.
pub proof fn lemma_surface_mip(
    width: u32,
    height: u32,
    depth: u32,
    block_dim: BlockDim,
    block_height_mip0: BlockHeight,
    bytes_per_pixel: u32,
    mip: int,
)
    requires
        block_dim.valid(),
        mip >= 0,
        depth >= 1,
    ensures
        ({
            let m = surface_mip(
                width,
                height,
                depth,
                block_dim,
                block_height_mip0,
                bytes_per_pixel,
                mip,
            );
            &&& m.valid()
            &&& m.swizzled_size() == mip_swizzled_size(
                width,
                height,
                depth,
                block_dim,
                block_height_mip0,
                bytes_per_pixel,
                mip,
            )
            &&& m.deswizzled_size() == mip_deswizzled_size(
                width,
                height,
                depth,
                block_dim,
                bytes_per_pixel,
                mip,
            )
            &&& 0 <= m.deswizzled_size() <= m.swizzled_size()
        }),
{
    let m = surface_mip(width, height, depth, block_dim, block_height_mip0, bytes_per_pixel, mip);
    lemma_mip_dimension(width, mip, block_dim.width);
    lemma_mip_dimension(height, mip, block_dim.height);
    lemma_mip_dimension(depth, mip, block_dim.depth);
    crate::arrays::lemma_mip_block_depth_bounds(m.depth, block_depth_spec(depth as int));
    lemma_mip_block_depth_size(m.depth, depth as int);
    crate::swizzle::lemma_swizzled_size_covers(m);
    assert(m.deswizzled_size() >= 0) by (nonlinear_arith)
        requires
            m.deswizzled_size() == m.width * m.height * m.depth * m.bytes_per_pixel,
            m.width >= 0,
            m.height >= 0,
            m.depth >= 0,
            m.bytes_per_pixel >= 0,
    ;
}

/// The sizes of the first mip levels of a layer grow with the number of mip levels,
/// and the tiled size is at least the row-major size.
pub proof fn lemma_layer_sizes(
    width: u32,
    height: u32,
    depth: u32,
    block_dim: BlockDim,
    block_height_mip0: BlockHeight,
    bytes_per_pixel: u32,
    n1: int,
    n2: int,
)
    requires
        block_dim.valid(),
        depth >= 1,
        0 <= n1 <= n2,
    ensures
        0 <= layer_swizzled_size(
            width,
            height,
            depth,
            block_dim,
            block_height_mip0,
            bytes_per_pixel,
            n1,
        ) <= layer_swizzled_size(
            width,
            height,
            depth,
            block_dim,
            block_height_mip0,
            bytes_per_pixel,
            n2,
        ),
        0 <= layer_deswizzled_size(width, height, depth, block_dim, bytes_per_pixel, n1)
            <= layer_deswizzled_size(width, height, depth, block_dim, bytes_per_pixel, n2),
        layer_deswizzled_size(width, height, depth, block_dim, bytes_per_pixel, n2)
            <= layer_swizzled_size(
            width,
            height,
            depth,
            block_dim,
            block_height_mip0,
            bytes_per_pixel,
            n2,
        ),
    decreases n2,
{
    if n2 > 0 {
        lemma_surface_mip(
            width,
            height,
            depth,
            block_dim,
            block_height_mip0,
            bytes_per_pixel,
            n2 - 1,
        );
        if n1 == n2 {
            lemma_layer_sizes(
                width,
                height,
                depth,
                block_dim,
                block_height_mip0,
                bytes_per_pixel,
                n1 - 1,
                n2 - 1,
            );
        } else {
            lemma_layer_sizes(
                width,
                height,
                depth,
                block_dim,
                block_height_mip0,
                bytes_per_pixel,
                n1,
                n2 - 1,
            );
        }
    }
}

/// The sizes of a surface are never negative.
proof fn lemma_surface_sizes_nonneg(
    width: u32,
    height: u32,
    depth: u32,
    block_dim: BlockDim,
    block_height_mip0: Option<BlockHeight>,
    bytes_per_pixel: u32,
    mipmap_count: u32,
    layer_count: u32,
)
    requires
        block_dim.valid(),
    ensures
        swizzled_surface_size_spec(
            width,
            height,
            depth,
            block_dim,
            block_height_mip0,
            bytes_per_pixel,
            mipmap_count,
            layer_count,
        ) >= 0,
        deswizzled_surface_size_spec(
            width,
            height,
            depth,
            block_dim,
            bytes_per_pixel,
            mipmap_count,
            layer_count,
        ) >= 0,
{
    if !is_empty_surface(width, height, depth, bytes_per_pixel, mipmap_count, layer_count) {
        let bh0 = surface_block_height_mip0(height, depth, block_dim, block_height_mip0);
        lemma_layer_sizes(
            width,
            height,
            depth,
            block_dim,
            bh0,
            bytes_per_pixel,
            0,
            mipmap_count as int,
        );
        let layer = layer_swizzled_size(
            width,
            height,
            depth,
            block_dim,
            bh0,
            bytes_per_pixel,
            mipmap_count as int,
        );
        lemma_layer_alignment(height, depth, bh0, 1);
        crate::lemma_div_ceil_bounds(layer, crate::arrays::layer_alignment(height, depth, bh0, 1));
        let stride = swizzled_layer_stride(
            width,
            height,
            depth,
            block_dim,
            bh0,
            bytes_per_pixel,
            mipmap_count,
            layer_count,
        );
        let des = layer_deswizzled_size(
            width,
            height,
            depth,
            block_dim,
            bytes_per_pixel,
            mipmap_count as int,
        );
        assert(stride * layer_count >= 0 && des * layer_count >= 0) by (nonlinear_arith)
            requires stride >= 0, des >= 0, layer_count >= 0;
    }
}

/// The size in blocks of mip level `mip` of a dimension of `size` pixels.
fn mip_size_in_blocks(size: u32, mip: u32, block: u32) -> (r: u32)
    requires
        block >= 1,
        mip < 32,
    ensures
        r == mip_dimension(size, mip as int, block),
{
    proof {
        vstd::bits::lemma_u32_shr_is_div(size, mip);
    }
    let blocks = div_round_up(size >> mip, block);
    if blocks < 1 {
        1
    } else {
        blocks
    }
}

/// The block height of the base mip level: the one given, or else the one inferred from
/// the height in blocks. 3D surfaces always use a block height of one.
fn block_height_mip0_of(
    height: u32,
    depth: u32,
    block_dim: BlockDim,
    block_height_mip0: Option<BlockHeight>,
) -> (r: BlockHeight)
    requires
        block_dim.valid(),
    ensures
        r == surface_block_height_mip0(height, depth, block_dim, block_height_mip0),
{
    if depth == 1 {
        match block_height_mip0 {
            Some(b) => b,
            None => crate::block_height_mip0(div_round_up(height, block_dim.height)),
        }
    } else {
        BlockHeight::One
    }
}

/// The tiled size of one layer of a nonempty surface, or `None` where it does not fit.
fn checked_layer_swizzled_size(
    width: u32,
    height: u32,
    depth: u32,
    block_dim: BlockDim,
    block_height_mip0: BlockHeight,
    bytes_per_pixel: u32,
    mipmap_count: u32,
) -> (r: Option<usize>)
    requires
        block_dim.valid(),
        depth >= 1,
        mipmap_count <= 32,
    ensures
        r == (if layer_swizzled_size(
            width,
            height,
            depth,
            block_dim,
            block_height_mip0,
            bytes_per_pixel,
            mipmap_count as int,
        ) <= usize::MAX {
            Some(
                layer_swizzled_size(
                    width,
                    height,
                    depth,
                    block_dim,
                    block_height_mip0,
                    bytes_per_pixel,
                    mipmap_count as int,
                ) as usize,
            )
        } else {
            None::<usize>
        }),
{
    let mut layer_size: usize = 0;
    let mut mip: u32 = 0;
    while mip < mipmap_count
        invariant
            block_dim.valid(),
            depth >= 1,
            mipmap_count <= 32,
            mip <= mipmap_count,
            layer_size == layer_swizzled_size(
                width,
                height,
                depth,
                block_dim,
                block_height_mip0,
                bytes_per_pixel,
                mip as int,
            ),
        decreases mipmap_count - mip,
    {
        proof {
            lemma_layer_sizes(
                width,
                height,
                depth,
                block_dim,
                block_height_mip0,
                bytes_per_pixel,
                mip + 1,
                mipmap_count as int,
            );
            lemma_surface_mip(
                width,
                height,
                depth,
                block_dim,
                block_height_mip0,
                bytes_per_pixel,
                mip as int,
            );
        }
        let mip_width = mip_size_in_blocks(width, mip, block_dim.width);
        let mip_height = mip_size_in_blocks(height, mip, block_dim.height);
        let mip_depth = mip_size_in_blocks(depth, mip, block_dim.depth);
        let mip_block_height = crate::mip_block_height(mip_height, block_height_mip0);
        match checked_swizzled_mip_size(
            mip_width,
            mip_height,
            mip_depth,
            mip_block_height,
            bytes_per_pixel,
        ) {
            Some(size) => match layer_size.checked_add(size) {
                Some(sum) => {
                    layer_size = sum;
                },
                None => {
                    return None;
                },
            },
            None => {
                return None;
            },
        }
        mip += 1;
    }
    Some(layer_size)
}

/// The row-major size of one layer of a nonempty surface, or `None` where it does not fit.
fn checked_layer_deswizzled_size(
    width: u32,
    height: u32,
    depth: u32,
    block_dim: BlockDim,
    bytes_per_pixel: u32,
    mipmap_count: u32,
) -> (r: Option<usize>)
    requires
        block_dim.valid(),
        depth >= 1,
        mipmap_count <= 32,
    ensures
        r == (if layer_deswizzled_size(
            width,
            height,
            depth,
            block_dim,
            bytes_per_pixel,
            mipmap_count as int,
        ) <= usize::MAX {
            Some(
                layer_deswizzled_size(
                    width,
                    height,
                    depth,
                    block_dim,
                    bytes_per_pixel,
                    mipmap_count as int,
                ) as usize,
            )
        } else {
            None::<usize>
        }),
{
    let mut layer_size: usize = 0;
    let mut mip: u32 = 0;
    while mip < mipmap_count
        invariant
            block_dim.valid(),
            depth >= 1,
            mipmap_count <= 32,
            mip <= mipmap_count,
            layer_size == layer_deswizzled_size(
                width,
                height,
                depth,
                block_dim,
                bytes_per_pixel,
                mip as int,
            ),
        decreases mipmap_count - mip,
    {
        proof {
            lemma_layer_sizes(
                width,
                height,
                depth,
                block_dim,
                BlockHeight::One,
                bytes_per_pixel,
                mip + 1,
                mipmap_count as int,
            );
            lemma_surface_mip(
                width,
                height,
                depth,
                block_dim,
                BlockHeight::One,
                bytes_per_pixel,
                mip as int,
            );
        }
        let mip_width = mip_size_in_blocks(width, mip, block_dim.width);
        let mip_height = mip_size_in_blocks(height, mip, block_dim.height);
        let mip_depth = mip_size_in_blocks(depth, mip, block_dim.depth);
        match checked_deswizzled_mip_size(mip_width, mip_height, mip_depth, bytes_per_pixel) {
            Some(size) => match layer_size.checked_add(size) {
                Some(sum) => {
                    layer_size = sum;
                },
                None => {
                    return None;
                },
            },
            None => {
                return None;
            },
        }
        mip += 1;
    }
    Some(layer_size)
}

/// The tiled size of a surface, or `None` where it does not fit in `usize`.
fn checked_swizzled_surface_size(
    width: u32,
    height: u32,
    depth: u32,
    block_dim: BlockDim,
    block_height_mip0: Option<BlockHeight>,
    bytes_per_pixel: u32,
    mipmap_count: u32,
    layer_count: u32,
) -> (r: Option<usize>)
    requires
        block_dim.valid(),
        mipmap_count <= 32,
    ensures
        r == (if swizzled_surface_size_spec(
            width,
            height,
            depth,
            block_dim,
            block_height_mip0,
            bytes_per_pixel,
            mipmap_count,
            layer_count,
        ) <= usize::MAX {
            Some(
                swizzled_surface_size_spec(
                    width,
                    height,
                    depth,
                    block_dim,
                    block_height_mip0,
                    bytes_per_pixel,
                    mipmap_count,
                    layer_count,
                ) as usize,
            )
        } else {
            None::<usize>
        }),
{
    if width == 0 || height == 0 || depth == 0 || bytes_per_pixel == 0 || mipmap_count == 0
        || layer_count == 0 {
        return Some(0);
    }
    let block_height_mip0 = block_height_mip0_of(height, depth, block_dim, block_height_mip0);
    let ghost layer = layer_swizzled_size(
        width,
        height,
        depth,
        block_dim,
        block_height_mip0,
        bytes_per_pixel,
        mipmap_count as int,
    );
    proof {
        lemma_layer_sizes(
            width,
            height,
            depth,
            block_dim,
            block_height_mip0,
            bytes_per_pixel,
            0,
            mipmap_count as int,
        );
        lemma_layer_alignment(height, depth, block_height_mip0, 1);
        crate::lemma_div_ceil_bounds(
            layer,
            crate::arrays::layer_alignment(height, depth, block_height_mip0, 1),
        );
        let aligned = align_layer_size_spec(layer, height, depth, block_height_mip0, 1);
        assert(aligned >= layer);
        assert(aligned <= aligned * layer_count && layer * 1 == layer) by (nonlinear_arith)
            requires layer_count >= 1, aligned >= 0;
    }
    match checked_layer_swizzled_size(
        width,
        height,
        depth,
        block_dim,
        block_height_mip0,
        bytes_per_pixel,
        mipmap_count,
    ) {
        Some(layer_size) => {
            if layer_count > 1 {
                // Only the layers of arrays need alignment.
                match checked_align_layer_size(layer_size, height, depth, block_height_mip0, 1) {
                    Some(aligned) => aligned.checked_mul(layer_count as usize),
                    None => None,
                }
            } else {
                Some(layer_size)
            }
        },
        None => None,
    }
}

/// The row-major size of a surface, or `None` where it does not fit in `usize`.
fn checked_deswizzled_surface_size(
    width: u32,
    height: u32,
    depth: u32,
    block_dim: BlockDim,
    bytes_per_pixel: u32,
    mipmap_count: u32,
    layer_count: u32,
) -> (r: Option<usize>)
    requires
        block_dim.valid(),
        mipmap_count <= 32,
    ensures
        r == (if deswizzled_surface_size_spec(
            width,
            height,
            depth,
            block_dim,
            bytes_per_pixel,
            mipmap_count,
            layer_count,
        ) <= usize::MAX {
            Some(
                deswizzled_surface_size_spec(
                    width,
                    height,
                    depth,
                    block_dim,
                    bytes_per_pixel,
                    mipmap_count,
                    layer_count,
                ) as usize,
            )
        } else {
            None::<usize>
        }),
{
    if width == 0 || height == 0 || depth == 0 || bytes_per_pixel == 0 || mipmap_count == 0
        || layer_count == 0 {
        return Some(0);
    }
    let ghost layer = layer_deswizzled_size(
        width,
        height,
        depth,
        block_dim,
        bytes_per_pixel,
        mipmap_count as int,
    );
    proof {
        lemma_layer_sizes(
            width,
            height,
            depth,
            block_dim,
            BlockHeight::One,
            bytes_per_pixel,
            0,
            mipmap_count as int,
        );
        assert(layer <= layer * layer_count) by (nonlinear_arith)
            requires layer_count >= 1, layer >= 0;
    }
    match checked_layer_deswizzled_size(
        width,
        height,
        depth,
        block_dim,
        bytes_per_pixel,
        mipmap_count,
    ) {
        Some(layer_size) => layer_size.checked_mul(layer_count as usize),
        None => None,
    }
}

/// Calculates the size in bytes of the tiled data of a surface.
/// Compare with [deswizzled_surface_size].
///
/// Dimensions are in pixels. Use a `block_height_mip0` of `None` to infer the block
/// height from the dimensions. The size is zero when any count is zero.
pub fn swizzled_surface_size(
    width: u32,
    height: u32,
    depth: u32,
    block_dim: BlockDim,
    block_height_mip0: Option<BlockHeight>,
    bytes_per_pixel: u32,
    mipmap_count: u32,
    layer_count: u32,
) -> (r: usize)
    requires
        block_dim.valid(),
        mipmap_count <= 32,
        swizzled_surface_size_spec(
            width,
            height,
            depth,
            block_dim,
            block_height_mip0,
            bytes_per_pixel,
            mipmap_count,
            layer_count,
        ) <= usize::MAX,
    ensures
        r == swizzled_surface_size_spec(
            width,
            height,
            depth,
            block_dim,
            block_height_mip0,
            bytes_per_pixel,
            mipmap_count,
            layer_count,
        ),
{
    proof {
        lemma_surface_sizes_nonneg(
            width,
            height,
            depth,
            block_dim,
            block_height_mip0,
            bytes_per_pixel,
            mipmap_count,
            layer_count,
        );
    }
    match checked_swizzled_surface_size(
        width,
        height,
        depth,
        block_dim,
        block_height_mip0,
        bytes_per_pixel,
        mipmap_count,
        layer_count,
    ) {
        Some(size) => size,
        None => 0,
    }
}

/// Calculates the size in bytes of the row-major data of a surface.
/// Compare with [swizzled_surface_size].
///
/// Dimensions are in pixels. The size is zero when any count is zero.
pub fn deswizzled_surface_size(
    width: u32,
    height: u32,
    depth: u32,
    block_dim: BlockDim,
    bytes_per_pixel: u32,
    mipmap_count: u32,
    layer_count: u32,
) -> (r: usize)
    requires
        block_dim.valid(),
        mipmap_count <= 32,
        deswizzled_surface_size_spec(
            width,
            height,
            depth,
            block_dim,
            bytes_per_pixel,
            mipmap_count,
            layer_count,
        ) <= usize::MAX,
    ensures
        r == deswizzled_surface_size_spec(
            width,
            height,
            depth,
            block_dim,
            bytes_per_pixel,
            mipmap_count,
            layer_count,
        ),
{
    proof {
        lemma_surface_sizes_nonneg(
            width,
            height,
            depth,
            block_dim,
            None,
            bytes_per_pixel,
            mipmap_count,
            layer_count,
        );
    }
    match checked_deswizzled_surface_size(
        width,
        height,
        depth,
        block_dim,
        bytes_per_pixel,
        mipmap_count,
        layer_count,
    ) {
        Some(size) => size,
        None => 0,
    }
}

/// The layout of a surface in both forms, with the block height of its base level resolved.
pub struct SurfaceLayout {
    pub width: u32,
    pub height: u32,
    pub depth: u32,
    pub block_dim: BlockDim,
    pub block_height_mip0: BlockHeight,
    pub bytes_per_pixel: u32,
    pub mipmap_count: u32,
    pub layer_count: u32,
}

impl SurfaceLayout {
    /// The shape of mip level `m`.
    pub open spec fn mip(self, m: int) -> Mip {
        surface_mip(
            self.width,
            self.height,
            self.depth,
            self.block_dim,
            self.block_height_mip0,
            self.bytes_per_pixel,
            m,
        )
    }

    pub open spec fn swizzled_mip_size(self, m: int) -> int {
        mip_swizzled_size(
            self.width,
            self.height,
            self.depth,
            self.block_dim,
            self.block_height_mip0,
            self.bytes_per_pixel,
            m,
        )
    }

    pub open spec fn deswizzled_mip_size(self, m: int) -> int {
        mip_deswizzled_size(
            self.width,
            self.height,
            self.depth,
            self.block_dim,
            self.bytes_per_pixel,
            m,
        )
    }

    /// The tiled size of the first `n` mip levels of a layer.
    pub open spec fn swizzled_mips(self, n: int) -> int {
        layer_swizzled_size(
            self.width,
            self.height,
            self.depth,
            self.block_dim,
            self.block_height_mip0,
            self.bytes_per_pixel,
            n,
        )
    }

    /// The row-major size of the first `n` mip levels of a layer.
    pub open spec fn deswizzled_mips(self, n: int) -> int {
        layer_deswizzled_size(
            self.width,
            self.height,
            self.depth,
            self.block_dim,
            self.bytes_per_pixel,
            n,
        )
    }

    /// The distance between two layers in the tiled layout.
    pub open spec fn swizzled_stride(self) -> int {
        swizzled_layer_stride(
            self.width,
            self.height,
            self.depth,
            self.block_dim,
            self.block_height_mip0,
            self.bytes_per_pixel,
            self.mipmap_count,
            self.layer_count,
        )
    }

    /// The distance between two layers in the row-major layout.
    pub open spec fn deswizzled_stride(self) -> int {
        self.deswizzled_mips(self.mipmap_count as int)
    }

    /// Where mip level `m` of layer `l` starts in the tiled layout.
    pub open spec fn swizzled_start(self, l: int, m: int) -> int {
        l * self.swizzled_stride() + self.swizzled_mips(m)
    }

    /// Where mip level `m` of layer `l` starts in the row-major layout.
    pub open spec fn deswizzled_start(self, l: int, m: int) -> int {
        l * self.deswizzled_stride() + self.deswizzled_mips(m)
    }

    /// The tiled bytes of mip level `m` of layer `l` within `data`.
    pub open spec fn swizzled_part(self, data: Seq<u8>, l: int, m: int) -> Seq<u8> {
        data.subrange(
            self.swizzled_start(l, m),
            self.swizzled_start(l, m) + self.swizzled_mip_size(m),
        )
    }

    /// The tiled bytes between the last mip level of layer `l` and the next layer.
    pub open spec fn layer_padding(self, data: Seq<u8>, l: int) -> Seq<u8> {
        data.subrange(
            l * self.swizzled_stride() + self.swizzled_mips(self.mipmap_count as int),
            (l + 1) * self.swizzled_stride(),
        )
    }

    /// The row-major bytes of mip level `m` of layer `l` within `data`.
    pub open spec fn deswizzled_part(self, data: Seq<u8>, l: int, m: int) -> Seq<u8> {
        data.subrange(
            self.deswizzled_start(l, m),
            self.deswizzled_start(l, m) + self.deswizzled_mip_size(m),
        )
    }
}

/// The layout of a surface with the given parameters.
pub open spec fn surface_layout(
    width: u32,
    height: u32,
    depth: u32,
    block_dim: BlockDim,
    block_height_mip0: Option<BlockHeight>,
    bytes_per_pixel: u32,
    mipmap_count: u32,
    layer_count: u32,
) -> SurfaceLayout {
    SurfaceLayout {
        width,
        height,
        depth,
        block_dim,
        block_height_mip0: surface_block_height_mip0(height, depth, block_dim, block_height_mip0),
        bytes_per_pixel,
        mipmap_count,
        layer_count,
    }
}

/// `out` holds the untiled form of the tiled surface `source`: each mip level of each
/// layer, packed without padding.
pub open spec fn is_deswizzled_surface(out: Seq<u8>, source: Seq<u8>, s: SurfaceLayout) -> bool {
    &&& out.len() == s.deswizzled_stride() * s.layer_count
    &&& forall|l: int, m: int|
        0 <= l < s.layer_count && 0 <= m < s.mipmap_count ==> #[trigger] s.deswizzled_part(
            out,
            l,
            m,
        )
            == deswizzled_mip(s.swizzled_part(source, l, m), s.mip(m))
}

/// `out` holds the tiled form of the row-major surface `source`: each mip level of each
/// layer, and zeros in the padding after the mip levels of each layer.
pub open spec fn is_swizzled_surface(out: Seq<u8>, source: Seq<u8>, s: SurfaceLayout) -> bool {
    &&& out.len() == s.swizzled_stride() * s.layer_count
    &&& forall|l: int, m: int|
        0 <= l < s.layer_count && 0 <= m < s.mipmap_count ==> #[trigger] s.swizzled_part(out, l, m)
            == swizzled_mip(s.deswizzled_part(source, l, m), s.mip(m))
    &&& forall|l: int|
        0 <= l < s.layer_count ==> forall|k: int|
            0 <= k < #[trigger] s.layer_padding(out, l).len() ==> s.layer_padding(out, l)[k] == 0u8
}

/// Where mip level `m` of layer `l` starts in the destination of a transform.
pub open spec fn target_start(deswizzle: bool, s: SurfaceLayout, l: int, m: int) -> int {
    if deswizzle {
        s.deswizzled_start(l, m)
    } else {
        s.swizzled_start(l, m)
    }
}

/// Where mip level `m` of layer `l` starts in the source of a transform.
pub open spec fn origin_start(deswizzle: bool, s: SurfaceLayout, l: int, m: int) -> int {
    if deswizzle {
        s.swizzled_start(l, m)
    } else {
        s.deswizzled_start(l, m)
    }
}

/// Mip level `m` of layer `l` has been transformed into `out`.
pub open spec fn mip_placed(
    deswizzle: bool,
    out: Seq<u8>,
    source: Seq<u8>,
    s: SurfaceLayout,
    l: int,
    m: int,
) -> bool {
    if deswizzle {
        forall|i: int|
            0 <= i < s.deswizzled_mip_size(m) ==> out[s.deswizzled_start(l, m) + i]
                == #[trigger] deswizzled_mip(s.swizzled_part(source, l, m), s.mip(m))[i]
    } else {
        forall|j: int|
            0 <= j < s.swizzled_mip_size(m) ==> out[s.swizzled_start(l, m) + j]
                == #[trigger] swizzled_mip(s.deswizzled_part(source, l, m), s.mip(m))[j]
    }
}

/// The parts of a surface follow each other without overlap, and fit in its size.
proof fn lemma_layout(s: SurfaceLayout, l1: int, m1: int, l2: int, m2: int)
    requires
        s.block_dim.valid(),
        s.depth >= 1,
        0 <= l1 <= l2 < s.layer_count,
        0 <= m1 < s.mipmap_count,
        0 <= m2 <= s.mipmap_count,
        l1 < l2 || m1 < m2,
    ensures
        0 <= s.swizzled_start(l1, m1),
        s.swizzled_start(l1, m1) + s.swizzled_mip_size(m1) <= s.swizzled_start(l2, m2),
        0 <= s.deswizzled_start(l1, m1),
        s.deswizzled_start(l1, m1) + s.deswizzled_mip_size(m1) <= s.deswizzled_start(l2, m2),
{
    let bh0 = s.block_height_mip0;
    lemma_layer_sizes(
        s.width,
        s.height,
        s.depth,
        s.block_dim,
        bh0,
        s.bytes_per_pixel,
        m1 + 1,
        s.mipmap_count as int,
    );
    lemma_layer_sizes(s.width, s.height, s.depth, s.block_dim, bh0, s.bytes_per_pixel, 0, m1);
    lemma_layer_strides(s);
    let (ss, ds) = (s.swizzled_stride(), s.deswizzled_stride());
    if l1 < l2 {
        lemma_layer_sizes(s.width, s.height, s.depth, s.block_dim, bh0, s.bytes_per_pixel, 0, m2);
        assert(l1 * ss + ss <= l2 * ss && l1 * ds + ds <= l2 * ds && l1 * ss >= 0 && l1 * ds >= 0)
            by (nonlinear_arith)
            requires l1 < l2, l1 >= 0, ss >= 0, ds >= 0;
    } else {
        lemma_layer_sizes(
            s.width,
            s.height,
            s.depth,
            s.block_dim,
            bh0,
            s.bytes_per_pixel,
            m1 + 1,
            m2,
        );
        assert(l1 * ss >= 0 && l1 * ds >= 0) by (nonlinear_arith)
            requires l1 >= 0, ss >= 0, ds >= 0;
    }
}

/// A layer stride covers the mip levels of the layer.
proof fn lemma_layer_strides(s: SurfaceLayout)
    requires
        s.block_dim.valid(),
        s.depth >= 1,
    ensures
        s.swizzled_stride() >= s.swizzled_mips(s.mipmap_count as int) >= 0,
        s.deswizzled_stride() == s.deswizzled_mips(s.mipmap_count as int) >= 0,
{
    let bh0 = s.block_height_mip0;
    lemma_layer_sizes(
        s.width,
        s.height,
        s.depth,
        s.block_dim,
        bh0,
        s.bytes_per_pixel,
        0,
        s.mipmap_count as int,
    );
    lemma_layer_alignment(s.height, s.depth, bh0, 1);
    crate::lemma_div_ceil_bounds(
        s.swizzled_mips(s.mipmap_count as int),
        crate::arrays::layer_alignment(s.height, s.depth, bh0, 1),
    );
}

/// Aligning the end of the mip levels of layer `l` gives the start of the next layer.
proof fn lemma_align_layer_end(s: SurfaceLayout, l: int)
    requires
        s.block_dim.valid(),
        s.depth >= 1,
        s.layer_count > 1,
        l >= 0,
    ensures
        align_layer_size_spec(
            l * s.swizzled_stride() + s.swizzled_mips(s.mipmap_count as int),
            s.height,
            s.depth,
            s.block_height_mip0,
            1,
        ) == (l + 1) * s.swizzled_stride(),
{
    let a = crate::arrays::layer_alignment(s.height, s.depth, s.block_height_mip0, 1);
    let p = s.swizzled_mips(s.mipmap_count as int);
    lemma_layer_strides(s);
    lemma_layer_alignment(s.height, s.depth, s.block_height_mip0, 1);
    let c = div_ceil(p, a);
    assert(s.swizzled_stride() == c * a);
    let q = (p + a - 1) / a;
    let r = (p + a - 1) % a;
    vstd::arithmetic::div_mod::lemma_fundamental_div_mod(p + a - 1, a);
    vstd::arithmetic::div_mod::lemma_mod_pos_bound(p + a - 1, a);
    let n = l * c;
    assert(l * (c * a) == n * a) by (nonlinear_arith) requires n == l * c;
    assert(n * a + p + a - 1 == (n + q) * a + r) by (nonlinear_arith)
        requires p + a - 1 == a * q + r;
    vstd::arithmetic::div_mod::lemma_fundamental_div_mod_converse(n * a + p + a - 1, a, n + q, r);
    assert((n + q) * a == l * (c * a) + c * a) by (nonlinear_arith) requires n == l * c, q == c;
    assert(l * (c * a) + c * a == (l + 1) * (c * a)) by (nonlinear_arith);
}

/// The mip levels of a layer end within the layer, and the layers within the surface.
proof fn lemma_layout_end(s: SurfaceLayout, l: int)
    requires
        s.block_dim.valid(),
        s.depth >= 1,
        0 <= l < s.layer_count,
    ensures
        0 <= l * s.swizzled_stride(),
        l * s.swizzled_stride() + s.swizzled_mips(s.mipmap_count as int) <= (l + 1)
            * s.swizzled_stride() <= s.swizzled_stride() * s.layer_count,
        0 <= l * s.deswizzled_stride(),
        l * s.deswizzled_stride() + s.deswizzled_mips(s.mipmap_count as int) == (l + 1)
            * s.deswizzled_stride() <= s.deswizzled_stride() * s.layer_count,
{
    lemma_layer_strides(s);
    let (ss, ds, n) = (s.swizzled_stride(), s.deswizzled_stride(), s.layer_count as int);
    assert(0 <= l * ss && l * ss + ss == (l + 1) * ss
        && (l + 1) * ss <= ss * n) by (nonlinear_arith)
        requires 0 <= l < n, ss >= 0;
    assert(0 <= l * ds && l * ds + ds == (l + 1) * ds
        && (l + 1) * ds <= ds * n) by (nonlinear_arith)
        requires 0 <= l < n, ds >= 0;
}

/// The distance between two layers in the destination of a transform.
pub open spec fn target_stride(deswizzle: bool, s: SurfaceLayout) -> int {
    if deswizzle {
        s.deswizzled_stride()
    } else {
        s.swizzled_stride()
    }
}

/// The distance between two layers in the source of a transform.
pub open spec fn origin_stride(deswizzle: bool, s: SurfaceLayout) -> int {
    if deswizzle {
        s.swizzled_stride()
    } else {
        s.deswizzled_stride()
    }
}

/// The padding after the mip levels of layer `l` is zero in `out`.
pub open spec fn padding_zero(out: Seq<u8>, s: SurfaceLayout, l: int) -> bool {
    forall|k: int|
        0 <= k < #[trigger] s.layer_padding(out, l).len() ==> s.layer_padding(out, l)[k] == 0u8
}

/// Transforms mip level `mip` of layer `layer` of a surface from `source` at `src_offset`
/// into `destination` at `dst_offset`, and advances both offsets past it.
fn swizzle_mipmap<const DESWIZZLE: bool>(
    width: u32,
    height: u32,
    depth: u32,
    block_dim: BlockDim,
    block_height_mip0: BlockHeight,
    block_depth_mip0: u32,
    bytes_per_pixel: u32,
    mip: u32,
    source: &[u8],
    src_offset: &mut usize,
    result: &mut Vec<u8>,
    dst_offset: &mut usize,
    Ghost(s): Ghost<SurfaceLayout>,
    Ghost(layer): Ghost<int>,
)
    requires
        s == (SurfaceLayout {
            width,
            height,
            depth,
            block_dim,
            block_height_mip0,
            bytes_per_pixel,
            mipmap_count: s.mipmap_count,
            layer_count: s.layer_count,
        }),
        block_dim.valid(),
        !is_empty_surface(width, height, depth, bytes_per_pixel, s.mipmap_count, s.layer_count),
        s.mipmap_count <= 32,
        block_depth_mip0 == block_depth_spec(depth as int),
        0 <= layer < s.layer_count,
        mip < s.mipmap_count,
        *old(src_offset) == origin_start(DESWIZZLE, s, layer, mip as int),
        *old(dst_offset) == target_start(DESWIZZLE, s, layer, mip as int),
        origin_stride(DESWIZZLE, s) * s.layer_count <= source@.len(),
        target_stride(DESWIZZLE, s) * s.layer_count == old(result)@.len(),
        forall|l: int, m: int|
            0 <= l < s.layer_count && 0 <= m < s.mipmap_count && (l < layer || (l == layer && m
                < mip)) ==> #[trigger] mip_placed(DESWIZZLE, old(result)@, source@, s, l, m),
        !DESWIZZLE ==> forall|k: int| *old(dst_offset) <= k < old(result)@.len()
            ==> old(result)@[k] == 0u8,
        !DESWIZZLE ==> forall|l: int| 0 <= l < layer ==> #[trigger] padding_zero(
            old(result)@,
            s,
            l,
        ),
    ensures
        final(result)@.len() == old(result)@.len(),
        *final(src_offset) == origin_start(DESWIZZLE, s, layer, mip + 1),
        *final(dst_offset) == target_start(DESWIZZLE, s, layer, mip + 1),
        forall|l: int, m: int|
            0 <= l < s.layer_count && 0 <= m < s.mipmap_count && (l < layer || (l == layer && m
                <= mip)) ==> #[trigger] mip_placed(DESWIZZLE, final(result)@, source@, s, l, m),
        !DESWIZZLE ==> forall|k: int|
            *final(dst_offset) <= k < final(result)@.len() ==> final(result)@[k] == 0u8,
        !DESWIZZLE ==> forall|l: int| 0 <= l < layer ==> #[trigger] padding_zero(
            final(result)@,
            s,
            l,
        ),
{
    let source_len = source.len();
    let result_len = result.len();
    let mip_width = mip_size_in_blocks(width, mip, block_dim.width);
    let mip_height = mip_size_in_blocks(height, mip, block_dim.height);
    let mip_depth = mip_size_in_blocks(depth, mip, block_dim.depth);
    let mip_block_height = crate::mip_block_height(mip_height, block_height_mip0);
    let mip_block_depth = mip_block_depth(mip_depth, block_depth_mip0);
    let ghost m = s.mip(mip as int);
    let ghost before = result@;
    proof {
        lemma_surface_mip(
            width,
            height,
            depth,
            block_dim,
            block_height_mip0,
            bytes_per_pixel,
            mip as int,
        );
        crate::arrays::lemma_mip_block_depth_bounds(m.depth, block_depth_spec(depth as int));
        assert(crate::swizzle::mip_of(mip_width, mip_height, mip_depth, bytes_per_pixel,
            mip_block_height, mip_block_depth) == m);
        lemma_layout(s, layer, mip as int, layer, mip + 1);
        lemma_layout_end(s, layer);
        lemma_layer_sizes(
            width,
            height,
            depth,
            block_dim,
            block_height_mip0,
            bytes_per_pixel,
            mip + 1,
            s.mipmap_count as int,
        );
    }
    crate::swizzle::swizzle_inner::<DESWIZZLE>(
        mip_width,
        mip_height,
        mip_depth,
        source,
        *src_offset,
        result,
        *dst_offset,
        mip_block_height,
        mip_block_depth,
        bytes_per_pixel,
    );
    proof {
        lemma_after_mip(
            DESWIZZLE,
            s,
            source@,
            before,
            result@,
            layer,
            mip as int,
            *src_offset as int,
            *dst_offset as int,
        );
    }
    if DESWIZZLE {
        *src_offset = *src_offset + crate::swizzle::swizzled_mip_size(
            mip_width,
            mip_height,
            mip_depth,
            mip_block_height,
            bytes_per_pixel,
        );
        *dst_offset = *dst_offset + crate::swizzle::deswizzled_mip_size(
            mip_width,
            mip_height,
            mip_depth,
            bytes_per_pixel,
        );
    } else {
        *src_offset = *src_offset + crate::swizzle::deswizzled_mip_size(
            mip_width,
            mip_height,
            mip_depth,
            bytes_per_pixel,
        );
        *dst_offset = *dst_offset + crate::swizzle::swizzled_mip_size(
            mip_width,
            mip_height,
            mip_depth,
            mip_block_height,
            bytes_per_pixel,
        );
    }
}

/// Transforms every mip level of every array layer of a nonempty surface from `source`
/// into `result`, layer by layer and mip level by mip level.
#[verifier::loop_isolation(false)]
fn swizzle_surface_inner<const DESWIZZLE: bool>(
    width: u32,
    height: u32,
    depth: u32,
    source: &[u8],
    result: &mut Vec<u8>,
    block_dim: BlockDim,
    block_height_mip0: BlockHeight,
    bytes_per_pixel: u32,
    mipmap_count: u32,
    layer_count: u32,
    Ghost(s): Ghost<SurfaceLayout>,
)
    requires
        s == (SurfaceLayout {
            width,
            height,
            depth,
            block_dim,
            block_height_mip0,
            bytes_per_pixel,
            mipmap_count,
            layer_count,
        }),
        block_dim.valid(),
        !is_empty_surface(width, height, depth, bytes_per_pixel, mipmap_count, layer_count),
        mipmap_count <= 32,
        origin_stride(DESWIZZLE, s) * layer_count <= source@.len(),
        target_stride(DESWIZZLE, s) * layer_count == old(result)@.len(),
        !DESWIZZLE ==> forall|k: int| 0 <= k < old(result)@.len() ==> old(result)@[k] == 0u8,
    ensures
        final(result)@.len() == old(result)@.len(),
        forall|l: int, m: int|
            0 <= l < layer_count && 0 <= m < mipmap_count ==> #[trigger] mip_placed(
                DESWIZZLE,
                final(result)@,
                source@,
                s,
                l,
                m,
            ),
        !DESWIZZLE ==> forall|l: int| 0 <= l < layer_count ==> #[trigger] padding_zero(
            final(result)@,
            s,
            l,
        ),
{
    let source_len = source.len();
    let result_len = result.len();
    let block_depth_mip0 = block_depth(depth);
    let mut src_offset: usize = 0;
    let mut dst_offset: usize = 0;
    let mut layer: u32 = 0;
    while layer < layer_count
        invariant
            layer <= layer_count,
            result@.len() == result_len,
            src_offset == origin_start(DESWIZZLE, s, layer as int, 0),
            dst_offset == target_start(DESWIZZLE, s, layer as int, 0),
            forall|l: int, m: int|
                0 <= l < layer && 0 <= m < mipmap_count ==> #[trigger] mip_placed(
                    DESWIZZLE,
                    result@,
                    source@,
                    s,
                    l,
                    m,
                ),
            !DESWIZZLE ==> forall|k: int| dst_offset <= k < result_len ==> result@[k] == 0u8,
            !DESWIZZLE ==> forall|l: int| 0 <= l < layer ==> #[trigger] padding_zero(result@, s, l),
        decreases layer_count - layer,
    {
        let mut mip: u32 = 0;
        while mip < mipmap_count
            invariant
                layer < layer_count,
                mip <= mipmap_count,
                result@.len() == result_len,
                src_offset == origin_start(DESWIZZLE, s, layer as int, mip as int),
                dst_offset == target_start(DESWIZZLE, s, layer as int, mip as int),
                forall|l: int, m: int|
                    0 <= l < layer_count && 0 <= m < mipmap_count && (l < layer || (l == layer && m
                        < mip)) ==> #[trigger] mip_placed(DESWIZZLE, result@, source@, s, l, m),
                !DESWIZZLE ==> forall|k: int| dst_offset <= k < result_len ==> result@[k] == 0u8,
                !DESWIZZLE ==> forall|l: int| 0 <= l < layer ==> #[trigger] padding_zero(
                    result@,
                    s,
                    l,
                ),
            decreases mipmap_count - mip,
        {
            swizzle_mipmap::<DESWIZZLE>(
                width,
                height,
                depth,
                block_dim,
                block_height_mip0,
                block_depth_mip0,
                bytes_per_pixel,
                mip,
                source,
                &mut src_offset,
                result,
                &mut dst_offset,
                Ghost(s),
                Ghost(layer as int),
            );
            mip += 1;
        }
        proof {
            lemma_layout_end(s, layer as int);
        }
        // Align offsets between array layers.
        if layer_count > 1 {
            proof {
                lemma_align_layer_end(s, layer as int);
            }
            if DESWIZZLE {
                src_offset = crate::arrays::align_layer_size(
                    src_offset,
                    height,
                    depth,
                    block_height_mip0,
                    1,
                );
            } else {
                proof {
                    assert forall|k: int| 0
                        <= k < s.layer_padding(result@,
                        layer as int).len() implies s.layer_padding(result@, layer as int)[k]
                        == 0u8 by {
                        assert(result@[dst_offset + k] == 0u8);
                    }
                    assert(padding_zero(result@, s, layer as int));
                }
                dst_offset = crate::arrays::align_layer_size(
                    dst_offset,
                    height,
                    depth,
                    block_height_mip0,
                    1,
                );
            }
        } else {
            proof {
                if !DESWIZZLE {
                    assert(padding_zero(result@, s, layer as int));
                }
            }
        }
        proof {
            assert((layer + 1) * s.swizzled_stride()
                == layer * s.swizzled_stride() + s.swizzled_stride()) by (nonlinear_arith);
            assert((layer + 1) * s.deswizzled_stride()
                == layer * s.deswizzled_stride() + s.deswizzled_stride()) by (nonlinear_arith);
        }
        layer += 1;
    }
}

/// After the transform of mip level `mip` of layer `layer`, it is placed, the mip levels
/// placed before stay placed, and the bytes not yet written stay zero.
proof fn lemma_after_mip(
    deswizzle: bool,
    s: SurfaceLayout,
    source: Seq<u8>,
    before: Seq<u8>,
    after: Seq<u8>,
    layer: int,
    mip: int,
    src_offset: int,
    dst_offset: int,
)
    requires
        s.block_dim.valid(),
        s.depth >= 1,
        0 <= layer < s.layer_count,
        0 <= mip < s.mipmap_count,
        src_offset == origin_start(deswizzle, s, layer, mip),
        dst_offset == target_start(deswizzle, s, layer, mip),
        origin_stride(deswizzle, s) * s.layer_count <= source.len(),
        target_stride(deswizzle, s) * s.layer_count == before.len(),
        after.len() == before.len(),
        forall|x: int, y: int, z: int| #[trigger]
            s.mip(mip).contains(x, y, z) ==> after[dst_offset + crate::swizzle::target(
                deswizzle,
                s.mip(mip),
                x,
                y,
                z,
            )] == source[src_offset + crate::swizzle::origin(deswizzle, s.mip(mip), x, y, z)],
        forall|k: int|
            0 <= k < before.len() && !crate::swizzle::is_target(
                deswizzle,
                s.mip(mip),
                k - dst_offset,
            ) ==> after[k] == before[k],
        forall|k: int|
            0 <= k < before.len() && (k < dst_offset || k >= dst_offset
                + crate::swizzle::target_size(deswizzle, s.mip(mip))) ==> after[k] == before[k],
        forall|l: int, m: int|
            0 <= l < s.layer_count && 0 <= m < s.mipmap_count && (l < layer || (l == layer && m
                < mip)) ==> #[trigger] mip_placed(deswizzle, before, source, s, l, m),
        !deswizzle ==> forall|k: int| dst_offset <= k < before.len() ==> before[k] == 0u8,
        !deswizzle ==> forall|l: int| 0 <= l < layer ==> #[trigger] padding_zero(before, s, l),
    ensures
        forall|l: int, m: int|
            0 <= l < s.layer_count && 0 <= m < s.mipmap_count && (l < layer || (l == layer && m
                <= mip)) ==> #[trigger] mip_placed(deswizzle, after, source, s, l, m),
        !deswizzle ==> forall|k: int|
            dst_offset + s.swizzled_mip_size(mip) <= k < after.len() ==> after[k] == 0u8,
        !deswizzle ==> forall|l: int| 0 <= l < layer ==> #[trigger] padding_zero(after, s, l),
{
    let m = s.mip(mip);
    lemma_surface_mip(
        s.width,
        s.height,
        s.depth,
        s.block_dim,
        s.block_height_mip0,
        s.bytes_per_pixel,
        mip,
    );
    lemma_layout(s, layer, mip, layer, mip + 1);
    lemma_layout_end(s, layer);
    lemma_layer_sizes(
        s.width,
        s.height,
        s.depth,
        s.block_dim,
        s.block_height_mip0,
        s.bytes_per_pixel,
        mip + 1,
        s.mipmap_count as int,
    );
    if deswizzle {
        let sub = s.swizzled_part(source, layer, mip);
        assert forall|i: int| 0
            <= i < s.deswizzled_mip_size(mip) implies after[s.deswizzled_start(layer, mip) + i]
            == #[trigger] deswizzled_mip(sub, m)[i] by {
            crate::swizzle::lemma_coordinates(m, i);
            let (x, y, z) = (i % m.row_size(), (i / m.row_size()) % m.height,
                (i / m.row_size()) / m.height);
            crate::swizzle::lemma_swizzled_offset(m, x, y, z, x, y, z);
            assert(m.contains(x, y, z));
        }
    } else {
        let sub = s.deswizzled_part(source, layer, mip);
        assert forall|j: int| 0
            <= j < s.swizzled_mip_size(mip) implies after[s.swizzled_start(layer, mip) + j]
            == #[trigger] swizzled_mip(sub, m)[j] by {
            crate::swizzle::lemma_is_target_swizzled(m, j);
            if m.is_swizzled_offset(j) {
                let (x, y, z) = choose|x: int, y: int, z: int| #[trigger]
                    m.contains(x, y, z) && m.swizzled_offset(x, y, z) == j;
                crate::swizzle::lemma_linear_offset(m, x, y, z, x, y, z);
                assert(m.contains(x, y, z));
            } else {
                assert(before[dst_offset + j] == 0u8);
            }
        }
    }
    assert(mip_placed(deswizzle, after, source, s, layer, mip));
    assert forall|l: int, m2: int|
        0 <= l < s.layer_count && 0 <= m2 < s.mipmap_count && (l < layer || (l == layer && m2
            < mip)) implies #[trigger] mip_placed(deswizzle, after, source, s, l, m2) by {
        lemma_layout(s, l, m2, layer, mip);
        assert(mip_placed(deswizzle, before, source, s, l, m2));
    }
    if !deswizzle {
        assert forall|l: int| 0 <= l < layer implies #[trigger] padding_zero(after, s, l) by {
            assert(padding_zero(before, s, l));
            lemma_layout_end(s, l);
            lemma_layer_strides(s);
            assert((l + 1) * s.swizzled_stride()
                <= layer * s.swizzled_stride()) by (nonlinear_arith)
                requires l + 1 <= layer, s.swizzled_stride() >= 0;
            lemma_layer_sizes(
                s.width,
                s.height,
                s.depth,
                s.block_dim,
                s.block_height_mip0,
                s.bytes_per_pixel,
                0,
                mip,
            );
            let pad_before = s.layer_padding(before, l);
            let pad_after = s.layer_padding(after, l);
            assert forall|k: int| 0 <= k < pad_after.len() implies pad_after[k] == 0u8 by {
                assert(pad_before[k] == 0u8);
            }
        }
    }
}

/// Both sizes of a surface fit in `usize`.
pub open spec fn surface_sizes_fit(
    width: u32,
    height: u32,
    depth: u32,
    block_dim: BlockDim,
    block_height_mip0: Option<BlockHeight>,
    bytes_per_pixel: u32,
    mipmap_count: u32,
    layer_count: u32,
) -> bool {
    &&& swizzled_surface_size_spec(
        width,
        height,
        depth,
        block_dim,
        block_height_mip0,
        bytes_per_pixel,
        mipmap_count,
        layer_count,
    ) <= usize::MAX
    &&& deswizzled_surface_size_spec(
        width,
        height,
        depth,
        block_dim,
        bytes_per_pixel,
        mipmap_count,
        layer_count,
    ) <= usize::MAX
}

/// The error for a surface whose dimensions are rejected.
pub open spec fn invalid_surface(
    width: u32,
    height: u32,
    depth: u32,
    bytes_per_pixel: u32,
    mipmap_count: u32,
) -> SwizzleError {
    SwizzleError::InvalidSurface { width, height, depth, bytes_per_pixel, mipmap_count }
}

/// Checks the dimensions of a nonempty surface against overflow.
fn validate_surface(
    width: u32,
    height: u32,
    depth: u32,
    bytes_per_pixel: u32,
    mipmap_count: u32,
) -> (r: Result<(), SwizzleError>)
    requires
        width >= 1,
        height >= 1,
        depth >= 1,
        bytes_per_pixel >= 1,
    ensures
        r.is_ok() <==> valid_surface(width, height, depth, bytes_per_pixel, mipmap_count),
        r matches Err(e) ==> e
            == invalid_surface(width, height, depth, bytes_per_pixel, mipmap_count),
{
    proof {
        let (w, h, d, b) = (width as int, height as int, depth as int, bytes_per_pixel as int);
        assert(w <= w * h && w * h <= w * h * d && w * h * d <= w * h * d * b) by (nonlinear_arith)
            requires w >= 1, h >= 1, d >= 1, b >= 1;
    }
    let area_overflows = match width.checked_mul(height) {
        Some(area) => match area.checked_mul(depth) {
            Some(volume) => volume.checked_mul(bytes_per_pixel).is_none(),
            None => true,
        },
        None => true,
    };
    if area_overflows || width.checked_mul(bytes_per_pixel).is_none()
        || depth.checked_add(depth / 2).is_none()
        || mipmap_count > u32::BITS {
        Err(SwizzleError::InvalidSurface { width, height, depth, bytes_per_pixel, mipmap_count })
    } else {
        Ok(())
    }
}

/// Allocates the destination of a transform of a nonempty, valid surface, after checking
/// that `source` holds the whole surface.
fn surface_destination<const DESWIZZLE: bool>(
    width: u32,
    height: u32,
    depth: u32,
    block_dim: BlockDim,
    block_height_mip0: Option<BlockHeight>,
    bytes_per_pixel: u32,
    mipmap_count: u32,
    layer_count: u32,
    source: &[u8],
) -> (r: Result<Vec<u8>, SwizzleError>)
    requires
        block_dim.valid(),
        mipmap_count <= 32,
    ensures
        ({
            let swizzled = swizzled_surface_size_spec(
                width,
                height,
                depth,
                block_dim,
                block_height_mip0,
                bytes_per_pixel,
                mipmap_count,
                layer_count,
            );
            let deswizzled = deswizzled_surface_size_spec(
                width,
                height,
                depth,
                block_dim,
                bytes_per_pixel,
                mipmap_count,
                layer_count,
            );
            let expected = if DESWIZZLE { swizzled } else { deswizzled };
            let output = if DESWIZZLE { deswizzled } else { swizzled };
            &&& !surface_sizes_fit(
                width,
                height,
                depth,
                block_dim,
                block_height_mip0,
                bytes_per_pixel,
                mipmap_count,
                layer_count,
            ) ==> r == Err::<Vec<u8>, SwizzleError>(
                invalid_surface(width, height, depth, bytes_per_pixel, mipmap_count),
            )
            &&& surface_sizes_fit(
                width,
                height,
                depth,
                block_dim,
                block_height_mip0,
                bytes_per_pixel,
                mipmap_count,
                layer_count,
            ) && source@.len() < expected ==> r == Err::<Vec<u8>, SwizzleError>(
                SwizzleError::NotEnoughData {
                    expected_size: expected as usize,
                    actual_size: source@.len() as usize,
                },
            )
            &&& surface_sizes_fit(
                width,
                height,
                depth,
                block_dim,
                block_height_mip0,
                bytes_per_pixel,
                mipmap_count,
                layer_count,
            ) && source@.len() >= expected ==> (r matches Ok(v) && v@.len() == output
                && forall|k: int|
                0 <= k < v@.len() ==> v@[k] == 0u8)
        }),
{
    let swizzled_size = checked_swizzled_surface_size(
        width,
        height,
        depth,
        block_dim,
        block_height_mip0,
        bytes_per_pixel,
        mipmap_count,
        layer_count,
    );
    let deswizzled_size = checked_deswizzled_surface_size(
        width,
        height,
        depth,
        block_dim,
        bytes_per_pixel,
        mipmap_count,
        layer_count,
    );
    proof {
        lemma_surface_sizes_nonneg(
            width,
            height,
            depth,
            block_dim,
            block_height_mip0,
            bytes_per_pixel,
            mipmap_count,
            layer_count,
        );
    }
    let (swizzled_size, deswizzled_size) = match (swizzled_size, deswizzled_size) {
        (Some(swizzled), Some(deswizzled)) => (swizzled, deswizzled),
        _ => {
            return Err(SwizzleError::InvalidSurface { width, height, depth, bytes_per_pixel,
                mipmap_count });
        },
    };
    let (surface_size, expected_size) = if DESWIZZLE {
        (deswizzled_size, swizzled_size)
    } else {
        (swizzled_size, deswizzled_size)
    };
    // Validate the source length before attempting to allocate.
    if source.len() < expected_size {
        return Err(SwizzleError::NotEnoughData { actual_size: source.len(), expected_size });
    }
    Ok(vec![0u8; surface_size])
}

/// The result of a transform of a surface, by its parameters: an empty surface gives
/// no bytes, rejected dimensions an `InvalidSurface`, a short source a `NotEnoughData`.
pub open spec fn surface_result_ok(
    deswizzle: bool,
    r: Result<Vec<u8>, SwizzleError>,
    width: u32,
    height: u32,
    depth: u32,
    source: Seq<u8>,
    block_dim: BlockDim,
    block_height_mip0: Option<BlockHeight>,
    bytes_per_pixel: u32,
    mipmap_count: u32,
    layer_count: u32,
) -> bool {
    let s = surface_layout(
        width,
        height,
        depth,
        block_dim,
        block_height_mip0,
        bytes_per_pixel,
        mipmap_count,
        layer_count,
    );
    let expected = if deswizzle {
        swizzled_surface_size_spec(
            width,
            height,
            depth,
            block_dim,
            block_height_mip0,
            bytes_per_pixel,
            mipmap_count,
            layer_count,
        )
    } else {
        deswizzled_surface_size_spec(
            width,
            height,
            depth,
            block_dim,
            bytes_per_pixel,
            mipmap_count,
            layer_count,
        )
    };
    if is_empty_surface(width, height, depth, bytes_per_pixel, mipmap_count, layer_count) {
        (r matches Ok(v) && v@.len() == 0)
    } else if !valid_surface(width, height, depth, bytes_per_pixel, mipmap_count)
        || !surface_sizes_fit(
        width,
        height,
        depth,
        block_dim,
        block_height_mip0,
        bytes_per_pixel,
        mipmap_count,
        layer_count,
    ) {
        r == Err::<Vec<u8>, SwizzleError>(
            invalid_surface(width, height, depth, bytes_per_pixel, mipmap_count),
        )
    } else if source.len() < expected {
        r == Err::<Vec<u8>, SwizzleError>(
            SwizzleError::NotEnoughData {
                expected_size: expected as usize,
                actual_size: source.len() as usize,
            },
        )
    } else if deswizzle {
        (r matches Ok(v) && is_deswizzled_surface(v@, source, s))
    } else {
        (r matches Ok(v) && is_swizzled_surface(v@, source, s))
    }
}

/// Tiles all the array layers and mipmaps in `source` using the block linear algorithm
/// to a combined vector with the mipmap and layer alignment of the tiled layout.
///
/// The `width`, `height`, and `depth` are in pixels, with the pixels per block defined by
/// `block_dim`. Use a `block_height_mip0` of `None` to infer the block height from the
/// dimensions.
///
/// An empty surface gives an empty vector. Returns [SwizzleError::InvalidSurface] when the
/// dimensions overflow the size computations, and [SwizzleError::NotEnoughData] if `source`
/// does not have at least as many bytes as the result of [deswizzled_surface_size].
pub fn swizzle_surface(
    width: u32,
    height: u32,
    depth: u32,
    source: &[u8],
    block_dim: BlockDim,
    block_height_mip0: Option<BlockHeight>,
    bytes_per_pixel: u32,
    mipmap_count: u32,
    layer_count: u32,
) -> (r: Result<Vec<u8>, SwizzleError>)
    requires
        block_dim.valid(),
    ensures
        surface_result_ok(
            false,
            r,
            width,
            height,
            depth,
            source@,
            block_dim,
            block_height_mip0,
            bytes_per_pixel,
            mipmap_count,
            layer_count,
        ),
{
    transform_surface::<false>(
        width,
        height,
        depth,
        source,
        block_dim,
        block_height_mip0,
        bytes_per_pixel,
        mipmap_count,
        layer_count,
    )
}

/// Untiles all the array layers and mipmaps in `source` using the block linear algorithm
/// to a new vector without any padding between layers or mipmaps.
///
/// The `width`, `height`, and `depth` are in pixels, with the pixels per block defined by
/// `block_dim`. Use a `block_height_mip0` of `None` to infer the block height from the
/// dimensions.
///
/// An empty surface gives an empty vector. Returns [SwizzleError::InvalidSurface] when the
/// dimensions overflow the size computations, and [SwizzleError::NotEnoughData] if `source`
/// does not have at least as many bytes as the result of [swizzled_surface_size].
pub fn deswizzle_surface(
    width: u32,
    height: u32,
    depth: u32,
    source: &[u8],
    block_dim: BlockDim,
    block_height_mip0: Option<BlockHeight>,
    bytes_per_pixel: u32,
    mipmap_count: u32,
    layer_count: u32,
) -> (r: Result<Vec<u8>, SwizzleError>)
    requires
        block_dim.valid(),
    ensures
        surface_result_ok(
            true,
            r,
            width,
            height,
            depth,
            source@,
            block_dim,
            block_height_mip0,
            bytes_per_pixel,
            mipmap_count,
            layer_count,
        ),
{
    transform_surface::<true>(
        width,
        height,
        depth,
        source,
        block_dim,
        block_height_mip0,
        bytes_per_pixel,
        mipmap_count,
        layer_count,
    )
}

/// Tiles or untiles a surface.
fn transform_surface<const DESWIZZLE: bool>(
    width: u32,
    height: u32,
    depth: u32,
    source: &[u8],
    block_dim: BlockDim,
    block_height_mip0: Option<BlockHeight>,
    bytes_per_pixel: u32,
    mipmap_count: u32,
    layer_count: u32,
) -> (r: Result<Vec<u8>, SwizzleError>)
    requires
        block_dim.valid(),
    ensures
        surface_result_ok(
            DESWIZZLE,
            r,
            width,
            height,
            depth,
            source@,
            block_dim,
            block_height_mip0,
            bytes_per_pixel,
            mipmap_count,
            layer_count,
        ),
{
    // Check for empty surfaces first to more reliably handle overflow.
    if width == 0 || height == 0 || depth == 0 || bytes_per_pixel == 0 || mipmap_count == 0
        || layer_count == 0 {
        return Ok(Vec::new());
    }
    match validate_surface(width, height, depth, bytes_per_pixel, mipmap_count) {
        Ok(()) => {},
        Err(e) => {
            return Err(e);
        },
    }
    let mut result = match surface_destination::<DESWIZZLE>(
        width,
        height,
        depth,
        block_dim,
        block_height_mip0,
        bytes_per_pixel,
        mipmap_count,
        layer_count,
        source,
    ) {
        Ok(v) => v,
        Err(e) => {
            return Err(e);
        },
    };
    let block_height_mip0_resolved = block_height_mip0_of(
        height,
        depth,
        block_dim,
        block_height_mip0,
    );
    let ghost s = surface_layout(
        width,
        height,
        depth,
        block_dim,
        block_height_mip0,
        bytes_per_pixel,
        mipmap_count,
        layer_count,
    );
    proof {
        assert(s.swizzled_stride() * layer_count == swizzled_surface_size_spec(
            width,
            height,
            depth,
            block_dim,
            block_height_mip0,
            bytes_per_pixel,
            mipmap_count,
            layer_count,
        ));
    }
    swizzle_surface_inner::<DESWIZZLE>(
        width,
        height,
        depth,
        source,
        &mut result,
        block_dim,
        block_height_mip0_resolved,
        bytes_per_pixel,
        mipmap_count,
        layer_count,
        Ghost(s),
    );
    proof {
        lemma_placed_surface(DESWIZZLE, result@, source@, s);
    }
    Ok(result)
}

/// Every mip level placed, with zero padding when tiling, is the transformed surface.
proof fn lemma_placed_surface(deswizzle: bool, out: Seq<u8>, source: Seq<u8>, s: SurfaceLayout)
    requires
        s.block_dim.valid(),
        s.depth >= 1,
        out.len() == target_stride(deswizzle, s) * s.layer_count,
        origin_stride(deswizzle, s) * s.layer_count <= source.len(),
        forall|l: int, m: int|
            0 <= l < s.layer_count && 0 <= m < s.mipmap_count ==> #[trigger] mip_placed(
                deswizzle,
                out,
                source,
                s,
                l,
                m,
            ),
        !deswizzle ==> forall|l: int| 0 <= l < s.layer_count ==> #[trigger] padding_zero(out, s, l),
    ensures
        deswizzle ==> is_deswizzled_surface(out, source, s),
        !deswizzle ==> is_swizzled_surface(out, source, s),
{
    if deswizzle {
        assert forall|l: int, m: int| 0 <= l < s.layer_count
            && 0 <= m < s.mipmap_count implies #[trigger]
            s.deswizzled_part(out, l, m)
                == deswizzled_mip(s.swizzled_part(source, l, m), s.mip(m)) by {
            assert(mip_placed(deswizzle, out, source, s, l, m));
            lemma_layout(s, l, m, l, s.mipmap_count as int);
            lemma_layout_end(s, l);
            lemma_surface_mip(
                s.width,
                s.height,
                s.depth,
                s.block_dim,
                s.block_height_mip0,
                s.bytes_per_pixel,
                m,
            );
            assert(s.deswizzled_part(out, l, m) =~= deswizzled_mip(s.swizzled_part(source, l, m),
                s.mip(m)));
        }
    } else {
        assert forall|l: int, m: int| 0 <= l < s.layer_count
            && 0 <= m < s.mipmap_count implies #[trigger]
            s.swizzled_part(out, l, m)
                == swizzled_mip(s.deswizzled_part(source, l, m), s.mip(m)) by {
            assert(mip_placed(deswizzle, out, source, s, l, m));
            lemma_layout(s, l, m, l, s.mipmap_count as int);
            lemma_layout_end(s, l);
            lemma_surface_mip(
                s.width,
                s.height,
                s.depth,
                s.block_dim,
                s.block_height_mip0,
                s.bytes_per_pixel,
                m,
            );
            assert(s.swizzled_part(out, l, m) =~= swizzled_mip(s.deswizzled_part(source, l, m),
                s.mip(m)));
        }
        assert forall|l: int| 0 <= l < s.layer_count implies forall|k: int|
            0 <= k < #[trigger] s.layer_padding(out, l).len()
                ==> s.layer_padding(out, l)[k] == 0u8 by {
            assert(padding_zero(out, s, l));
        }
    }
}

/// A single-layer surface is never smaller tiled than untiled.
pub proof fn lemma_swizzled_surface_covers(
    width: u32,
    height: u32,
    depth: u32,
    block_dim: BlockDim,
    block_height_mip0: Option<BlockHeight>,
    bytes_per_pixel: u32,
    mipmap_count: u32,
)
    requires
        block_dim.valid(),
    ensures
        swizzled_surface_size_spec(
            width,
            height,
            depth,
            block_dim,
            block_height_mip0,
            bytes_per_pixel,
            mipmap_count,
            1,
        ) >= deswizzled_surface_size_spec(
            width,
            height,
            depth,
            block_dim,
            bytes_per_pixel,
            mipmap_count,
            1,
        ),
{
    if !is_empty_surface(width, height, depth, bytes_per_pixel, mipmap_count, 1) {
        let bh0 = surface_block_height_mip0(height, depth, block_dim, block_height_mip0);
        lemma_layer_sizes(
            width,
            height,
            depth,
            block_dim,
            bh0,
            bytes_per_pixel,
            0,
            mipmap_count as int,
        );
    }
}

/// A surface whose width, height and depth are all `u32::MAX` is rejected as invalid by
/// both transforms, whatever the source.
pub proof fn lemma_largest_surface_invalid(
    deswizzle: bool,
    r: Result<Vec<u8>, SwizzleError>,
    source: Seq<u8>,
    block_dim: BlockDim,
    block_height_mip0: Option<BlockHeight>,
    bytes_per_pixel: u32,
    mipmap_count: u32,
    layer_count: u32,
)
    requires
        bytes_per_pixel >= 1,
        mipmap_count >= 1,
        layer_count >= 1,
        surface_result_ok(
            deswizzle,
            r,
            u32::MAX,
            u32::MAX,
            u32::MAX,
            source,
            block_dim,
            block_height_mip0,
            bytes_per_pixel,
            mipmap_count,
            layer_count,
        ),
    ensures
        r == Err::<Vec<u8>, SwizzleError>(
            invalid_surface(u32::MAX, u32::MAX, u32::MAX, bytes_per_pixel, mipmap_count),
        ),
{
    let m = u32::MAX as int;
    assert(m * m * m * bytes_per_pixel > u32::MAX) by (nonlinear_arith)
        requires m == u32::MAX, bytes_per_pixel >= 1;
}

/// Finds the mip level whose part of a layer holds offset `r` of the row-major layout.
proof fn lemma_find_mip(s: SurfaceLayout, r: int, n: int) -> (m: int)
    requires
        s.block_dim.valid(),
        s.depth >= 1,
        0 <= r < s.deswizzled_mips(n),
        n >= 0,
    ensures
        0 <= m < n,
        s.deswizzled_mips(m) <= r < s.deswizzled_mips(m) + s.deswizzled_mip_size(m),
    decreases n,
{
    if n == 0 {
        0
    } else if r < s.deswizzled_mips(n - 1) {
        lemma_find_mip(s, r, n - 1)
    } else {
        n - 1
    }
}

/// Untiling the tiling of a surface gives back the row-major bytes it started from.
pub proof fn lemma_surface_round_trip(
    linear: Seq<u8>,
    tiled: Seq<u8>,
    untiled: Seq<u8>,
    width: u32,
    height: u32,
    depth: u32,
    block_dim: BlockDim,
    block_height_mip0: Option<BlockHeight>,
    bytes_per_pixel: u32,
    mipmap_count: u32,
    layer_count: u32,
)
    requires
        block_dim.valid(),
        !is_empty_surface(width, height, depth, bytes_per_pixel, mipmap_count, layer_count),
        linear.len() == deswizzled_surface_size_spec(
            width,
            height,
            depth,
            block_dim,
            bytes_per_pixel,
            mipmap_count,
            layer_count,
        ),
        is_swizzled_surface(
            tiled,
            linear,
            surface_layout(
                width,
                height,
                depth,
                block_dim,
                block_height_mip0,
                bytes_per_pixel,
                mipmap_count,
                layer_count,
            ),
        ),
        is_deswizzled_surface(
            untiled,
            tiled,
            surface_layout(
                width,
                height,
                depth,
                block_dim,
                block_height_mip0,
                bytes_per_pixel,
                mipmap_count,
                layer_count,
            ),
        ),
    ensures
        untiled == linear,
{
    let s = surface_layout(
        width,
        height,
        depth,
        block_dim,
        block_height_mip0,
        bytes_per_pixel,
        mipmap_count,
        layer_count,
    );
    lemma_layer_strides(s);
    let ds = s.deswizzled_stride();
    assert(untiled.len() == linear.len());
    assert forall|k: int| 0 <= k < linear.len() implies untiled[k] == linear[k] by {
        assert(ds > 0) by (nonlinear_arith)
            requires 0 <= k < ds * layer_count, layer_count >= 0;
        assert(0 <= k / ds < layer_count) by (nonlinear_arith)
            requires 0 <= k < ds * layer_count, ds > 0;
        let l = k / ds;
        let r = k % ds;
        vstd::arithmetic::div_mod::lemma_fundamental_div_mod(k, ds);
        vstd::arithmetic::div_mod::lemma_mod_pos_bound(k, ds);
        let m = lemma_find_mip(s, r, mipmap_count as int);
        let i = r - s.deswizzled_mips(m);
        assert(k == s.deswizzled_start(l, m) + i) by (nonlinear_arith)
            requires k == ds * l + r, i == r - s.deswizzled_mips(m), s.deswizzled_start(l, m)
                == l * ds + s.deswizzled_mips(m);
        lemma_layout(s, l, m, l, mipmap_count as int);
        lemma_layout_end(s, l);
        lemma_surface_mip(width, height, depth, block_dim, s.block_height_mip0, bytes_per_pixel, m);
        let part = s.deswizzled_part(linear, l, m);
        crate::swizzle::lemma_mip_round_trip(s.mip(m), part);
        assert(s.swizzled_part(tiled, l, m) == swizzled_mip(part, s.mip(m)));
        assert(s.deswizzled_part(untiled, l, m)
            == deswizzled_mip(s.swizzled_part(tiled, l, m), s.mip(m)));
        assert(s.deswizzled_part(untiled, l, m)[i] == part[i]);
    }
    assert(untiled =~= linear);
}

} // verus!
