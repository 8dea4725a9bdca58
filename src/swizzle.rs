//! Tiling and untiling of a single mip level of a surface.
//!
//! These functions are for advanced usages of tiling and untiling.
//! Most texture formats should use the functions of [crate::surface]
//! to handle mipmap and array layer alignment.
use vstd::arithmetic::div_mod::*;
use vstd::prelude::*;

use crate::blockdepth::block_depth_spec;
use crate::{
    div_ceil, height_in_blocks_spec, round_up_spec, width_in_gobs_spec, BlockHeight, SwizzleError,
    GOB_HEIGHT_IN_BYTES, GOB_SIZE_IN_BYTES, GOB_WIDTH_IN_BYTES,
};

verus! {

/// The shape of one mip level: its dimensions in items (pixels, or blocks of a
/// compressed format), the bytes of one item, and the block height and block depth
/// that its tiling uses.
pub struct Mip {
    pub width: int,
    pub height: int,
    pub depth: int,
    pub bytes_per_pixel: int,
    pub block_height: int,
    pub block_depth: int,
}

/// The position of byte `x` within a 64x8 GOB, in row `y` of the GOB.
#[verifier::opaque]
pub open spec fn gob_offset_spec(x: int, y: int) -> int {
    ((x % 64) / 32) * 256 + ((y % 8) / 2) * 64 + ((x % 32) / 16) * 32 + (y % 2) * 16 + (x % 16)
}

/// The tiled size of one slice of blocks.
pub open spec fn slice_size_spec(
    block_height: int,
    block_depth: int,
    width_in_gobs: int,
    height: int,
) -> int {
    512 * block_height * block_depth * width_in_gobs * div_ceil(height, block_height * 8)
}

/// The start of slice `z`: one slice of blocks every `block_depth` slices,
/// and one block height of GOBs for each slice within a block.
#[verifier::opaque]
pub open spec fn gob_address_z_spec(
    z: int,
    block_height: int,
    block_depth: int,
    slice_size: int,
) -> int {
    (z / block_depth) * slice_size + (z % block_depth) * 512 * block_height
}

/// The start of row `y` within a slice.
#[verifier::opaque]
pub open spec fn gob_address_y_spec(
    y: int,
    block_height_in_bytes: int,
    block_size_in_bytes: int,
    width_in_gobs: int,
) -> int {
    (y / block_height_in_bytes) * block_size_in_bytes * width_in_gobs + ((y
        % block_height_in_bytes) / 8) * 512
}

/// The start of the block that holds byte `x` of a row.
#[verifier::opaque]
pub open spec fn gob_address_x_spec(x: int, block_size_in_bytes: int) -> int {
    (x / 64) * block_size_in_bytes
}

impl Mip {
    /// The bytes in one row.
    pub open spec fn row_size(self) -> int {
        self.width * self.bytes_per_pixel
    }

    pub open spec fn width_in_gobs(self) -> int {
        width_in_gobs_spec(self.width, self.bytes_per_pixel)
    }

    pub open spec fn height_in_blocks(self) -> int {
        height_in_blocks_spec(self.height, self.block_height)
    }

    /// The size of one block: one GOB wide, `block_height` GOBs tall, `block_depth` deep.
    pub open spec fn block_size(self) -> int {
        512 * self.block_height * self.block_depth
    }

    pub open spec fn slice_size(self) -> int {
        slice_size_spec(self.block_height, self.block_depth, self.width_in_gobs(), self.height)
    }

    /// Whether byte `x` of row `y` of slice `z` lies within the mip level.
    pub open spec fn contains(self, x: int, y: int, z: int) -> bool {
        0 <= x < self.row_size() && 0 <= y < self.height && 0 <= z < self.depth
    }

    /// The offset of byte `x` of row `y` of slice `z` in the tiled layout.
    pub open spec fn swizzled_offset(self, x: int, y: int, z: int) -> int {
        gob_address_z_spec(z, self.block_height, self.block_depth, self.slice_size())
            + gob_address_y_spec(y, 8 * self.block_height, self.block_size(), self.width_in_gobs())
            + gob_address_x_spec(x, self.block_size()) + gob_offset_spec(x, y)
    }

    /// The offset of byte `x` of row `y` of slice `z` in the row-major layout.
    pub open spec fn linear_offset(self, x: int, y: int, z: int) -> int {
        z * self.height * self.row_size() + y * self.row_size() + x
    }

    /// The size of the row-major layout.
    pub open spec fn deswizzled_size(self) -> int {
        self.width * self.height * self.depth * self.bytes_per_pixel
    }

    /// The size of the tiled layout: whole blocks in each dimension.
    pub open spec fn swizzled_size(self) -> int {
        self.width_in_gobs() * (self.height_in_blocks() * self.block_height) * round_up_spec(
            self.depth,
            self.block_depth,
        ) * 512
    }

    /// The tiling parameters are usable.
    pub open spec fn valid(self) -> bool {
        self.width >= 0 && self.height >= 0 && self.depth >= 0 && self.bytes_per_pixel >= 0
            && self.block_height >= 1 && self.block_depth >= 1
    }

    /// Whether some byte of the mip level is tiled to offset `j`.
    pub open spec fn is_swizzled_offset(self, j: int) -> bool {
        exists|x: int, y: int, z: int| #[trigger]
            self.contains(x, y, z) && self.swizzled_offset(x, y, z) == j
    }
}

/// The untiled (row-major) bytes of a mip level whose tiled bytes are `source`.
pub open spec fn deswizzled_mip(source: Seq<u8>, m: Mip) -> Seq<u8> {
    Seq::new(
        m.deswizzled_size() as nat,
        |i: int|
            source[m.swizzled_offset(
                i % m.row_size(),
                (i / m.row_size()) % m.height,
                (i / m.row_size()) / m.height,
            )],
    )
}

/// The tiled bytes of a mip level whose row-major bytes are `source`.
/// Padding bytes that no byte of the mip level is tiled to are zero.
pub open spec fn swizzled_mip(source: Seq<u8>, m: Mip) -> Seq<u8> {
    Seq::new(
        m.swizzled_size() as nat,
        |j: int|
            if m.is_swizzled_offset(j) {
                let (x, y, z) = choose|x: int, y: int, z: int| #[trigger]
                    m.contains(x, y, z) && m.swizzled_offset(x, y, z) == j;
                source[m.linear_offset(x, y, z)]
            } else {
                0u8
            },
    )
}

/// Peels off the last digit of a mixed radix number.
proof fn lemma_digit_unique(q1: int, r1: int, q2: int, r2: int, m: int)
    requires
        m > 0,
        0 <= r1 < m,
        0 <= r2 < m,
        q1 * m + r1 == q2 * m + r2,
    ensures
        q1 == q2,
        r1 == r2,
{
    lemma_fundamental_div_mod_converse(q1 * m + r1, m, q1, r1);
    lemma_fundamental_div_mod_converse(q2 * m + r2, m, q2, r2);
}

/// A number with a last digit below `m` stays below `q_bound * m`.
proof fn lemma_digit_bound(q: int, r: int, m: int, q_bound: int)
    requires
        m > 0,
        0 <= r < m,
        0 <= q < q_bound,
    ensures
        0 <= q * m + r < q_bound * m,
{
    assert(q * m + r < q_bound * m && 0 <= q * m) by (nonlinear_arith)
        requires m > 0, 0 <= r < m, 0 <= q < q_bound;
}

/// The digits of a byte position within a GOB.
proof fn lemma_gob_offset_digits(x: int, y: int)
    requires
        0 <= x < 64,
        0 <= y < 8,
    ensures
        ({
            let a = x / 32;
            let c = (x % 32) / 16;
            let f = x % 16;
            let b = y / 2;
            let e = y % 2;
            &&& 0 <= a < 2 && 0 <= c < 2 && 0 <= f < 16 && 0 <= b < 4 && 0 <= e < 2
            &&& x == 32 * a + 16 * c + f
            &&& y == 2 * b + e
            &&& gob_offset_spec(x, y) == (((a * 4 + b) * 2 + c) * 2 + e) * 16 + f
        }),
{
    reveal(gob_offset_spec);
    lemma_small_mod(x as nat, 64);
    lemma_small_mod(y as nat, 8);
    lemma_fundamental_div_mod(x, 32);
    lemma_fundamental_div_mod(x % 32, 16);
    lemma_fundamental_div_mod(y, 2);
    let a = x / 32;
    let c = (x % 32) / 16;
    let r = (x % 32) % 16;
    lemma_mod_pos_bound(x % 32, 16);
    lemma_fundamental_div_mod_converse(x, 16, 2 * a + c, r);
}

/// The intra-GOB offset is below 512 and tells its coordinates apart.
proof fn lemma_gob_offset(x1: int, y1: int, x2: int, y2: int)
    requires
        0 <= x1 < 64,
        0 <= y1 < 8,
        0 <= x2 < 64,
        0 <= y2 < 8,
    ensures
        0 <= gob_offset_spec(x1, y1) < 512,
        gob_offset_spec(x1, y1) == gob_offset_spec(x2, y2) ==> x1 == x2 && y1 == y2,
{
    lemma_gob_offset_digits(x1, y1);
    lemma_gob_offset_digits(x2, y2);
    let (a1, c1, f1, b1, e1) = (x1 / 32, (x1 % 32) / 16, x1 % 16, y1 / 2, y1 % 2);
    let (a2, c2, f2, b2, e2) = (x2 / 32, (x2 % 32) / 16, x2 % 16, y2 / 2, y2 % 2);
    lemma_digit_bound(a1, b1, 4, 2);
    lemma_digit_bound(a1 * 4 + b1, c1, 2, 8);
    lemma_digit_bound((a1 * 4 + b1) * 2 + c1, e1, 2, 16);
    lemma_digit_bound(((a1 * 4 + b1) * 2 + c1) * 2 + e1, f1, 16, 32);
    if gob_offset_spec(x1, y1) == gob_offset_spec(x2, y2) {
        lemma_digit_unique(
            ((a1 * 4 + b1) * 2 + c1) * 2 + e1,
            f1,
            ((a2 * 4 + b2) * 2 + c2) * 2 + e2,
            f2,
            16,
        );
        lemma_digit_unique((a1 * 4 + b1) * 2 + c1, e1, (a2 * 4 + b2) * 2 + c2, e2, 2);
        lemma_digit_unique(a1 * 4 + b1, c1, a2 * 4 + b2, c2, 2);
        lemma_digit_unique(a1, b1, a2, b2, 4);
    }
}

/// The index of the GOB at GOB column `gx`, GOB row `gy` of slice `z`.
#[verifier::opaque]
spec fn gob_index(m: Mip, gx: int, gy: int, z: int) -> int {
    ((((z / m.block_depth) * m.height_in_blocks() + gy / m.block_height) * m.width_in_gobs() + gx)
        * m.block_depth + z % m.block_depth) * m.block_height + gy % m.block_height
}

/// The tiled offset splits into the start of a GOB and the offset within it.
proof fn lemma_swizzled_offset_split(m: Mip, x: int, y: int, z: int)
    requires
        m.valid(),
        x >= 0,
        y >= 0,
        z >= 0,
    ensures
        m.swizzled_offset(x, y, z) == 512 * gob_index(m, x / 64, y / 8, z) + gob_offset_spec(
            x % 64,
            y % 8,
        ),
{
    reveal(gob_index);
    reveal(gob_address_z_spec);
    reveal(gob_address_y_spec);
    reveal(gob_address_x_spec);
    let bh = m.block_height;
    let bd = m.block_depth;
    let wg = m.width_in_gobs();
    let hb = m.height_in_blocks();
    lemma_div_denominator(y, 8, bh);
    lemma_mod_breakdown(y, 8, bh);
    let gy = y / 8;
    let r = gy % bh;
    lemma_mod_pos_bound(y, 8);
    lemma_fundamental_div_mod_converse(y % (8 * bh), 8, r, y % 8);
    lemma_gob_offset_mod(x, y);
    lemma_address_poly(z / bd, gy / bh, x / 64, z % bd, r, bh, bd, wg, hb);
}

/// The intra-GOB offset only depends on the position within the GOB.
proof fn lemma_gob_offset_mod(x: int, y: int)
    requires
        x >= 0,
        y >= 0,
    ensures
        gob_offset_spec(x, y) == gob_offset_spec(x % 64, y % 8),
{
    reveal(gob_offset_spec);
    lemma_mod_mod(x, 32, 2);
    lemma_mod_mod(x, 16, 4);
    lemma_mod_mod(y, 2, 4);
    lemma_mod_pos_bound(x, 64);
    lemma_mod_pos_bound(y, 8);
    lemma_small_mod((x % 64) as nat, 64);
    lemma_small_mod((y % 8) as nat, 8);
}

proof fn lemma_address_poly(
    a: int,
    b: int,
    gx: int,
    e: int,
    r: int,
    bh: int,
    bd: int,
    wg: int,
    hb: int,
)
    ensures
        a * (512 * bh * bd * wg * hb) + e * 512 * bh + (b * (512 * bh * bd) * wg + r * 512) + gx
            * (512 * bh * bd) == 512 * ((((a * hb + b) * wg + gx) * bd + e) * bh + r),
{
    assert(a * (512 * bh * bd * wg * hb) == 512 * (a * hb * wg * bd * bh)) by (nonlinear_arith);
    assert(b * (512 * bh * bd) * wg == 512 * (b * wg * bd * bh)) by (nonlinear_arith);
    assert(gx * (512 * bh * bd) == 512 * (gx * bd * bh)) by (nonlinear_arith);
    assert(e * 512 * bh == 512 * (e * bh)) by (nonlinear_arith);
    assert((((a * hb + b) * wg + gx) * bd + e) * bh == ((a * hb + b) * wg + gx) * bd * bh + e * bh)
        by (nonlinear_arith);
    assert(((a * hb + b) * wg + gx) * bd * bh == (a * hb + b) * wg * bd * bh + gx * bd * bh)
        by (nonlinear_arith);
    assert((a * hb + b) * wg * bd * bh == a * hb * wg * bd * bh + b * wg * bd * bh)
        by (nonlinear_arith);
}

proof fn lemma_size_poly(wg: int, hb: int, bh: int, zb: int, bd: int)
    ensures
        wg * (hb * bh) * (zb * bd) * 512 == 512 * (zb * hb * wg * bd * bh),
{
    assert(wg * (hb * bh) * (zb * bd) * 512 == 512 * (zb * hb * wg * bd * bh)) by (nonlinear_arith);
}

/// Every GOB of the mip level lies within its tiled size, and no two share an index.
proof fn lemma_gob_index(m: Mip, gx1: int, gy1: int, z1: int, gx2: int, gy2: int, z2: int)
    requires
        m.valid(),
        0 <= gx1 < m.width_in_gobs(),
        0 <= gy1 < m.height_in_blocks() * m.block_height,
        0 <= z1 < m.depth,
        0 <= gx2 < m.width_in_gobs(),
        0 <= gy2 < m.height_in_blocks() * m.block_height,
        0 <= z2 < m.depth,
    ensures
        0 <= gob_index(m, gx1, gy1, z1),
        512 * gob_index(m, gx1, gy1, z1) + 512 <= m.swizzled_size(),
        gob_index(m, gx1, gy1, z1) == gob_index(m, gx2, gy2, z2) ==> gx1 == gx2 && gy1 == gy2
            && z1 == z2,
{
    reveal(gob_index);
    let bh = m.block_height;
    let bd = m.block_depth;
    let wg = m.width_in_gobs();
    let hb = m.height_in_blocks();
    let zb = div_ceil(m.depth, bd);
    crate::lemma_div_ceil_bounds(m.depth, bd);
    lemma_fundamental_div_mod(z1, bd);
    lemma_fundamental_div_mod(z2, bd);
    lemma_fundamental_div_mod(gy1, bh);
    lemma_fundamental_div_mod(gy2, bh);
    // Digits of the first index, from the most significant.
    let a1 = z1 / bd;
    let b1 = gy1 / bh;
    let e1 = z1 % bd;
    let f1 = gy1 % bh;
    assert(a1 < zb) by (nonlinear_arith)
        requires a1 == z1 / bd, z1 < m.depth, zb * bd >= m.depth, bd > 0, z1 >= 0;
    assert(b1 < hb) by (nonlinear_arith)
        requires b1 == gy1 / bh, gy1 < hb * bh, bh > 0, gy1 >= 0;
    assert(0 <= a1 && 0 <= b1) by (nonlinear_arith)
        requires a1 == z1 / bd, b1 == gy1 / bh, bh > 0, bd > 0, gy1 >= 0, z1 >= 0;
    lemma_digit_bound(a1, b1, hb, zb);
    lemma_digit_bound(a1 * hb + b1, gx1, wg, zb * hb);
    lemma_digit_bound((a1 * hb + b1) * wg + gx1, e1, bd, zb * hb * wg);
    lemma_digit_bound(((a1 * hb + b1) * wg + gx1) * bd + e1, f1, bh, zb * hb * wg * bd);
    lemma_size_poly(wg, hb, bh, zb, bd);
    assert(m.swizzled_size() == wg * (hb * bh) * (zb * bd) * 512);
    if gob_index(m, gx1, gy1, z1) == gob_index(m, gx2, gy2, z2) {
        let a2 = z2 / bd;
        let b2 = gy2 / bh;
        let e2 = z2 % bd;
        let f2 = gy2 % bh;
        assert(b2 < hb && 0 <= b2) by (nonlinear_arith)
            requires b2 == gy2 / bh, gy2 < hb * bh, bh > 0, gy2 >= 0;
        lemma_digit_unique(((a1 * hb + b1) * wg + gx1) * bd + e1, f1, ((a2 * hb + b2) * wg + gx2)
            * bd + e2, f2, bh);
        lemma_digit_unique((a1 * hb + b1) * wg + gx1, e1, (a2 * hb + b2) * wg + gx2, e2, bd);
        lemma_digit_unique(a1 * hb + b1, gx1, a2 * hb + b2, gx2, wg);
        lemma_digit_unique(a1, b1, a2, b2, hb);
    }
}

/// The tiled offsets of the bytes of a mip level lie within its tiled size,
/// and no two bytes share an offset.
pub proof fn lemma_swizzled_offset(m: Mip, x1: int, y1: int, z1: int, x2: int, y2: int, z2: int)
    requires
        m.valid(),
        m.contains(x1, y1, z1),
        m.contains(x2, y2, z2),
    ensures
        0 <= m.swizzled_offset(x1, y1, z1) < m.swizzled_size(),
        m.swizzled_offset(x1, y1, z1) == m.swizzled_offset(x2, y2, z2) ==> x1 == x2 && y1 == y2
            && z1 == z2,
{
    let wg = m.width_in_gobs();
    let hb = m.height_in_blocks();
    let bh = m.block_height;
    lemma_swizzled_offset_split(m, x1, y1, z1);
    lemma_swizzled_offset_split(m, x2, y2, z2);
    crate::lemma_div_ceil_bounds(m.row_size(), 64);
    crate::lemma_div_ceil_bounds(m.height, bh * 8);
    assert(hb * bh * 8 >= m.height) by (nonlinear_arith)
        requires
            hb * (bh * 8) >= m.height,
    ;
    lemma_fundamental_div_mod(x1, 64);
    lemma_fundamental_div_mod(x2, 64);
    lemma_fundamental_div_mod(y1, 8);
    lemma_fundamental_div_mod(y2, 8);
    lemma_mod_pos_bound(x1, 64);
    lemma_mod_pos_bound(x2, 64);
    lemma_mod_pos_bound(y1, 8);
    lemma_mod_pos_bound(y2, 8);
    let (gx1, gy1, gx2, gy2) = (x1 / 64, y1 / 8, x2 / 64, y2 / 8);
    assert(0 <= gx1 < wg && 0 <= gx2 < wg);
    assert(0 <= gy1 < hb * bh && 0 <= gy2 < hb * bh);
    lemma_gob_index(m, gx1, gy1, z1, gx2, gy2, z2);
    lemma_gob_offset(x1 % 64, y1 % 8, x2 % 64, y2 % 8);
    lemma_gob_offset(x2 % 64, y2 % 8, x1 % 64, y1 % 8);
    let g1 = gob_index(m, gx1, gy1, z1);
    let g2 = gob_index(m, gx2, gy2, z2);
    let o1 = gob_offset_spec(x1 % 64, y1 % 8);
    let o2 = gob_offset_spec(x2 % 64, y2 % 8);
    if m.swizzled_offset(x1, y1, z1) == m.swizzled_offset(x2, y2, z2) {
        assert(g1 * 512 + o1 == g2 * 512 + o2);
        lemma_digit_unique(g1, o1, g2, o2, 512);
    }
}

/// The row-major offsets of the bytes of a mip level lie within its row-major size,
/// and no two bytes share an offset.
pub proof fn lemma_linear_offset(m: Mip, x1: int, y1: int, z1: int, x2: int, y2: int, z2: int)
    requires
        m.valid(),
        m.contains(x1, y1, z1),
        m.contains(x2, y2, z2),
    ensures
        0 <= m.linear_offset(x1, y1, z1) < m.deswizzled_size(),
        m.linear_offset(x1, y1, z1) == m.linear_offset(x2, y2, z2) ==> x1 == x2 && y1 == y2 && z1
            == z2,
{
    let row = m.row_size();
    let h = m.height;
    assert(m.linear_offset(x1, y1, z1) == (z1 * h + y1) * row + x1) by (nonlinear_arith)
        requires m.linear_offset(x1, y1, z1) == z1 * h * row + y1 * row + x1;
    assert(m.linear_offset(x2, y2, z2) == (z2 * h + y2) * row + x2) by (nonlinear_arith)
        requires m.linear_offset(x2, y2, z2) == z2 * h * row + y2 * row + x2;
    assert(m.deswizzled_size() == m.depth * h * row) by (nonlinear_arith)
        requires
            m.deswizzled_size() == m.width * h * m.depth * m.bytes_per_pixel,
            row == m.width * m.bytes_per_pixel;
    lemma_digit_bound(z1, y1, h, m.depth);
    lemma_digit_bound(z1 * h + y1, x1, row, m.depth * h);
    if m.linear_offset(x1, y1, z1) == m.linear_offset(x2, y2, z2) {
        lemma_digit_unique(z1 * h + y1, x1, z2 * h + y2, x2, row);
        lemma_digit_unique(z1, y1, z2, y2, h);
    }
}

/// The shape of a mip level from the parameters of a transform.
pub open spec fn mip_of(
    width: u32,
    height: u32,
    depth: u32,
    bytes_per_pixel: u32,
    block_height: BlockHeight,
    block_depth: u32,
) -> Mip {
    Mip {
        width: width as int,
        height: height as int,
        depth: depth as int,
        bytes_per_pixel: bytes_per_pixel as int,
        block_height: block_height@ as int,
        block_depth: block_depth as int,
    }
}

/// Whether byte `x` of row `y` of slice `z` comes before the position reached by a
/// transform that walks the GOBs of each slice row by row: slice `z0`, the GOB row
/// starting at row `y0`, the GOB starting at byte `x0`, and within it row `yy` and byte `xx`.
pub open spec fn done(x: int, y: int, z: int, x0: int, y0: int, z0: int, yy: int, xx: int) -> bool {
    ||| z < z0
    ||| z == z0 && y < y0
    ||| z == z0 && y0 <= y < y0 + 8 && x < x0
    ||| z == z0 && y0 <= y < y0 + yy && x0 <= x < x0 + 64
    ||| z == z0 && y == y0 + yy && x0 <= x < x0 + xx
}

/// The offset that a transform writes byte `x` of row `y` of slice `z` to,
/// relative to the start of its destination.
pub open spec fn target(deswizzle: bool, m: Mip, x: int, y: int, z: int) -> int {
    if deswizzle {
        m.linear_offset(x, y, z)
    } else {
        m.swizzled_offset(x, y, z)
    }
}

/// The offset that a transform reads byte `x` of row `y` of slice `z` from,
/// relative to the start of its source.
pub open spec fn origin(deswizzle: bool, m: Mip, x: int, y: int, z: int) -> int {
    if deswizzle {
        m.swizzled_offset(x, y, z)
    } else {
        m.linear_offset(x, y, z)
    }
}

/// The size of the destination of a transform.
pub open spec fn target_size(deswizzle: bool, m: Mip) -> int {
    if deswizzle {
        m.deswizzled_size()
    } else {
        m.swizzled_size()
    }
}

/// The size of the source of a transform.
pub open spec fn origin_size(deswizzle: bool, m: Mip) -> int {
    if deswizzle {
        m.swizzled_size()
    } else {
        m.deswizzled_size()
    }
}

/// Whether the transform has written destination index `k` before the given position.
pub open spec fn written(
    deswizzle: bool,
    m: Mip,
    dst_offset: int,
    k: int,
    x0: int,
    y0: int,
    z0: int,
    yy: int,
    xx: int,
) -> bool {
    exists|x: int, y: int, z: int| #[trigger]
        target(deswizzle, m, x, y, z) == k - dst_offset && m.contains(x, y, z) && done(
            x,
            y,
            z,
            x0,
            y0,
            z0,
            yy,
            xx,
        )
}

/// The state of a transform at the given position: each byte before it is copied,
/// and the destination is unchanged where nothing has been written yet.
pub open spec fn progress(
    deswizzle: bool,
    m: Mip,
    dst: Seq<u8>,
    old_dst: Seq<u8>,
    src: Seq<u8>,
    src_offset: int,
    dst_offset: int,
    x0: int,
    y0: int,
    z0: int,
    yy: int,
    xx: int,
) -> bool {
    &&& dst.len() == old_dst.len()
    &&& forall|x: int, y: int, z: int| #[trigger]
        m.contains(x, y, z) && done(x, y, z, x0, y0, z0, yy, xx) ==> dst[dst_offset + target(
            deswizzle,
            m,
            x,
            y,
            z,
        )] == src[src_offset + origin(deswizzle, m, x, y, z)]
    &&& forall|k: int|
        0 <= k < dst.len() && !written(deswizzle, m, dst_offset, k, x0, y0, z0, yy, xx) ==> dst[k]
            == old_dst[k]
}

/// Whether some byte of the mip level is written to offset `j` of the destination.
pub open spec fn is_target(deswizzle: bool, m: Mip, j: int) -> bool {
    exists|x: int, y: int, z: int| #[trigger]
        target(deswizzle, m, x, y, z) == j && m.contains(x, y, z)
}

/// Two positions of a transform that have passed the same bytes have the same state.
proof fn lemma_progress_equiv(
    deswizzle: bool,
    m: Mip,
    dst: Seq<u8>,
    old_dst: Seq<u8>,
    src: Seq<u8>,
    src_offset: int,
    dst_offset: int,
    p1: (int, int, int, int, int),
    p2: (int, int, int, int, int),
)
    requires
        progress(
            deswizzle,
            m,
            dst,
            old_dst,
            src,
            src_offset,
            dst_offset,
            p1.0,
            p1.1,
            p1.2,
            p1.3,
            p1.4,
        ),
        forall|x: int, y: int, z: int|
            m.contains(x, y, z) ==> (#[trigger] done(x, y, z, p1.0, p1.1, p1.2, p1.3, p1.4)
                <==> done(x, y, z, p2.0, p2.1, p2.2, p2.3, p2.4)),
    ensures
        progress(
            deswizzle,
            m,
            dst,
            old_dst,
            src,
            src_offset,
            dst_offset,
            p2.0,
            p2.1,
            p2.2,
            p2.3,
            p2.4,
        ),
{
    assert forall|k: int|
        0 <= k < dst.len() && !written(
            deswizzle,
            m,
            dst_offset,
            k,
            p2.0,
            p2.1,
            p2.2,
            p2.3,
            p2.4,
        ) implies dst[k] == old_dst[k] by {
        if written(deswizzle, m, dst_offset, k, p1.0, p1.1, p1.2, p1.3, p1.4) {
            let (x, y, z) = choose|x: int, y: int, z: int| #[trigger]
                target(deswizzle, m, x, y, z) == k - dst_offset && m.contains(x, y, z) && done(
                    x,
                    y,
                    z,
                    p1.0,
                    p1.1,
                    p1.2,
                    p1.3,
                    p1.4,
                );
            assert(done(x, y, z, p2.0, p2.1, p2.2, p2.3, p2.4));
        }
    }
}

/// Copying the next byte of the mip level advances the state of a transform.
proof fn lemma_progress_byte(
    deswizzle: bool,
    m: Mip,
    dst: Seq<u8>,
    old_dst: Seq<u8>,
    src: Seq<u8>,
    src_offset: int,
    dst_offset: int,
    x0: int,
    y0: int,
    z0: int,
    yy: int,
    xx: int,
)
    requires
        m.valid(),
        progress(deswizzle, m, dst, old_dst, src, src_offset, dst_offset, x0, y0, z0, yy, xx),
        m.contains(x0 + xx, y0 + yy, z0),
        0 <= xx < 64,
        0 <= yy < 8,
        0 <= dst_offset,
        dst_offset + target_size(deswizzle, m) <= dst.len(),
    ensures
        progress(
            deswizzle,
            m,
            dst.update(
                dst_offset + target(deswizzle, m, x0 + xx, y0 + yy, z0),
                src[src_offset + origin(deswizzle, m, x0 + xx, y0 + yy, z0)],
            ),
            old_dst,
            src,
            src_offset,
            dst_offset,
            x0,
            y0,
            z0,
            yy,
            xx + 1,
        ),
{
    let (px, py, pz) = (x0 + xx, y0 + yy, z0);
    lemma_linear_offset(m, px, py, pz, px, py, pz);
    lemma_swizzled_offset(m, px, py, pz, px, py, pz);
    let pk = dst_offset + target(deswizzle, m, px, py, pz);
    let new_dst = dst.update(pk, src[src_offset + origin(deswizzle, m, px, py, pz)]);
    assert forall|x: int, y: int, z: int| #![trigger target(deswizzle, m, x, y, z)]
        m.contains(x, y, z) && done(x, y, z, x0, y0, z0, yy, xx + 1) implies new_dst[dst_offset
        + target(deswizzle, m, x, y, z)] == src[src_offset + origin(deswizzle, m, x, y, z)] by {
        lemma_linear_offset(m, x, y, z, px, py, pz);
        lemma_swizzled_offset(m, x, y, z, px, py, pz);
        if x != px || y != py || z != pz {
            assert(done(x, y, z, x0, y0, z0, yy, xx));
        }
    }
    assert forall|k: int|
        0 <= k < new_dst.len() && !written(
            deswizzle,
            m,
            dst_offset,
            k,
            x0,
            y0,
            z0,
            yy,
            xx + 1,
        ) implies new_dst[k] == old_dst[k] by {
        if k == pk {
            assert(target(deswizzle, m, px, py, pz) == k - dst_offset && m.contains(px, py, pz)
                && done(px, py, pz, x0, y0, z0, yy, xx + 1));
        } else {
            if written(deswizzle, m, dst_offset, k, x0, y0, z0, yy, xx) {
                let (x, y, z) = choose|x: int, y: int, z: int| #[trigger]
                    target(deswizzle, m, x, y, z) == k - dst_offset && m.contains(x, y, z) && done(
                        x,
                        y,
                        z,
                        x0,
                        y0,
                        z0,
                        yy,
                        xx,
                    );
                assert(done(x, y, z, x0, y0, z0, yy, xx + 1));
            }
        }
    }
}

/// A byte of a GOB lies at the start of the GOB plus its intra-GOB offset.
proof fn lemma_gob_byte(m: Mip, x0: int, y0: int, z0: int, xx: int, yy: int)
    requires
        m.valid(),
        x0 >= 0,
        y0 >= 0,
        z0 >= 0,
        x0 % 64 == 0,
        y0 % 8 == 0,
        0 <= xx < 64,
        0 <= yy < 8,
    ensures
        m.swizzled_offset(x0 + xx, y0 + yy, z0) == m.swizzled_offset(x0, y0, z0) + gob_offset_spec(
            xx,
            yy,
        ),
        m.linear_offset(x0 + xx, y0 + yy, z0) == m.linear_offset(x0, y0, z0) + yy * m.row_size()
            + xx,
{
    lemma_swizzled_offset_split(m, x0 + xx, y0 + yy, z0);
    lemma_swizzled_offset_split(m, x0, y0, z0);
    lemma_fundamental_div_mod(x0, 64);
    lemma_fundamental_div_mod(y0, 8);
    lemma_fundamental_div_mod_converse(x0 + xx, 64, x0 / 64, xx);
    lemma_fundamental_div_mod_converse(y0 + yy, 8, y0 / 8, yy);
    reveal(gob_offset_spec);
    assert((y0 + yy) * m.row_size() == y0 * m.row_size() + yy * m.row_size()) by (nonlinear_arith);
}

/// The intra-GOB offset of a row of a GOB.
proof fn lemma_gob_row(xx: int, yy: int)
    requires
        0 <= xx < 64,
        0 <= yy < 8,
    ensures
        gob_offset_spec(xx, yy) == (yy / 2) * 64 + (yy % 2) * 16 + ((xx / 16) / 2) * 256 + ((xx
            / 16) % 2) * 32 + xx % 16,
{
    reveal(gob_offset_spec);
    lemma_small_mod(xx as nat, 64);
    lemma_small_mod(yy as nat, 8);
    lemma_div_denominator(xx, 16, 2);
    lemma_mod_breakdown(xx, 16, 2);
    lemma_mod_pos_bound(xx, 16);
    lemma_fundamental_div_mod_converse(xx % 32, 16, (xx / 16) % 2, xx % 16);
}

/// Returns the offset within the GOB for the byte at location (`x`, `y`).
fn gob_offset(x: usize, y: usize) -> (r: usize)
    ensures
        r == gob_offset_spec(x as int, y as int),
{
    reveal(gob_offset_spec);
    ((x % 64) / 32) * 256 + ((y % 8) / 2) * 64 + ((x % 32) / 16) * 32 + (y % 2) * 16 + (x % 16)
}

/// The intra-GOB offset of the first byte of each row of a GOB.
fn gob_row_offset(row: usize) -> (r: usize)
    requires
        row < 8,
    ensures
        r == (row / 2) * 64 + (row % 2) * 16,
{
    match row {
        0 => 0,
        1 => 16,
        2 => 64,
        3 => 80,
        4 => 128,
        5 => 144,
        6 => 192,
        _ => 208,
    }
}

/// The intra-GOB offset of each 16-byte quarter of a GOB row, relative to the row.
fn gob_chunk_offset(chunk: usize) -> (r: usize)
    requires
        chunk < 4,
    ensures
        r == (chunk / 2) * 256 + (chunk % 2) * 32,
{
    match chunk {
        0 => 0,
        1 => 32,
        2 => 256,
        _ => 288,
    }
}

/// Copies one byte.
fn transfer(destination: &mut Vec<u8>, dst_index: usize, source: &[u8], src_index: usize)
    requires
        dst_index < old(destination).len(),
        src_index < source.len(),
    ensures
        final(destination)@ == old(destination)@.update(dst_index as int,
            source@[src_index as int]),
{
    destination.set(dst_index, source[src_index]);
}

/// The requirements shared by the GOB transfers of one mip level.
pub open spec fn gob_transfer_ready(
    deswizzle: bool,
    m: Mip,
    destination: Seq<u8>,
    source: Seq<u8>,
    src_offset: int,
    dst_offset: int,
    x0: int,
    y0: int,
    z0: int,
    gob_address: int,
    linear_address: int,
) -> bool {
    &&& m.valid()
    &&& m.contains(x0, y0, z0)
    &&& x0 % 64 == 0
    &&& y0 % 8 == 0
    &&& gob_address == m.swizzled_offset(x0, y0, z0)
    &&& linear_address == m.linear_offset(x0, y0, z0)
    &&& 0 <= src_offset
    &&& 0 <= dst_offset
    &&& src_offset + origin_size(deswizzle, m) <= source.len()
    &&& dst_offset + target_size(deswizzle, m) <= destination.len()
}

/// Transfers one GOB byte by byte, skipping bytes outside the mip level.
#[verifier::loop_isolation(false)]
fn swizzle_deswizzle_gob<const DESWIZZLE: bool>(
    destination: &mut Vec<u8>,
    source: &[u8],
    src_offset: usize,
    dst_offset: usize,
    x0: usize,
    y0: usize,
    z0: usize,
    row_size: usize,
    height: usize,
    gob_address: usize,
    linear_address: usize,
    Ghost(m): Ghost<Mip>,
    Ghost(initial): Ghost<Seq<u8>>,
)
    requires
        gob_transfer_ready(
            DESWIZZLE,
            m,
            old(destination)@,
            source@,
            src_offset as int,
            dst_offset as int,
            x0 as int,
            y0 as int,
            z0 as int,
            gob_address as int,
            linear_address as int,
        ),
        row_size == m.row_size(),
        height == m.height,
        progress(
            DESWIZZLE,
            m,
            old(destination)@,
            initial,
            source@,
            src_offset as int,
            dst_offset as int,
            x0 as int,
            y0 as int,
            z0 as int,
            0,
            0,
        ),
    ensures
        progress(
            DESWIZZLE,
            m,
            final(destination)@,
            initial,
            source@,
            src_offset as int,
            dst_offset as int,
            x0 as int,
            y0 as int,
            z0 as int,
            8,
            0,
        ),
        final(destination)@.len() == old(destination)@.len(),
{
    let source_len = source.len();
    let destination_len = destination.len();
    let mut y: usize = 0;
    while y < GOB_HEIGHT_IN_BYTES
        invariant
            y <= 8,
            destination@.len() == old(destination)@.len(),
            progress(
                DESWIZZLE,
                m,
                destination@,
                initial,
                source@,
                src_offset as int,
                dst_offset as int,
                x0 as int,
                y0 as int,
                z0 as int,
                y as int,
                0,
            ),
        decreases 8 - y,
    {
        let mut x: usize = 0;
        while x < GOB_WIDTH_IN_BYTES
            invariant
                x <= 64,
                y < 8,
                destination@.len() == old(destination)@.len(),
                progress(
                    DESWIZZLE,
                    m,
                    destination@,
                    initial,
                    source@,
                    src_offset as int,
                    dst_offset as int,
                    x0 as int,
                    y0 as int,
                    z0 as int,
                    y as int,
                    x as int,
                ),
            decreases 64 - x,
        {
            if y0 + y < height && x0 + x < row_size {
                proof {
                    lemma_gob_byte(m, x0 as int, y0 as int, z0 as int, x as int, y as int);
                    lemma_linear_offset(m, x0 + x, y0 + y, z0 as int, x0 + x, y0 + y, z0 as int);
                    lemma_swizzled_offset(
                        m,
                        x0 + x,
                        y0 + y,
                        z0 as int,
                        x0 + x,
                        y0 + y,
                        z0 as int,
                    );
                    lemma_progress_byte(
                        DESWIZZLE,
                        m,
                        destination@,
                        initial,
                        source@,
                        src_offset as int,
                        dst_offset as int,
                        x0 as int,
                        y0 as int,
                        z0 as int,
                        y as int,
                        x as int,
                    );
                }
                let swizzled_offset = gob_address + gob_offset(x, y);
                let linear_offset = linear_address + y * row_size + x;
                // Swap the addresses for tiling vs untiling.
                if DESWIZZLE {
                    transfer(
                        destination,
                        dst_offset + linear_offset,
                        source,
                        src_offset + swizzled_offset,
                    );
                } else {
                    transfer(
                        destination,
                        dst_offset + swizzled_offset,
                        source,
                        src_offset + linear_offset,
                    );
                }
            } else {
                proof {
                    lemma_progress_equiv(
                        DESWIZZLE,
                        m,
                        destination@,
                        initial,
                        source@,
                        src_offset as int,
                        dst_offset as int,
                        (x0 as int, y0 as int, z0 as int, y as int, x as int),
                        (x0 as int, y0 as int, z0 as int, y as int, x + 1),
                    );
                }
            }
            x += 1;
        }
        proof {
            lemma_progress_equiv(
                DESWIZZLE,
                m,
                destination@,
                initial,
                source@,
                src_offset as int,
                dst_offset as int,
                (x0 as int, y0 as int, z0 as int, y as int, 64),
                (x0 as int, y0 as int, z0 as int, y + 1, 0),
            );
        }
        y += 1;
    }
}

/// Transfers row `row` of a GOB that lies entirely within the mip level,
/// as four 16-byte runs at fixed offsets within the GOB.
#[verifier::loop_isolation(false)]
fn transfer_gob_row<const DESWIZZLE: bool>(
    destination: &mut Vec<u8>,
    source: &[u8],
    src_offset: usize,
    dst_offset: usize,
    x0: usize,
    y0: usize,
    z0: usize,
    row: usize,
    row_size: usize,
    gob_address: usize,
    linear_address: usize,
    Ghost(m): Ghost<Mip>,
    Ghost(initial): Ghost<Seq<u8>>,
)
    requires
        gob_transfer_ready(
            DESWIZZLE,
            m,
            old(destination)@,
            source@,
            src_offset as int,
            dst_offset as int,
            x0 as int,
            y0 as int,
            z0 as int,
            gob_address as int,
            linear_address as int,
        ),
        row < 8,
        row_size == m.row_size(),
        x0 + 64 <= m.row_size(),
        y0 + 8 <= m.height,
        progress(
            DESWIZZLE,
            m,
            old(destination)@,
            initial,
            source@,
            src_offset as int,
            dst_offset as int,
            x0 as int,
            y0 as int,
            z0 as int,
            row as int,
            0,
        ),
    ensures
        progress(
            DESWIZZLE,
            m,
            final(destination)@,
            initial,
            source@,
            src_offset as int,
            dst_offset as int,
            x0 as int,
            y0 as int,
            z0 as int,
            row as int,
            64,
        ),
        final(destination)@.len() == old(destination)@.len(),
{
    let source_len = source.len();
    let destination_len = destination.len();
    proof {
        lemma_gob_byte(m, x0 as int, y0 as int, z0 as int, 0, row as int);
        lemma_gob_row(0, row as int);
        lemma_linear_offset(m, x0 as int, y0 + row, z0 as int, x0 as int, y0 + row, z0 as int);
        lemma_swizzled_offset(m, x0 as int, y0 + row, z0 as int, x0 as int, y0 + row, z0 as int);
    }
    let swizzled_row = gob_address + gob_row_offset(row);
    let linear_row = linear_address + row * row_size;
    let mut chunk: usize = 0;
    while chunk < 4
        invariant
            chunk <= 4,
            destination@.len() == old(destination)@.len(),
            progress(
                DESWIZZLE,
                m,
                destination@,
                initial,
                source@,
                src_offset as int,
                dst_offset as int,
                x0 as int,
                y0 as int,
                z0 as int,
                row as int,
                16 * chunk,
            ),
        decreases 4 - chunk,
    {
        proof {
            let xx = 16 * chunk;
            lemma_fundamental_div_mod_converse(xx, 16, chunk as int, 0);
            lemma_gob_row(xx, row as int);
            lemma_gob_byte(m, x0 as int, y0 as int, z0 as int, xx, row as int);
            lemma_swizzled_offset(m, x0 + xx, y0 + row, z0 as int, x0 + xx, y0 + row, z0 as int);
            lemma_linear_offset(m, x0 + xx, y0 + row, z0 as int, x0 + xx, y0 + row, z0 as int);
        }
        let swizzled_chunk = swizzled_row + gob_chunk_offset(chunk);
        let linear_chunk = linear_row + 16 * chunk;
        let mut i: usize = 0;
        while i < 16
            invariant
                i <= 16,
                chunk < 4,
                destination@.len() == old(destination)@.len(),
                progress(
                    DESWIZZLE,
                    m,
                    destination@,
                    initial,
                    source@,
                    src_offset as int,
                    dst_offset as int,
                    x0 as int,
                    y0 as int,
                    z0 as int,
                    row as int,
                    16 * chunk + i,
                ),
            decreases 16 - i,
        {
            proof {
                let xx = 16 * chunk + i;
                lemma_fundamental_div_mod_converse(xx, 16, chunk as int, i as int);
                lemma_gob_row(xx, row as int);
                lemma_gob_byte(m, x0 as int, y0 as int, z0 as int, xx, row as int);
                lemma_linear_offset(m, x0 + xx, y0 + row, z0 as int, x0 + xx, y0 + row, z0 as int);
                lemma_swizzled_offset(
                    m,
                    x0 + xx,
                    y0 + row,
                    z0 as int,
                    x0 + xx,
                    y0 + row,
                    z0 as int,
                );
                lemma_progress_byte(
                    DESWIZZLE,
                    m,
                    destination@,
                    initial,
                    source@,
                    src_offset as int,
                    dst_offset as int,
                    x0 as int,
                    y0 as int,
                    z0 as int,
                    row as int,
                    xx,
                );
            }
            if DESWIZZLE {
                transfer(
                    destination,
                    dst_offset + linear_chunk + i,
                    source,
                    src_offset + swizzled_chunk + i,
                );
            } else {
                transfer(
                    destination,
                    dst_offset + swizzled_chunk + i,
                    source,
                    src_offset + linear_chunk + i,
                );
            }
            i += 1;
        }
        chunk += 1;
    }
}

/// Transfers a GOB that lies entirely within the mip level, one row at a time.
#[verifier::loop_isolation(false)]
fn transfer_complete_gob<const DESWIZZLE: bool>(
    destination: &mut Vec<u8>,
    source: &[u8],
    src_offset: usize,
    dst_offset: usize,
    x0: usize,
    y0: usize,
    z0: usize,
    row_size: usize,
    gob_address: usize,
    linear_address: usize,
    Ghost(m): Ghost<Mip>,
    Ghost(initial): Ghost<Seq<u8>>,
)
    requires
        gob_transfer_ready(
            DESWIZZLE,
            m,
            old(destination)@,
            source@,
            src_offset as int,
            dst_offset as int,
            x0 as int,
            y0 as int,
            z0 as int,
            gob_address as int,
            linear_address as int,
        ),
        row_size == m.row_size(),
        x0 + 64 <= m.row_size(),
        y0 + 8 <= m.height,
        progress(
            DESWIZZLE,
            m,
            old(destination)@,
            initial,
            source@,
            src_offset as int,
            dst_offset as int,
            x0 as int,
            y0 as int,
            z0 as int,
            0,
            0,
        ),
    ensures
        progress(
            DESWIZZLE,
            m,
            final(destination)@,
            initial,
            source@,
            src_offset as int,
            dst_offset as int,
            x0 as int,
            y0 as int,
            z0 as int,
            8,
            0,
        ),
        final(destination)@.len() == old(destination)@.len(),
{
    let mut row: usize = 0;
    while row < GOB_HEIGHT_IN_BYTES
        invariant
            row <= 8,
            destination@.len() == old(destination)@.len(),
            progress(
                DESWIZZLE,
                m,
                destination@,
                initial,
                source@,
                src_offset as int,
                dst_offset as int,
                x0 as int,
                y0 as int,
                z0 as int,
                row as int,
                0,
            ),
        decreases 8 - row,
    {
        transfer_gob_row::<DESWIZZLE>(
            destination,
            source,
            src_offset,
            dst_offset,
            x0,
            y0,
            z0,
            row,
            row_size,
            gob_address,
            linear_address,
            Ghost(m),
            Ghost(initial),
        );
        proof {
            lemma_progress_equiv(
                DESWIZZLE,
                m,
                destination@,
                initial,
                source@,
                src_offset as int,
                dst_offset as int,
                (x0 as int, y0 as int, z0 as int, row as int, 64),
                (x0 as int, y0 as int, z0 as int, row + 1, 0),
            );
        }
        row += 1;
    }
}

/// Size facts of a nonempty mip level.
proof fn lemma_mip_sizes(m: Mip)
    requires
        m.valid(),
        m.width >= 1,
        m.height >= 1,
        m.depth >= 1,
        m.bytes_per_pixel >= 1,
    ensures
        1 <= m.row_size() <= m.deswizzled_size(),
        1 <= m.width_in_gobs() <= m.row_size(),
        1 <= m.height_in_blocks(),
        m.slice_size() == m.block_size() * m.width_in_gobs() * m.height_in_blocks(),
        512 <= m.block_size() <= m.slice_size() <= m.swizzled_size(),
        512 * m.block_height <= m.block_size(),
        m.height_in_blocks() * m.block_height * 8 <= m.swizzled_size(),
        m.width_in_gobs() * 64 <= m.swizzled_size(),
        m.block_size() * m.width_in_gobs() <= m.slice_size(),
{
    let (w, h, d, bpp, bh, bd) = (
        m.width,
        m.height,
        m.depth,
        m.bytes_per_pixel,
        m.block_height,
        m.block_depth,
    );
    crate::lemma_div_ceil_bounds(m.row_size(), 64);
    crate::lemma_div_ceil_bounds(h, bh * 8);
    crate::lemma_div_ceil_bounds(d, bd);
    let wg = m.width_in_gobs();
    let hb = m.height_in_blocks();
    let zb = div_ceil(d, bd);
    assert(1 <= w * bpp <= w * h * d * bpp) by (nonlinear_arith)
        requires w >= 1, h >= 1, d >= 1, bpp >= 1;
    assert(m.slice_size() == 512 * bh * bd * wg * hb);
    assert(512 * bh * bd * wg * hb == (512 * bh * bd) * wg * hb) by (nonlinear_arith);
    assert(512 <= 512 * bh * bd <= 512 * bh * bd * wg * hb) by (nonlinear_arith)
        requires bh >= 1, bd >= 1, wg >= 1, hb >= 1;
    assert(512 * bh <= 512 * bh * bd) by (nonlinear_arith)
        requires bh >= 1, bd >= 1;
    lemma_size_poly(wg, hb, bh, zb, bd);
    assert(512 * bh * bd * wg * hb <= 512 * (zb * hb * wg * bd * bh)) by (nonlinear_arith)
        requires bh >= 1, bd >= 1, wg >= 1, hb >= 1, zb >= 1;
    assert(hb * bh * 8 <= 512 * (zb * hb * wg * bd * bh) && wg * 64 <= 512 * (zb * hb * wg * bd
        * bh)) by (nonlinear_arith)
        requires bh >= 1, bd >= 1, wg >= 1, hb >= 1, zb >= 1;
    assert((512 * bh * bd) * wg <= (512 * bh * bd) * wg * hb) by (nonlinear_arith)
        requires bh >= 1, bd >= 1, wg >= 1, hb >= 1;
}

/// The exec form of the start of slice `z`.
proof fn lemma_gob_start(m: Mip, x0: int, y0: int, z0: int)
    requires
        m.valid(),
        x0 >= 0,
        y0 >= 0,
        z0 >= 0,
        x0 % 64 == 0,
        y0 % 8 == 0,
    ensures
        m.swizzled_offset(x0, y0, z0) == gob_address_z_spec(
            z0,
            m.block_height,
            m.block_depth,
            m.slice_size(),
        ) + gob_address_y_spec(y0, 8 * m.block_height, m.block_size(), m.width_in_gobs())
            + gob_address_x_spec(x0, m.block_size()),
        gob_address_z_spec(z0, m.block_height, m.block_depth, m.slice_size()) == (z0
            / m.block_depth) * m.slice_size() + (z0 % m.block_depth) * 512 * m.block_height,
        gob_address_y_spec(y0, 8 * m.block_height, m.block_size(), m.width_in_gobs()) == (y0 / (8
            * m.block_height)) * m.block_size() * m.width_in_gobs() + ((y0 % (8 * m.block_height))
            / 8) * 512,
        gob_address_x_spec(x0, m.block_size()) == (x0 / 64) * m.block_size(),
        0 <= (z0 / m.block_depth) * m.slice_size(),
        0 <= (z0 % m.block_depth) * 512 <= (z0 % m.block_depth) * 512 * m.block_height,
        0 <= (y0 / (8 * m.block_height)) * m.block_size(),
        0 <= ((y0 % (8 * m.block_height)) / 8) * 512,
        0 <= (x0 / 64) * m.block_size(),
{
    reveal(gob_address_z_spec);
    reveal(gob_address_y_spec);
    reveal(gob_address_x_spec);
    reveal(gob_offset_spec);
    lemma_gob_offset_mod(x0, y0);
    let (bh, bd, slice, bs, wg) = (
        m.block_height,
        m.block_depth,
        m.slice_size(),
        m.block_size(),
        m.width_in_gobs(),
    );
    crate::lemma_div_ceil_bounds(m.row_size(), 64);
    crate::lemma_div_ceil_bounds(m.height, bh * 8);
    let zq = z0 / bd;
    let zr = z0 % bd;
    let yq = y0 / (8 * bh);
    let yr = (y0 % (8 * bh)) / 8;
    let xq = x0 / 64;
    assert(zq >= 0 && zr >= 0 && yq >= 0 && yr >= 0 && xq >= 0) by (nonlinear_arith)
        requires
            bh >= 1,
            bd >= 1,
            z0 >= 0,
            y0 >= 0,
            x0 >= 0,
            zq == z0 / bd,
            zr == z0 % bd,
            yq == y0 / (8 * bh),
            yr == (y0 % (8 * bh)) / 8,
            xq == x0 / 64,
    ;
    assert(slice >= 0 && bs >= 0 && wg >= 0);
    assert(0 <= zq * slice && 0 <= zr * 512 <= zr * 512 * bh && 0 <= yq * bs && 0 <= yr * 512 && 0
        <= xq * bs) by (nonlinear_arith)
        requires
            zq >= 0,
            zr >= 0,
            yq >= 0,
            yr >= 0,
            xq >= 0,
            slice >= 0,
            bs >= 0,
            bh >= 1,
    ;
}

/// The tiled size of one slice of blocks.
fn slice_size(block_height: usize, block_depth: usize, width_in_gobs: usize,
    height: usize) -> (r: usize)
    requires
        block_height >= 1,
        block_depth >= 1,
        width_in_gobs >= 1,
        height >= 1,
        slice_size_spec(
            block_height as int,
            block_depth as int,
            width_in_gobs as int,
            height as int,
        )
            <= usize::MAX,
    ensures
        r == slice_size_spec(
            block_height as int,
            block_depth as int,
            width_in_gobs as int,
            height as int,
        ),
{
    let ghost (bh, bd, wg) = (block_height as int, block_depth as int, width_in_gobs as int);
    let ghost hb = div_ceil(height as int, bh * 8);
    proof {
        crate::lemma_div_ceil_bounds(height as int, bh * 8);
        assert(512 * bh <= 512 * bh * bd <= 512 * bh * bd * wg <= 512 * bh * bd * wg * hb)
            by (nonlinear_arith)
            requires bh >= 1, bd >= 1, wg >= 1, hb >= 1;
        assert(hb * (512 * bh * bd * wg) == 512 * bh * bd * wg * hb) by (nonlinear_arith);
        assert((height as int + bh * 8 - 1) / (bh * 8)
            == height as int / (bh * 8) + (if height as int
            % (bh * 8) != 0 { 1int } else { 0 })) by (nonlinear_arith)
            requires bh >= 1, height >= 1;
        assert(height as int / (bh * 8) <= height) by (nonlinear_arith)
            requires bh >= 1, height >= 1;
    }
    let rob_size = GOB_SIZE_IN_BYTES * block_height * block_depth * width_in_gobs;
    let rows = block_height * GOB_HEIGHT_IN_BYTES;
    let height_in_blocks = height / rows + if height % rows != 0 { 1 } else { 0 };
    height_in_blocks * rob_size
}

/// The start of slice `z`: a slice of blocks for every `block_depth` slices, and a block
/// height of GOBs for each slice within a block.
fn gob_address_z(z: usize, block_height: usize, block_depth: usize, slice_size: usize) -> (r: usize)
    requires
        block_height >= 1,
        block_depth >= 1,
        gob_address_z_spec(z as int, block_height as int, block_depth as int, slice_size as int)
            <= usize::MAX,
    ensures
        r == gob_address_z_spec(
            z as int,
            block_height as int,
            block_depth as int,
            slice_size as int,
        ),
{
    reveal(gob_address_z_spec);
    proof {
        let (q, e) = (z / block_depth, z % block_depth);
        assert(0 <= q * slice_size && 0 <= e * 512 <= e * 512 * block_height) by (nonlinear_arith)
            requires q >= 0, e >= 0, slice_size >= 0, block_height >= 1;
    }
    (z / block_depth) * slice_size + (z % block_depth) * GOB_SIZE_IN_BYTES * block_height
}

/// The start of row `y` within a slice.
fn gob_address_y(
    y: usize,
    block_height_in_bytes: usize,
    block_size_in_bytes: usize,
    width_in_gobs: usize,
) -> (r: usize)
    requires
        block_height_in_bytes >= 8,
        width_in_gobs >= 1,
        gob_address_y_spec(
            y as int,
            block_height_in_bytes as int,
            block_size_in_bytes as int,
            width_in_gobs as int,
        ) <= usize::MAX,
    ensures
        r == gob_address_y_spec(
            y as int,
            block_height_in_bytes as int,
            block_size_in_bytes as int,
            width_in_gobs as int,
        ),
{
    reveal(gob_address_y_spec);
    proof {
        let (q, e) = (y / block_height_in_bytes, (y % block_height_in_bytes) / 8);
        assert(0 <= q * block_size_in_bytes <= q * block_size_in_bytes * width_in_gobs && 0 <= e
            * 512) by (nonlinear_arith)
            requires q >= 0, e >= 0, block_size_in_bytes >= 0, width_in_gobs >= 1;
    }
    let block_y = y / block_height_in_bytes;
    let block_inner_row = y % block_height_in_bytes / GOB_HEIGHT_IN_BYTES;
    block_y * block_size_in_bytes * width_in_gobs + block_inner_row * GOB_SIZE_IN_BYTES
}

/// The start of the block that holds byte `x` of a row.
fn gob_address_x(x: usize, block_size_in_bytes: usize) -> (r: usize)
    requires
        gob_address_x_spec(x as int, block_size_in_bytes as int) <= usize::MAX,
    ensures
        r == gob_address_x_spec(x as int, block_size_in_bytes as int),
{
    reveal(gob_address_x_spec);
    let block_x = x / GOB_WIDTH_IN_BYTES;
    block_x * block_size_in_bytes
}

/// Copies the bytes of one mip level between `source` (from `src_offset`) and
/// `destination` (from `dst_offset`). When deswizzling, `source` holds the tiled
/// bytes and `destination` receives the row-major bytes; when swizzling, the reverse.
#[verifier::loop_isolation(false)]
pub(crate) fn swizzle_inner<const DESWIZZLE: bool>(
    width: u32,
    height: u32,
    depth: u32,
    source: &[u8],
    src_offset: usize,
    destination: &mut Vec<u8>,
    dst_offset: usize,
    block_height: BlockHeight,
    block_depth: u32,
    bytes_per_pixel: u32,
)
    requires
        block_depth >= 1,
        src_offset + origin_size(
            DESWIZZLE,
            mip_of(width, height, depth, bytes_per_pixel, block_height, block_depth),
        ) <= source.len(),
        dst_offset + target_size(
            DESWIZZLE,
            mip_of(width, height, depth, bytes_per_pixel, block_height, block_depth),
        ) <= old(destination).len(),
    ensures
        final(destination)@.len() == old(destination)@.len(),
        forall|x: int, y: int, z: int| #[trigger]
            mip_of(width, height, depth, bytes_per_pixel, block_height, block_depth).contains(x, y,
                z)
                ==> final(destination)@[dst_offset + target(
                DESWIZZLE,
                mip_of(width, height, depth, bytes_per_pixel, block_height, block_depth),
                x,
                y,
                z,
            )] == source@[src_offset + origin(
                DESWIZZLE,
                mip_of(width, height, depth, bytes_per_pixel, block_height, block_depth),
                x,
                y,
                z,
            )],
        forall|k: int|
            0 <= k < old(destination)@.len() && !is_target(
                DESWIZZLE,
                mip_of(width, height, depth, bytes_per_pixel, block_height, block_depth),
                k - dst_offset,
            ) ==> final(destination)@[k] == old(destination)@[k],
        forall|k: int|
            0 <= k < old(destination)@.len() && (k < dst_offset || k >= dst_offset + target_size(
                DESWIZZLE,
                mip_of(width, height, depth, bytes_per_pixel, block_height, block_depth),
            )) ==> final(destination)@[k] == old(destination)@[k],
{
    let ghost m = mip_of(width, height, depth, bytes_per_pixel, block_height, block_depth);
    let ghost initial = destination@;
    if width == 0 || height == 0 || depth == 0 || bytes_per_pixel == 0 {
        proof {
            assert(m.row_size() == 0 || m.height == 0 || m.depth == 0) by (nonlinear_arith)
                requires
                    m.row_size() == m.width * m.bytes_per_pixel,
                    m.width == 0 || m.height == 0 || m.depth == 0 || m.bytes_per_pixel == 0,
            ;
        }
        return;
    }
    let source_len = source.len();
    let destination_len = destination.len();
    proof {
        lemma_mip_sizes(m);
    }
    let bh = block_height.value() as usize;
    let bd = block_depth as usize;
    let height = height as usize;
    let depth = depth as usize;
    let row_size = width as usize * bytes_per_pixel as usize;
    let width_in_gobs = crate::width_in_gobs(width, bytes_per_pixel) as usize;

    // Blocks are always one GOB wide.
    let block_size_in_bytes = GOB_SIZE_IN_BYTES * bh * bd;
    let block_height_in_bytes = GOB_HEIGHT_IN_BYTES * bh;
    let slice_size = slice_size(bh, bd, width_in_gobs, height);

    // Step a GOB of bytes at a time: complete 64x8 GOBs use the fixed row layout,
    // and the partially filled GOBs along the right and bottom edges go byte by byte.
    let mut z0: usize = 0;
    while z0 < depth
        invariant
            z0 <= depth,
            destination@.len() == initial.len(),
            progress(
                DESWIZZLE,
                m,
                destination@,
                initial,
                source@,
                src_offset as int,
                dst_offset as int,
                0,
                0,
                z0 as int,
                0,
                0,
            ),
        decreases depth - z0,
    {
        proof {
            lemma_gob_start(m, 0, 0, z0 as int);
            lemma_swizzled_offset(m, 0, 0, z0 as int, 0, 0, z0 as int);
            lemma_linear_offset(m, 0, 0, z0 as int, 0, 0, z0 as int);
            assert(z0 * height <= z0 * height * row_size) by (nonlinear_arith)
                requires row_size >= 1, z0 * height >= 0;
        }
        let offset_z = gob_address_z(z0, bh, bd, slice_size);
        let linear_slice = z0 * height * row_size;
        let mut y0: usize = 0;
        while y0 < height
            invariant
                z0 < depth,
                y0 % 8 == 0,
                y0 <= height + 8,
                destination@.len() == initial.len(),
                progress(
                    DESWIZZLE,
                    m,
                    destination@,
                    initial,
                    source@,
                    src_offset as int,
                    dst_offset as int,
                    0,
                    y0 as int,
                    z0 as int,
                    0,
                    0,
                ),
            decreases height + 8 - y0,
        {
            proof {
                lemma_gob_start(m, 0, y0 as int, z0 as int);
                lemma_swizzled_offset(m, 0, y0 as int, z0 as int, 0, y0 as int, z0 as int);
                lemma_linear_offset(m, 0, y0 as int, z0 as int, 0, y0 as int, z0 as int);
                assert((y0 / block_height_in_bytes) * block_size_in_bytes <= (y0
                    / block_height_in_bytes) * block_size_in_bytes * width_in_gobs)
                    by (nonlinear_arith)
                    requires
                        width_in_gobs >= 1,
                        (y0 / block_height_in_bytes) * block_size_in_bytes >= 0,
                ;
            }
            let offset_y = gob_address_y(
                y0,
                block_height_in_bytes,
                block_size_in_bytes,
                width_in_gobs,
            );
            let linear_row = linear_slice + y0 * row_size;
            let mut x0: usize = 0;
            while x0 < row_size
                invariant
                    z0 < depth,
                    y0 < height,
                    y0 % 8 == 0,
                    x0 % 64 == 0,
                    x0 <= row_size + 64,
                    destination@.len() == initial.len(),
                    progress(
                        DESWIZZLE,
                        m,
                        destination@,
                        initial,
                        source@,
                        src_offset as int,
                        dst_offset as int,
                        x0 as int,
                        y0 as int,
                        z0 as int,
                        0,
                        0,
                    ),
                decreases row_size + 64 - x0,
            {
                proof {
                    lemma_gob_start(m, x0 as int, y0 as int, z0 as int);
                    lemma_swizzled_offset(
                        m,
                        x0 as int,
                        y0 as int,
                        z0 as int,
                        x0 as int,
                        y0 as int,
                        z0 as int,
                    );
                    lemma_linear_offset(
                        m,
                        x0 as int,
                        y0 as int,
                        z0 as int,
                        x0 as int,
                        y0 as int,
                        z0 as int,
                    );
                    lemma_gob_byte(m, x0 as int, y0 as int, z0 as int, 0, 0);
                    crate::lemma_div_ceil_bounds(m.row_size(), 64);
                    assert(x0 + 64 <= m.width_in_gobs() * 64);
                    crate::lemma_div_ceil_bounds(m.height, m.block_height * 8);
                    assert(m.height_in_blocks() * (m.block_height * 8) == m.height_in_blocks()
                        * m.block_height * 8) by (nonlinear_arith);
                    assert(y0 + 8 <= m.height_in_blocks() * m.block_height * 8);
                }
                let offset_x = gob_address_x(x0, block_size_in_bytes);
                let gob_address = offset_z + offset_y + offset_x;
                let linear_address = linear_row + x0;
                if x0 + GOB_WIDTH_IN_BYTES <= row_size && y0 + GOB_HEIGHT_IN_BYTES <= height {
                    transfer_complete_gob::<DESWIZZLE>(
                        destination,
                        source,
                        src_offset,
                        dst_offset,
                        x0,
                        y0,
                        z0,
                        row_size,
                        gob_address,
                        linear_address,
                        Ghost(m),
                        Ghost(initial),
                    );
                } else {
                    swizzle_deswizzle_gob::<DESWIZZLE>(
                        destination,
                        source,
                        src_offset,
                        dst_offset,
                        x0,
                        y0,
                        z0,
                        row_size,
                        height,
                        gob_address,
                        linear_address,
                        Ghost(m),
                        Ghost(initial),
                    );
                }
                proof {
                    lemma_progress_equiv(
                        DESWIZZLE,
                        m,
                        destination@,
                        initial,
                        source@,
                        src_offset as int,
                        dst_offset as int,
                        (x0 as int, y0 as int, z0 as int, 8, 0),
                        (x0 + 64, y0 as int, z0 as int, 0, 0),
                    );
                    assert(x0 + 64 <= m.width_in_gobs() * 64) by {
                        crate::lemma_div_ceil_bounds(m.row_size(), 64);
                    }
                }
                x0 += GOB_WIDTH_IN_BYTES;
            }
            proof {
                lemma_progress_equiv(
                    DESWIZZLE,
                    m,
                    destination@,
                    initial,
                    source@,
                    src_offset as int,
                    dst_offset as int,
                    (x0 as int, y0 as int, z0 as int, 0, 0),
                    (0, y0 + 8, z0 as int, 0, 0),
                );
                assert(y0 + 8 <= m.height_in_blocks() * m.block_height * 8) by {
                    crate::lemma_div_ceil_bounds(m.height, m.block_height * 8);
                    assert(m.height_in_blocks() * (m.block_height * 8) == m.height_in_blocks()
                        * m.block_height * 8) by (nonlinear_arith);
                }
            }
            y0 += GOB_HEIGHT_IN_BYTES;
        }
        proof {
            lemma_progress_equiv(
                DESWIZZLE,
                m,
                destination@,
                initial,
                source@,
                src_offset as int,
                dst_offset as int,
                (0, y0 as int, z0 as int, 0, 0),
                (0, 0, z0 + 1, 0, 0),
            );
        }
        z0 += 1;
    }
    proof {
        assert forall|k: int|
            0 <= k < initial.len() && !is_target(
                DESWIZZLE,
                m,
                k - dst_offset,
            ) implies destination@[k] == initial[k] by {
            if written(DESWIZZLE, m, dst_offset as int, k, 0, 0, depth as int, 0, 0) {
                let (x, y, z) = choose|x: int, y: int, z: int| #[trigger]
                    target(DESWIZZLE, m, x, y, z) == k - dst_offset && m.contains(x, y, z) && done(
                        x,
                        y,
                        z,
                        0,
                        0,
                        depth as int,
                        0,
                        0,
                    );
                assert(target(DESWIZZLE, m, x, y, z) == k - dst_offset && m.contains(x, y, z));
            }
        }
        assert forall|k: int|
            0 <= k < initial.len() && (k < dst_offset || k >= dst_offset + target_size(
                DESWIZZLE,
                m,
            )) implies destination@[k] == initial[k] by {
            if is_target(DESWIZZLE, m, k - dst_offset) {
                let (x, y, z) = choose|x: int, y: int, z: int| #[trigger]
                    target(DESWIZZLE, m, x, y, z) == k - dst_offset && m.contains(x, y, z);
                lemma_swizzled_offset(m, x, y, z, x, y, z);
                lemma_linear_offset(m, x, y, z, x, y, z);
            }
        }
    }
}

/// The shape of a mip level that a single-mip transform handles: its block depth
/// follows from its depth.
pub open spec fn mip_shape(
    width: u32,
    height: u32,
    depth: u32,
    block_height: BlockHeight,
    bytes_per_pixel: u32,
) -> Mip {
    mip_of(
        width,
        height,
        depth,
        bytes_per_pixel,
        block_height,
        block_depth_spec(depth as int) as u32,
    )
}

/// The tiled size of a mip level.
pub open spec fn swizzled_mip_size_spec(
    width: u32,
    height: u32,
    depth: u32,
    block_height: BlockHeight,
    bytes_per_pixel: u32,
) -> int {
    mip_shape(width, height, depth, block_height, bytes_per_pixel).swizzled_size()
}

/// The row-major size of a mip level.
pub open spec fn deswizzled_mip_size_spec(
    width: u32,
    height: u32,
    depth: u32,
    bytes_per_pixel: u32,
) -> int {
    width * height * depth * bytes_per_pixel
}

pub(crate) proof fn lemma_block_depth_bounds(depth: int)
    ensures
        1 <= block_depth_spec(depth) <= 16,
{
}

/// The tiled size is never smaller than the row-major size.
pub proof fn lemma_swizzled_size_covers(m: Mip)
    requires
        m.valid(),
    ensures
        m.deswizzled_size() <= m.swizzled_size(),
        m.swizzled_size() % 512 == 0,
        m.swizzled_size() >= 0,
{
    let (w, h, d, bpp, bh, bd) = (
        m.width,
        m.height,
        m.depth,
        m.bytes_per_pixel,
        m.block_height,
        m.block_depth,
    );
    crate::lemma_div_ceil_bounds(m.row_size(), 64);
    crate::lemma_div_ceil_bounds(h, bh * 8);
    crate::lemma_div_ceil_bounds(d, bd);
    let wg = m.width_in_gobs();
    let hb = m.height_in_blocks();
    let rd = round_up_spec(d, bd);
    assert(w * bpp >= 0) by (nonlinear_arith) requires w >= 0, bpp >= 0;
    assert(hb * bh * 8 >= h) by (nonlinear_arith) requires hb * (bh * 8) >= h;
    assert(m.deswizzled_size() == (w * bpp) * h * d) by (nonlinear_arith)
        requires m.deswizzled_size() == w * h * d * bpp;
    assert((w * bpp) * h * d <= (wg * 64) * (hb * bh * 8) * rd) by (nonlinear_arith)
        requires
            0 <= w * bpp <= wg * 64,
            0 <= h <= hb * bh * 8,
            0 <= d <= rd,
    ;
    assert((wg * 64) * (hb * bh * 8) * rd == wg * (hb * bh) * rd * 512) by (nonlinear_arith);
    assert((wg * (hb * bh) * rd * 512) % 512 == 0) by (nonlinear_arith);
    assert(wg * (hb * bh) * rd * 512 >= 0) by (nonlinear_arith)
        requires wg >= 0, hb >= 0, bh >= 1, rd >= 0;
}

/// The tiled size of a mip level, or `None` where it does not fit in `usize`.
pub(crate) fn checked_swizzled_mip_size(
    width: u32,
    height: u32,
    depth: u32,
    block_height: BlockHeight,
    bytes_per_pixel: u32,
) -> (r: Option<usize>)
    ensures
        r == (if swizzled_mip_size_spec(width, height, depth, block_height, bytes_per_pixel)
            <= usize::MAX {
            Some(swizzled_mip_size_spec(width, height, depth, block_height,
                bytes_per_pixel) as usize)
        } else {
            None::<usize>
        }),
{
    let ghost m = mip_shape(width, height, depth, block_height, bytes_per_pixel);
    proof {
        lemma_block_depth_bounds(depth as int);
        lemma_swizzled_size_covers(m);
        crate::lemma_div_ceil_bounds(m.height, m.block_height * 8);
        crate::lemma_div_ceil_bounds(m.depth, m.block_depth);
    }
    // Assume each block is 1 GOB wide.
    let width_in_gobs = crate::width_in_gobs(width, bytes_per_pixel);
    if width_in_gobs == 0 || height == 0 || depth == 0 {
        proof {
            assert(m.swizzled_size() == 0) by (nonlinear_arith)
                requires
                    m.swizzled_size() == m.width_in_gobs() * (m.height_in_blocks() * m.block_height)
                        * round_up_spec(m.depth, m.block_depth) * 512,
                    m.width_in_gobs() == 0 || m.height_in_blocks() == 0 || round_up_spec(
                        m.depth,
                        m.block_depth,
                    ) == 0,
            ;
        }
        return Some(0);
    }
    let height_in_blocks = crate::height_in_blocks(height, block_height) as u64;
    let block_height_gobs = block_height.value() as u64;
    proof {
        assert(1 <= height_in_blocks * block_height_gobs <= u32::MAX * 32) by (nonlinear_arith)
            requires 1 <= height_in_blocks <= u32::MAX, 1 <= block_height_gobs <= 32;
    }
    let height_in_gobs = height_in_blocks * block_height_gobs;
    let depth_in_gobs = crate::round_up(depth as u64, crate::blockdepth::block_depth(depth) as u64);
    proof {
        let (wg, hg, dg) = (width_in_gobs as int, height_in_gobs as int, depth_in_gobs as int);
        assert(dg >= 1) by (nonlinear_arith)
            requires
                dg == div_ceil(m.depth, m.block_depth) * m.block_depth,
                div_ceil(m.depth, m.block_depth) >= 1,
                m.block_depth >= 1,
        ;
        assert(wg <= wg * hg && wg * hg <= wg * hg * dg && wg * hg * dg <= wg * hg * dg * 512)
            by (nonlinear_arith)
            requires wg >= 1, hg >= 1, dg >= 1;
    }
    let num_gobs = match width_in_gobs.checked_mul(height_in_gobs) {
        Some(n) => match n.checked_mul(depth_in_gobs) {
            Some(n) => n.checked_mul(512),
            None => None,
        },
        None => None,
    };
    match num_gobs {
        Some(size) => {
            if size <= usize::MAX as u64 {
                Some(size as usize)
            } else {
                None
            }
        },
        None => None,
    }
}

/// Calculates the size in bytes of the tiled data of a mip level.
///
/// The result is a multiple of the GOB size of 512 bytes, and at least
/// [deswizzled_mip_size] for the same surface parameters.
pub fn swizzled_mip_size(
    width: u32,
    height: u32,
    depth: u32,
    block_height: BlockHeight,
    bytes_per_pixel: u32,
) -> (r: usize)
    requires
        swizzled_mip_size_spec(width, height, depth, block_height, bytes_per_pixel) <= usize::MAX,
    ensures
        r == swizzled_mip_size_spec(width, height, depth, block_height, bytes_per_pixel),
        r % 512 == 0,
        r >= deswizzled_mip_size_spec(width, height, depth, bytes_per_pixel),
{
    proof {
        lemma_swizzled_mip_size(width, height, depth, block_height, bytes_per_pixel);
    }
    match checked_swizzled_mip_size(width, height, depth, block_height, bytes_per_pixel) {
        Some(size) => size,
        None => 0,
    }
}

/// The tiled size of a mip level is a multiple of the GOB size of 512 bytes,
/// and at least its row-major size.
pub proof fn lemma_swizzled_mip_size(
    width: u32,
    height: u32,
    depth: u32,
    block_height: BlockHeight,
    bytes_per_pixel: u32,
)
    ensures
        swizzled_mip_size_spec(width, height, depth, block_height, bytes_per_pixel) % 512 == 0,
        swizzled_mip_size_spec(width, height, depth, block_height, bytes_per_pixel)
            >= deswizzled_mip_size_spec(width, height, depth, bytes_per_pixel),
{
    let m = mip_shape(width, height, depth, block_height, bytes_per_pixel);
    lemma_block_depth_bounds(depth as int);
    lemma_swizzled_size_covers(m);
}

/// The row-major size of a mip level, or `None` where it does not fit in `usize`.
pub(crate) fn checked_deswizzled_mip_size(
    width: u32,
    height: u32,
    depth: u32,
    bytes_per_pixel: u32,
) -> (r: Option<usize>)
    ensures
        r == (if deswizzled_mip_size_spec(width, height, depth, bytes_per_pixel) <= usize::MAX {
            Some(deswizzled_mip_size_spec(width, height, depth, bytes_per_pixel) as usize)
        } else {
            None::<usize>
        }),
{
    if width == 0 || height == 0 || depth == 0 || bytes_per_pixel == 0 {
        proof {
            assert(width * height * depth * bytes_per_pixel == 0) by (nonlinear_arith)
                requires width == 0 || height == 0 || depth == 0 || bytes_per_pixel == 0;
        }
        return Some(0);
    }
    proof {
        let (w, h, d, b) = (width as int, height as int, depth as int, bytes_per_pixel as int);
        assert(w <= w * h && w * h <= w * h * d && w * h * d <= w * h * d * b) by (nonlinear_arith)
            requires w >= 1, h >= 1, d >= 1, b >= 1;
    }
    match (width as u64).checked_mul(height as u64) {
        Some(n) => match n.checked_mul(depth as u64) {
            Some(n) => match n.checked_mul(bytes_per_pixel as u64) {
                Some(size) => {
                    if size <= usize::MAX as u64 {
                        Some(size as usize)
                    } else {
                        None
                    }
                },
                None => None,
            },
            None => None,
        },
        None => None,
    }
}

/// Calculates the size in bytes of the row-major data of a mip level.
pub fn deswizzled_mip_size(width: u32, height: u32, depth: u32, bytes_per_pixel: u32) -> (r: usize)
    requires
        deswizzled_mip_size_spec(width, height, depth, bytes_per_pixel) <= usize::MAX,
    ensures
        r == deswizzled_mip_size_spec(width, height, depth, bytes_per_pixel),
{
    if width == 0 || height == 0 || depth == 0 || bytes_per_pixel == 0 {
        proof {
            assert(width * height * depth * bytes_per_pixel == 0) by (nonlinear_arith)
                requires width == 0 || height == 0 || depth == 0 || bytes_per_pixel == 0;
        }
        return 0;
    }
    proof {
        let (w, h, d, b) = (width as int, height as int, depth as int, bytes_per_pixel as int);
        assert(w <= w * h && w * h <= w * h * d && w * h * d <= w * h * d * b) by (nonlinear_arith)
            requires w >= 1, h >= 1, d >= 1, b >= 1;
    }
    width as usize * height as usize * depth as usize * bytes_per_pixel as usize
}

/// Each index of the row-major layout is the offset of one byte of the mip level.
pub(crate) proof fn lemma_coordinates(m: Mip, i: int)
    requires
        m.valid(),
        0 <= i < m.deswizzled_size(),
    ensures
        m.contains(i % m.row_size(), (i / m.row_size()) % m.height, (i / m.row_size()) / m.height),
        m.linear_offset(
            i % m.row_size(),
            (i / m.row_size()) % m.height,
            (i / m.row_size()) / m.height,
        )
            == i,
{
    let (row, h, d) = (m.row_size(), m.height, m.depth);
    assert(m.deswizzled_size() == row * (h * d)) by (nonlinear_arith)
        requires
            m.deswizzled_size() == m.width * m.height * m.depth * m.bytes_per_pixel,
            row == m.width * m.bytes_per_pixel,
            h == m.height,
            d == m.depth,
    ;
    assert(row > 0 && h > 0 && d > 0) by (nonlinear_arith)
        requires 0 <= i < row * (h * d), row >= 0, h >= 0, d >= 0;
    lemma_fundamental_div_mod(i, row);
    lemma_mod_pos_bound(i, row);
    let q = i / row;
    lemma_multiply_divide_lt(i, row, h * d);
    assert(q >= 0) by (nonlinear_arith) requires q == i / row, i >= 0, row > 0;
    lemma_fundamental_div_mod(q, h);
    lemma_mod_pos_bound(q, h);
    lemma_multiply_divide_lt(q, h, d);
    let (x, y, z) = (i % row, q % h, q / h);
    assert(z >= 0) by (nonlinear_arith) requires z == q / h, q >= 0, h > 0;
    assert(i == z * h * row + y * row + x) by (nonlinear_arith)
        requires i == row * q + x, q == h * z + y;
}

/// The bytes that a tiling writes are those that some byte of the mip level is tiled to.
pub(crate) proof fn lemma_is_target_swizzled(m: Mip, j: int)
    ensures
        is_target(false, m, j) == m.is_swizzled_offset(j),
{
    if is_target(false, m, j) {
        let (x, y, z) = choose|x: int, y: int, z: int| #[trigger]
            target(false, m, x, y, z) == j && m.contains(x, y, z);
        assert(m.contains(x, y, z) && m.swizzled_offset(x, y, z) == j);
    }
    if m.is_swizzled_offset(j) {
        let (x, y, z) = choose|x: int, y: int, z: int| #[trigger]
            m.contains(x, y, z) && m.swizzled_offset(x, y, z) == j;
        assert(target(false, m, x, y, z) == j && m.contains(x, y, z));
    }
}

/// Tiles the bytes from `source` using the block linear algorithm.
///
/// Returns [SwizzleError::NotEnoughData] if `source` does not have
/// at least as many bytes as the result of [deswizzled_mip_size].
/// Uncompressed formats like R8G8B8A8 can use the width and height in pixels.
/// For compressed formats, divide the width and height by the block dimensions.
pub fn swizzle_block_linear(
    width: u32,
    height: u32,
    depth: u32,
    source: &[u8],
    block_height: BlockHeight,
    bytes_per_pixel: u32,
) -> (r: Result<Vec<u8>, SwizzleError>)
    requires
        swizzled_mip_size_spec(width, height, depth, block_height, bytes_per_pixel) <= usize::MAX,
    ensures
        r.is_ok() <==> source@.len() >= deswizzled_mip_size_spec(
            width,
            height,
            depth,
            bytes_per_pixel,
        ),
        r matches Ok(v) ==> v@ == swizzled_mip(
            source@,
            mip_shape(width, height, depth, block_height, bytes_per_pixel),
        ),
        r matches Err(e) ==> e == (SwizzleError::NotEnoughData {
            expected_size: deswizzled_mip_size_spec(width, height, depth, bytes_per_pixel) as usize,
            actual_size: source@.len() as usize,
        }),
{
    let ghost m = mip_shape(width, height, depth, block_height, bytes_per_pixel);
    proof {
        lemma_block_depth_bounds(depth as int);
        lemma_swizzled_size_covers(m);
    }
    let expected_size = deswizzled_mip_size(width, height, depth, bytes_per_pixel);
    // Validate the source length before allocating.
    if source.len() < expected_size {
        return Err(SwizzleError::NotEnoughData { actual_size: source.len(), expected_size });
    }
    let mut destination = vec![0u8; swizzled_mip_size(width, height, depth, block_height,
        bytes_per_pixel)];
    let ghost initial = destination@;
    let block_depth = crate::blockdepth::block_depth(depth);
    assert(mip_of(width, height, depth, bytes_per_pixel, block_height, block_depth) == m);
    swizzle_inner::<false>(
        width,
        height,
        depth,
        source,
        0,
        &mut destination,
        0,
        block_height,
        block_depth,
        bytes_per_pixel,
    );
    proof {
        assert forall|j: int| 0 <= j < m.swizzled_size() implies destination@[j] == swizzled_mip(
            source@,
            m,
        )[j] by {
            lemma_is_target_swizzled(m, j);
            if m.is_swizzled_offset(j) {
                let (x, y, z) = choose|x: int, y: int, z: int| #[trigger]
                    m.contains(x, y, z) && m.swizzled_offset(x, y, z) == j;
                assert(m.contains(x, y, z));
            } else {
                assert(initial[j] == 0u8);
            }
        }
        assert(destination@ =~= swizzled_mip(source@, m));
    }
    Ok(destination)
}

/// Untiles the bytes from `source` using the block linear algorithm.
///
/// Returns [SwizzleError::NotEnoughData] if `source` does not have
/// at least as many bytes as the result of [swizzled_mip_size].
/// Uncompressed formats like R8G8B8A8 can use the width and height in pixels.
/// For compressed formats, divide the width and height by the block dimensions.
pub fn deswizzle_block_linear(
    width: u32,
    height: u32,
    depth: u32,
    source: &[u8],
    block_height: BlockHeight,
    bytes_per_pixel: u32,
) -> (r: Result<Vec<u8>, SwizzleError>)
    requires
        swizzled_mip_size_spec(width, height, depth, block_height, bytes_per_pixel) <= usize::MAX,
    ensures
        r.is_ok() <==> source@.len() >= swizzled_mip_size_spec(
            width,
            height,
            depth,
            block_height,
            bytes_per_pixel,
        ),
        r matches Ok(v) ==> v@ == deswizzled_mip(
            source@,
            mip_shape(width, height, depth, block_height, bytes_per_pixel),
        ),
        r matches Err(e) ==> e == (SwizzleError::NotEnoughData {
            expected_size: swizzled_mip_size_spec(
                width,
                height,
                depth,
                block_height,
                bytes_per_pixel,
            ) as usize,
            actual_size: source@.len() as usize,
        }),
{
    let ghost m = mip_shape(width, height, depth, block_height, bytes_per_pixel);
    proof {
        lemma_block_depth_bounds(depth as int);
        lemma_swizzled_size_covers(m);
    }
    let expected_size = swizzled_mip_size(width, height, depth, block_height, bytes_per_pixel);
    // Validate the source length before allocating.
    if source.len() < expected_size {
        return Err(SwizzleError::NotEnoughData { actual_size: source.len(), expected_size });
    }
    let mut destination = vec![0u8; deswizzled_mip_size(width, height, depth, bytes_per_pixel)];
    let block_depth = crate::blockdepth::block_depth(depth);
    assert(mip_of(width, height, depth, bytes_per_pixel, block_height, block_depth) == m);
    swizzle_inner::<true>(
        width,
        height,
        depth,
        source,
        0,
        &mut destination,
        0,
        block_height,
        block_depth,
        bytes_per_pixel,
    );
    proof {
        assert forall|i: int| 0 <= i < m.deswizzled_size() implies destination@[i]
            == deswizzled_mip(source@, m)[i] by {
            lemma_coordinates(m, i);
            let (x, y, z) = (
                i % m.row_size(),
                (i / m.row_size()) % m.height,
                (i / m.row_size()) / m.height,
            );
            assert(m.contains(x, y, z));
        }
        assert(destination@ =~= deswizzled_mip(source@, m));
    }
    Ok(destination)
}

/// Untiling the tiled bytes of a mip level of any shape gives back its row-major bytes.
pub proof fn lemma_mip_round_trip(m: Mip, source: Seq<u8>)
    requires
        m.valid(),
        source.len() == m.deswizzled_size(),
    ensures
        deswizzled_mip(swizzled_mip(source, m), m) == source,
{
    let tiled = swizzled_mip(source, m);
    assert forall|i: int| 0 <= i < source.len() implies deswizzled_mip(tiled, m)[i]
        == source[i] by {
        lemma_coordinates(m, i);
        let (x, y, z) = (
            i % m.row_size(),
            (i / m.row_size()) % m.height,
            (i / m.row_size()) / m.height,
        );
        let j = m.swizzled_offset(x, y, z);
        lemma_swizzled_offset(m, x, y, z, x, y, z);
        assert(m.contains(x, y, z) && m.swizzled_offset(x, y, z) == j);
        assert(m.is_swizzled_offset(j));
        let (x2, y2, z2) = choose|x: int, y: int, z: int| #[trigger]
            m.contains(x, y, z) && m.swizzled_offset(x, y, z) == j;
        lemma_swizzled_offset(m, x2, y2, z2, x, y, z);
    }
    assert(deswizzled_mip(tiled, m) =~= source);
}

/// Untiling the tiled bytes of a mip level gives back its row-major bytes.
pub proof fn lemma_swizzle_deswizzle(
    width: u32,
    height: u32,
    depth: u32,
    block_height: BlockHeight,
    bytes_per_pixel: u32,
    source: Seq<u8>,
)
    requires
        source.len() == deswizzled_mip_size_spec(width, height, depth, bytes_per_pixel),
    ensures
        ({
            let m = mip_shape(width, height, depth, block_height, bytes_per_pixel);
            deswizzled_mip(swizzled_mip(source, m), m) == source
        }),
{
    lemma_block_depth_bounds(depth as int);
    lemma_mip_round_trip(mip_shape(width, height, depth, block_height, bytes_per_pixel), source);
}

/// Tiling the untiled bytes of a mip level gives back its tiled bytes,
/// where the padding bytes that no byte of the mip level is tiled to are zero.
pub proof fn lemma_deswizzle_swizzle(
    width: u32,
    height: u32,
    depth: u32,
    block_height: BlockHeight,
    bytes_per_pixel: u32,
    tiled: Seq<u8>,
)
    requires
        tiled.len() == swizzled_mip_size_spec(width, height, depth, block_height, bytes_per_pixel),
        forall|j: int|
            0 <= j < tiled.len() && !mip_shape(
                width,
                height,
                depth,
                block_height,
                bytes_per_pixel,
            ).is_swizzled_offset(j) ==> tiled[j] == 0,
    ensures
        ({
            let m = mip_shape(width, height, depth, block_height, bytes_per_pixel);
            swizzled_mip(deswizzled_mip(tiled, m), m) == tiled
        }),
{
    let m = mip_shape(width, height, depth, block_height, bytes_per_pixel);
    lemma_block_depth_bounds(depth as int);
    let linear = deswizzled_mip(tiled, m);
    assert forall|j: int| 0 <= j < tiled.len() implies swizzled_mip(linear, m)[j] == tiled[j] by {
        if m.is_swizzled_offset(j) {
            let (x, y, z) = choose|x: int, y: int, z: int| #[trigger]
                m.contains(x, y, z) && m.swizzled_offset(x, y, z) == j;
            let i = m.linear_offset(x, y, z);
            lemma_linear_offset(m, x, y, z, x, y, z);
            lemma_coordinates(m, i);
            let (x2, y2, z2) = (
                i % m.row_size(),
                (i / m.row_size()) % m.height,
                (i / m.row_size()) / m.height,
            );
            lemma_linear_offset(m, x2, y2, z2, x, y, z);
        }
    }
    assert(swizzled_mip(linear, m) =~= tiled);
}

} // verus!
