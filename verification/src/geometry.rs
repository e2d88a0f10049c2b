//! The extent of an image and the row-major indexing of its pixels.

use vstd::prelude::*;

verus! {

/// Side length, in pixels, of the square block that one invocation of a forest pass owns.
pub const BLOCK_SIDE: u32 = 2;

/// Invocations per workgroup along each axis.
pub const WORKGROUP_SIDE: u32 = 8;

/// Bytes occupied by one label slot.
pub const SLOT_BYTES: u64 = 4;

/// The extent of an image: `columns` pixels per row, `rows` rows.
#[derive(Clone, Copy, Debug, PartialEq, Eq, Structural)]
pub struct Dimensions {
    pub columns: u32,
    pub rows: u32,
}

impl Dimensions {
    /// Number of pixels of the image.
    pub open spec fn pixel_count(self) -> nat {
        (self.columns as nat) * (self.rows as nat)
    }

    /// Whether the coordinate pair names a pixel of the image.
    pub open spec fn contains(self, x: int, y: int) -> bool {
        0 <= x < self.columns && 0 <= y < self.rows
    }

    /// Row-major flat index of the pixel at column `x`, row `y`.
    pub open spec fn index_of(self, x: int, y: int) -> int {
        y * self.columns + x
    }

    /// Column of the pixel with flat index `p`.
    pub open spec fn x_of(self, p: int) -> int {
        p % (self.columns as int)
    }

    /// Row of the pixel with flat index `p`.
    pub open spec fn y_of(self, p: int) -> int {
        p / (self.columns as int)
    }

    /// The extent with `columns` pixels per row and `rows` rows.
    pub fn new(columns: u32, rows: u32) -> (dims: Dimensions)
        ensures
            dims.columns == columns,
            dims.rows == rows,
    {
        Dimensions { columns, rows }
    }

    /// Number of pixels, which always fits 64 bits.
    pub fn num_pixels(&self) -> (n: u64)
        ensures
            n == self.pixel_count(),
    {
        let w: u64 = self.columns as u64;
        let h: u64 = self.rows as u64;
        assert(w * h <= 0xffff_ffff * 0xffff_ffff) by (nonlinear_arith)
            requires
                w <= 0xffff_ffff,
                h <= 0xffff_ffff,
        ;
        w * h
    }

    /// Size in bytes of a buffer with one 32-bit slot per pixel, or `None` when that
    /// size cannot be represented in 64 bits.
    pub fn num_bytes_storage(&self) -> (bytes: Option<u64>)
        ensures
            bytes is Some <==> self.pixel_count() * 4 <= u64::MAX,
            bytes is Some ==> bytes->0 == self.pixel_count() * 4,
    {
        self.num_pixels().checked_mul(SLOT_BYTES)
    }
}

/// A coordinate pair and its flat index determine each other.
pub proof fn lemma_index_coordinates(dims: Dimensions, x: int, y: int)
    requires
        dims.contains(x, y),
    ensures
        0 <= dims.index_of(x, y) < dims.pixel_count(),
        dims.x_of(dims.index_of(x, y)) == x,
        dims.y_of(dims.index_of(x, y)) == y,
{
    let w = dims.columns as int;
    let h = dims.rows as int;
    vstd::arithmetic::div_mod::lemma_fundamental_div_mod_converse(y * w + x, w, y, x);
    assert(y * w + x < w * h) by (nonlinear_arith)
        requires
            0 <= x < w,
            0 <= y < h,
    ;
    assert(0 <= y * w + x) by (nonlinear_arith)
        requires
            0 <= x < w,
            0 <= y < h,
    ;
}

/// Every flat index below the pixel count splits into a coordinate pair of the image.
pub proof fn lemma_coordinates_index(dims: Dimensions, p: int)
    requires
        0 <= p < dims.pixel_count(),
    ensures
        dims.contains(dims.x_of(p), dims.y_of(p)),
        dims.index_of(dims.x_of(p), dims.y_of(p)) == p,
{
    let w = dims.columns as int;
    let h = dims.rows as int;
    assert(w > 0) by (nonlinear_arith)
        requires
            0 <= p < w * h,
            0 <= w,
    ;
    vstd::arithmetic::div_mod::lemma_fundamental_div_mod(p, w);
    vstd::arithmetic::div_mod::lemma_mod_bound(p, w);
    vstd::arithmetic::div_mod::lemma_div_pos_is_pos(p, w);
    assert(p / w < h) by {
        if p / w >= h {
            assert(w * (p / w) >= w * h) by (nonlinear_arith)
                requires
                    p / w >= h,
                    w > 0,
            ;
        }
    }
    assert((p / w) * w == w * (p / w)) by (nonlinear_arith);
}

} // verus!
