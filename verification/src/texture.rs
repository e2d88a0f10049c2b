//! A host-side raster with four 8-bit channels per pixel.

use vstd::prelude::*;
use crate::geometry::Dimensions;

verus! {

/// Channels per texel: red, green, blue, alpha.
pub const CHANNELS: usize = 4;

/// A raster of `width` by `height` texels, row by row, four bytes each.  The first
/// channel of a texel tells foreground (nonzero) from background (zero).
#[derive(Clone, Debug)]
pub struct Texture {
    pub width: u32,
    pub height: u32,
    pub texels: Vec<u8>,
}

impl Texture {
    /// The extent of the raster.
    pub open spec fn dims(&self) -> Dimensions {
        Dimensions { columns: self.width, rows: self.height }
    }

    /// Whether the raster holds exactly four bytes for each of its pixels.
    pub open spec fn well_formed(&self) -> bool {
        self.texels.len() == 4 * self.dims().pixel_count()
    }

    /// The foreground mask: one flag per pixel, set where the first channel is nonzero.
    pub open spec fn foreground(&self) -> Seq<bool> {
        Seq::new(self.dims().pixel_count(), |p: int| self.texels@[4 * p] != 0)
    }

    /// The extent of the raster.
    pub fn extent(&self) -> (dims: Dimensions)
        ensures
            dims == self.dims(),
    {
        Dimensions { columns: self.width, rows: self.height }
    }

    /// Whether `texels` has the length that the extent asks for.
    pub fn is_well_formed(&self) -> (ok: bool)
        ensures
            ok == self.well_formed(),
    {
        let pixels: u64 = self.extent().num_pixels();
        let length: u64 = self.texels.len() as u64;
        length % 4 == 0 && length / 4 == pixels
    }

    /// Whether pixel `p` belongs to the foreground.
    pub fn is_foreground(&self, p: usize) -> (set: bool)
        requires
            self.well_formed(),
            p < self.dims().pixel_count(),
        ensures
            set == self.foreground()[p as int],
    {
        self.texels[CHANNELS * p] != 0
    }
}

} // verus!
