//! The visualization pass: every pixel of the output raster takes the color of its label.

use vstd::prelude::*;
use crate::dispatch::{Dispatch, Stage};
use crate::geometry::{Dimensions, lemma_coordinates_index};
use crate::invocation::{
    lemma_grid_finished, lemma_owner_exists, lemma_row_finished, owned_pixels, owns, runs_before,
};
use crate::texture::Texture;

verus! {

/// Multiplier of the hash that spreads neighboring labels over the color space.
pub const HASH_MULTIPLIER: u32 = 2654435761;

/// The alpha of every texel that the pass writes: fully opaque.
pub const OPAQUE: u8 = 255;

/// A color with four 8-bit channels.
#[derive(Clone, Copy, Debug, PartialEq, Eq, Structural)]
pub struct Rgba {
    pub red: u8,
    pub green: u8,
    pub blue: u8,
    pub alpha: u8,
}

/// The label multiplied by the hash multiplier, modulo 2^32.
pub open spec fn label_hash(label: u32) -> int {
    (label as int * HASH_MULTIPLIER as int) % 0x1_0000_0000
}

/// The color of a label: the three high bytes of the label's hash, fully opaque.  The
/// sentinel comes out black.
pub open spec fn color_of(label: u32) -> Rgba {
    Rgba {
        red: (label_hash(label) / 0x100_0000) as u8,
        green: ((label_hash(label) / 0x1_0000) % 0x100) as u8,
        blue: ((label_hash(label) / 0x100) % 0x100) as u8,
        alpha: OPAQUE,
    }
}

/// Channel `c` of a color, counted red, green, blue, alpha.
pub open spec fn channel(color: Rgba, c: int) -> u8 {
    if c == 0 {
        color.red
    } else if c == 1 {
        color.green
    } else if c == 2 {
        color.blue
    } else {
        color.alpha
    }
}

/// The texels of the visualization of a label buffer.
pub open spec fn visualization(labels: Seq<u32>) -> Seq<u8> {
    Seq::new(4 * labels.len(), |i: int| channel(color_of(labels[i / 4]), i % 4))
}

/// The color of a label.
pub fn label_color(label: u32) -> (color: Rgba)
    ensures
        color == color_of(label),
{
    let hash: u32 = label.wrapping_mul(HASH_MULTIPLIER);
    assert(hash == label_hash(label));
    Rgba {
        red: (hash / 0x100_0000) as u8,
        green: ((hash / 0x1_0000) % 0x100) as u8,
        blue: ((hash / 0x100) % 0x100) as u8,
        alpha: OPAQUE,
    }
}

/// One invocation of the visualization kernel: writes the color of the label of pixel
/// `(ix, iy)` into the pixel's texel.  No other texel changes.
pub fn label_to_rgba_invocation(labels: &Vec<u32>, output: &mut Texture, ix: u64, iy: u64)
    requires
        old(output).well_formed(),
        labels.len() == old(output).dims().pixel_count(),
    ensures
        final(output).width == old(output).width,
        final(output).height == old(output).height,
        final(output).well_formed(),
        forall|i: int|
            0 <= i < old(output).texels.len() ==> #[trigger] final(output).texels@[i] == (if owns(
                old(output).dims(),
                1,
                ix as int,
                iy as int,
                i / 4,
            ) {
                visualization(labels@)[i]
            } else {
                old(output).texels@[i]
            }),
{
    let dims: Dimensions = output.extent();
    let ghost before = output.texels@;
    let pixels: Vec<usize> = owned_pixels(&dims, Stage::LabelToRgba, ix, iy);
    if pixels.len() == 0 {
        proof {
            assert forall|i: int| 0 <= i < before.len() implies !owns(
                dims,
                1,
                ix as int,
                iy as int,
                #[trigger] (i / 4),
            ) by {
                if owns(dims, 1, ix as int, iy as int, i / 4) {
                    let j = choose|j: int| 0 <= j < pixels.len() && #[trigger] pixels[j] == i / 4;
                }
            }
        }
        return ;
    }
    let p: usize = pixels[0];
    assert(owns(dims, 1, ix as int, iy as int, pixels[0] as int));
    let color: Rgba = label_color(labels[p]);
    let base: usize = 4 * p;
    output.texels.set(base, color.red);
    output.texels.set(base + 1, color.green);
    output.texels.set(base + 2, color.blue);
    output.texels.set(base + 3, color.alpha);
    proof {
        assert forall|i: int| 0 <= i < before.len() implies #[trigger] output.texels@[i] == (
        if owns(dims, 1, ix as int, iy as int, i / 4) {
            visualization(labels@)[i]
        } else {
            before[i]
        }) by {
            if owns(dims, 1, ix as int, iy as int, i / 4) {
                lemma_one_pixel(dims, ix as int, iy as int, p as int, i / 4);
            }
        }
    }
}

proof fn lemma_one_pixel(dims: Dimensions, ix: int, iy: int, p: int, q: int)
    requires
        owns(dims, 1, ix, iy, p),
        owns(dims, 1, ix, iy, q),
    ensures
        p == q,
{
    lemma_coordinates_index(dims, p);
    lemma_coordinates_index(dims, q);
}

/// The visualization pass.  It runs the kernel once for every pixel of the planned grid
/// and leaves in `output` the color of every label.
pub fn label_to_rgba(labels: &Vec<u32>, output: &mut Texture)
    requires
        old(output).well_formed(),
        labels.len() == old(output).dims().pixel_count(),
    ensures
        final(output).width == old(output).width,
        final(output).height == old(output).height,
        final(output).texels@ == visualization(labels@),
{
    let dims: Dimensions = output.extent();
    let ghost before = output.texels@;
    let grid: Dispatch = Dispatch::for_stage(Stage::LabelToRgba, &dims);
    let across: u64 = grid.across();
    let down: u64 = grid.down();
    let mut iy: u64 = 0;
    proof {
        assert forall|p: int| 0 <= p < dims.pixel_count() implies !runs_before(
            dims,
            1,
            0,
            0,
            p,
        ) by {
            lemma_owner_exists(dims, 1, p);
        }
    }
    while iy < down
        invariant
            iy <= down,
            across == Dispatch::planned(Stage::LabelToRgba, dims).invocations_x(),
            down == Dispatch::planned(Stage::LabelToRgba, dims).invocations_y(),
            output.well_formed(),
            output.dims() == dims,
            labels.len() == dims.pixel_count(),
            before.len() == 4 * dims.pixel_count(),
            forall|i: int|
                0 <= i < before.len() ==> #[trigger] output.texels@[i] == (if runs_before(
                    dims,
                    1,
                    0,
                    iy as int,
                    i / 4,
                ) {
                    visualization(labels@)[i]
                } else {
                    before[i]
                }),
        decreases down - iy,
    {
        let mut ix: u64 = 0;
        while ix < across
            invariant
                ix <= across,
                iy < down,
                across == Dispatch::planned(Stage::LabelToRgba, dims).invocations_x(),
                output.well_formed(),
                output.dims() == dims,
                labels.len() == dims.pixel_count(),
                before.len() == 4 * dims.pixel_count(),
                forall|i: int|
                    0 <= i < before.len() ==> #[trigger] output.texels@[i] == (if runs_before(
                        dims,
                        1,
                        ix as int,
                        iy as int,
                        i / 4,
                    ) {
                        visualization(labels@)[i]
                    } else {
                        before[i]
                    }),
            decreases across - ix,
        {
            let ghost current = output.texels@;
            label_to_rgba_invocation(labels, output, ix, iy);
            proof {
                assert forall|i: int| 0 <= i < before.len() implies #[trigger] output.texels@[i]
                    == (if runs_before(dims, 1, ix + 1, iy as int, i / 4) {
                    visualization(labels@)[i]
                } else {
                    before[i]
                }) by {
                    assert(current[i] == (if runs_before(dims, 1, ix as int, iy as int, i / 4) {
                        visualization(labels@)[i]
                    } else {
                        before[i]
                    }));
                }
            }
            ix = ix + 1;
        }
        proof {
            assert forall|i: int| 0 <= i < before.len() implies #[trigger] output.texels@[i] == (
            if runs_before(dims, 1, 0, iy + 1, i / 4) {
                visualization(labels@)[i]
            } else {
                before[i]
            }) by {
                lemma_row_finished(Stage::LabelToRgba, dims, iy as int, i / 4);
            }
        }
        iy = iy + 1;
    }
    proof {
        assert forall|i: int| 0 <= i < before.len() implies output.texels@[i] == visualization(
            labels@,
        )[i] by {
            lemma_grid_finished(Stage::LabelToRgba, dims, i / 4);
        }
        assert(output.texels@ =~= visualization(labels@));
    }
}

} // verus!
