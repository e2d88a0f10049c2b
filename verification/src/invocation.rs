//! Which pixels an invocation of a kernel owns, and which invocations ran before it.

use vstd::prelude::*;
use crate::dispatch::{Dispatch, Stage, lemma_every_pixel_owned_once};
use crate::geometry::{Dimensions, lemma_coordinates_index, lemma_index_coordinates};

verus! {

/// Whether invocation `(ix, iy)` of a kernel with square invocations of side `side` owns
/// the pixel `p`.
pub open spec fn owns(dims: Dimensions, side: int, ix: int, iy: int, p: int) -> bool {
    &&& 0 <= p < dims.pixel_count()
    &&& dims.x_of(p) / side == ix
    &&& dims.y_of(p) / side == iy
}

/// Whether the invocation that owns `p` comes before invocation `(ix, iy)` when the
/// invocations run row by row.
pub open spec fn runs_before(dims: Dimensions, side: int, ix: int, iy: int, p: int) -> bool {
    &&& 0 <= p < dims.pixel_count()
    &&& (dims.y_of(p) / side < iy || (dims.y_of(p) / side == iy && dims.x_of(p) / side < ix))
}

/// Whether some invocation of `order` owns the pixel `p`, when each invocation owns a
/// block of two by two pixels.
pub open spec fn visited(dims: Dimensions, order: Seq<(int, int)>, p: int) -> bool {
    exists|j: int| 0 <= j < order.len() && #[trigger] owns(dims, 2, order[j].0, order[j].1, p)
}

/// Whether `pixels` lists the pixels that invocation `(ix, iy)` owns, each once and in
/// ascending order of flat index.
pub open spec fn lists_owned(
    dims: Dimensions,
    side: int,
    ix: int,
    iy: int,
    pixels: Seq<usize>,
) -> bool {
    &&& forall|k: int|
        0 <= k < pixels.len() ==> owns(dims, side, ix, iy, #[trigger] pixels[k] as int)
    &&& forall|p: int| #[trigger]
        owns(dims, side, ix, iy, p) ==> exists|k: int|
            0 <= k < pixels.len() && #[trigger] pixels[k] == p
    &&& forall|j: int, k: int| 0 <= j < k < pixels.len() ==> pixels[j] < pixels[k]
}

/// Whether `p` is one of the first `k` pixels of the list.
pub open spec fn among_first(pixels: Seq<usize>, k: int, p: int) -> bool {
    exists|j: int| 0 <= j < k && j < pixels.len() && #[trigger] pixels[j] == p
}

/// The flat index of the pixel at column `x`, row `y`.
pub fn pixel_index(dims: &Dimensions, x: u32, y: u32) -> (p: usize)
    requires
        dims.contains(x as int, y as int),
        dims.pixel_count() <= usize::MAX,
    ensures
        p == dims.index_of(x as int, y as int),
        p < dims.pixel_count(),
        dims.x_of(p as int) == x,
        dims.y_of(p as int) == y,
{
    proof {
        lemma_index_coordinates(*dims, x as int, y as int);
        assert(0 <= (y as int) * (dims.columns as int)) by (nonlinear_arith);
    }
    let row_start: u64 = y as u64 * dims.columns as u64;
    (row_start + x as u64) as usize
}

fn push_pixel(pixels: &mut Vec<usize>, dims: &Dimensions, x: u64, y: u64)
    requires
        dims.pixel_count() <= usize::MAX,
    ensures
        dims.contains(x as int, y as int) ==> final(pixels)@ == old(pixels)@.push(
            dims.index_of(x as int, y as int) as usize,
        ),
        !dims.contains(x as int, y as int) ==> final(pixels)@ == old(pixels)@,
{
    if x < dims.columns as u64 && y < dims.rows as u64 {
        let p: usize = pixel_index(dims, x as u32, y as u32);
        pixels.push(p);
    }
}

/// The pixels that invocation `(ix, iy)` of the kernel `stage` owns, in ascending order
/// of flat index.  An invocation that lies outside the image owns none.
pub fn owned_pixels(dims: &Dimensions, stage: Stage, ix: u64, iy: u64) -> (pixels: Vec<usize>)
    requires
        dims.pixel_count() <= usize::MAX,
    ensures
        pixels.len() <= 4,
        lists_owned(*dims, stage.pixels_per_invocation(), ix as int, iy as int, pixels@),
{
    let side: u32 = stage.invocation_side();
    let mut pixels: Vec<usize> = Vec::new();
    if ix > u32::MAX as u64 || iy > u32::MAX as u64 {
        proof {
            assert forall|p: int| #[trigger]
                owns(*dims, side as int, ix as int, iy as int, p) implies false by {
                lemma_coordinates_index(*dims, p);
                lemma_owner_range(dims.x_of(p), side as int);
                lemma_owner_range(dims.y_of(p), side as int);
            }
        }
        return pixels;
    }
    assert(ix * side <= 2 * 0xffff_ffff && iy * side <= 2 * 0xffff_ffff) by (nonlinear_arith)
        requires
            ix <= 0xffff_ffff,
            iy <= 0xffff_ffff,
            side <= 2,
    ;
    let x0: u64 = ix * side as u64;
    let y0: u64 = iy * side as u64;
    push_pixel(&mut pixels, dims, x0, y0);
    if side == 2 {
        push_pixel(&mut pixels, dims, x0 + 1, y0);
        push_pixel(&mut pixels, dims, x0, y0 + 1);
        push_pixel(&mut pixels, dims, x0 + 1, y0 + 1);
    }
    proof {
        let w = dims.columns as int;
        let s = side as int;
        let right = s == 2 && dims.contains(x0 + 1, y0 as int);
        let below = s == 2 && dims.contains(x0 as int, y0 + 1);
        assert((y0 + 1) * w == y0 * w + w) by (nonlinear_arith);
        if dims.contains(x0 as int, y0 as int) {
            lemma_index_coordinates(*dims, x0 as int, y0 as int);
            lemma_owner_of(x0 as int, s, ix as int);
            lemma_owner_of(y0 as int, s, iy as int);
        }
        if right {
            lemma_index_coordinates(*dims, x0 + 1, y0 as int);
            lemma_owner_of(x0 + 1, s, ix as int);
        }
        if below {
            lemma_index_coordinates(*dims, x0 as int, y0 + 1);
            lemma_owner_of(y0 + 1, s, iy as int);
        }
        if right && below {
            lemma_index_coordinates(*dims, x0 + 1, y0 + 1);
        }
        let i00 = dims.index_of(x0 as int, y0 as int) as usize;
        let i10 = dims.index_of(x0 + 1, y0 as int) as usize;
        let i01 = dims.index_of(x0 as int, y0 + 1) as usize;
        let i11 = dims.index_of(x0 + 1, y0 + 1) as usize;
        if !dims.contains(x0 as int, y0 as int) {
            assert(pixels@ =~= Seq::<usize>::empty());
        } else if right && below {
            assert(pixels@ =~= seq![i00, i10, i01, i11]);
        } else if right {
            assert(pixels@ =~= seq![i00, i10]);
        } else if below {
            assert(pixels@ =~= seq![i00, i01]);
        } else {
            assert(pixels@ =~= seq![i00]);
        }
        assert forall|p: int| #[trigger] owns(*dims, s, ix as int, iy as int, p) implies exists|
            k: int,
        |
            0 <= k < pixels.len() && #[trigger] pixels[k] == p by {
            lemma_coordinates_index(*dims, p);
            let x = dims.x_of(p);
            let y = dims.y_of(p);
            lemma_owner_range(x, s);
            lemma_owner_range(y, s);
            assert(x0 <= x < x0 + s);
            assert(y0 <= y < y0 + s);
            assert(dims.contains(x0 as int, y0 as int));
            if x == x0 && y == y0 {
                assert(pixels[0] == p);
            } else if x == x0 + 1 && y == y0 {
                assert(pixels[1] == p);
            } else if x == x0 && y == y0 + 1 {
                if right {
                    assert(pixels[2] == p);
                } else {
                    assert(pixels[1] == p);
                }
            } else {
                assert(x == x0 + 1 && y == y0 + 1);
                assert(pixels[3] == p);
            }
        }
    }
    pixels
}

proof fn lemma_owner_range(x: int, side: int)
    requires
        0 <= x,
        side > 0,
    ensures
        0 <= x / side <= x,
        (x / side) * side <= x < (x / side) * side + side,
{
    vstd::arithmetic::div_mod::lemma_fundamental_div_mod(x, side);
    vstd::arithmetic::div_mod::lemma_mod_bound(x, side);
    vstd::arithmetic::div_mod::lemma_div_pos_is_pos(x, side);
    let q = x / side;
    assert(side * q == q * side) by (nonlinear_arith);
    assert(q <= x) by (nonlinear_arith)
        requires
            q * side <= x,
            side >= 1,
            q >= 0,
    ;
}

proof fn lemma_owner_of(x: int, side: int, ix: int)
    requires
        side > 0,
        ix * side <= x < ix * side + side,
    ensures
        x / side == ix,
{
    vstd::arithmetic::div_mod::lemma_fundamental_div_mod_converse(x, side, ix, x - ix * side);
}

/// One more pixel of the list is taken with each step.
pub proof fn lemma_among_first_step(pixels: Seq<usize>, k: int, p: int)
    requires
        0 <= k < pixels.len(),
    ensures
        among_first(pixels, k + 1, p) <==> among_first(pixels, k, p) || pixels[k] == p,
{
    if among_first(pixels, k + 1, p) {
        let j = choose|j: int| 0 <= j < k + 1 && j < pixels.len() && #[trigger] pixels[j] == p;
        if j < k {
            assert(among_first(pixels, k, p));
        }
    }
    if among_first(pixels, k, p) {
        let j = choose|j: int| 0 <= j < k && j < pixels.len() && #[trigger] pixels[j] == p;
        assert(0 <= j < k + 1 && pixels[j] == p);
    }
    if pixels[k] == p {
        assert(0 <= k < k + 1 && pixels[k] == p);
    }
}

/// The pixel that comes next in the list is owned and has not been taken before.
pub proof fn lemma_next_is_new(
    dims: Dimensions,
    side: int,
    ix: int,
    iy: int,
    pixels: Seq<usize>,
    k: int,
)
    requires
        lists_owned(dims, side, ix, iy, pixels),
        0 <= k < pixels.len(),
    ensures
        owns(dims, side, ix, iy, pixels[k] as int),
        !among_first(pixels, k, pixels[k] as int),
{
    if among_first(pixels, k, pixels[k] as int) {
        let j = choose|j: int| 0 <= j < k && j < pixels.len() && #[trigger] pixels[j] == pixels[k];
        assert(pixels[j] < pixels[k]);
    }
}

/// When the list is at its end, the pixels taken are the pixels owned.
pub proof fn lemma_all_taken(
    dims: Dimensions,
    side: int,
    ix: int,
    iy: int,
    pixels: Seq<usize>,
    p: int,
)
    requires
        lists_owned(dims, side, ix, iy, pixels),
    ensures
        among_first(pixels, pixels.len() as int, p) <==> owns(dims, side, ix, iy, p),
{
    if owns(dims, side, ix, iy, p) {
        let k = choose|k: int| 0 <= k < pixels.len() && #[trigger] pixels[k] == p;
        assert(among_first(pixels, pixels.len() as int, p));
    }
    if among_first(pixels, pixels.len() as int, p) {
        let n = pixels.len() as int;
        let j = choose|j: int| 0 <= j < n && j < pixels.len() && #[trigger] pixels[j] == p;
        assert(owns(dims, side, ix, iy, pixels[j] as int));
    }
}

/// The invocation that owns a pixel of the image is the one at the pixel's coordinates
/// divided by the side.
pub proof fn lemma_owner_exists(dims: Dimensions, side: int, p: int)
    requires
        side > 0,
        0 <= p < dims.pixel_count(),
    ensures
        owns(dims, side, dims.x_of(p) / side, dims.y_of(p) / side, p),
        0 <= dims.x_of(p) / side,
        0 <= dims.y_of(p) / side,
        (dims.x_of(p) / side) * side < dims.columns,
        (dims.y_of(p) / side) * side < dims.rows,
{
    lemma_coordinates_index(dims, p);
    lemma_owner_range(dims.x_of(p), side);
    lemma_owner_range(dims.y_of(p), side);
}

/// The planned grid of a kernel reaches the invocation that owns any pixel of the image.
pub proof fn lemma_grid_reaches(stage: Stage, dims: Dimensions, p: int)
    requires
        0 <= p < dims.pixel_count(),
    ensures
        0 <= dims.x_of(p) / stage.pixels_per_invocation() < Dispatch::planned(
            stage,
            dims,
        ).invocations_x(),
        0 <= dims.y_of(p) / stage.pixels_per_invocation() < Dispatch::planned(
            stage,
            dims,
        ).invocations_y(),
{
    lemma_coordinates_index(dims, p);
    lemma_every_pixel_owned_once(stage, dims, dims.x_of(p), dims.y_of(p));
}

/// Once a row of invocations has run to the end of the grid, the next row begins.
pub proof fn lemma_row_finished(stage: Stage, dims: Dimensions, iy: int, p: int)
    ensures
        runs_before(
            dims,
            stage.pixels_per_invocation(),
            Dispatch::planned(stage, dims).invocations_x(),
            iy,
            p,
        ) == runs_before(dims, stage.pixels_per_invocation(), 0, iy + 1, p),
{
    if 0 <= p < dims.pixel_count() {
        lemma_grid_reaches(stage, dims, p);
    }
}

/// Once every row of the grid has run, every pixel of the image has been visited.
pub proof fn lemma_grid_finished(stage: Stage, dims: Dimensions, p: int)
    requires
        0 <= p < dims.pixel_count(),
    ensures
        runs_before(
            dims,
            stage.pixels_per_invocation(),
            0,
            Dispatch::planned(stage, dims).invocations_y(),
            p,
        ),
{
    lemma_grid_reaches(stage, dims, p);
}

} // verus!
