//! The broadcast pass: every labeled pixel of a block takes the label of the block.
//!
//! The label of a block is the slot of its first labeled pixel in row-major order.  After
//! a full merge and flattening all labeled pixels of a block already agree, and the pass
//! changes nothing; it is what makes the output per pixel whatever the passes before it
//! resolved per block.

use vstd::prelude::*;
use crate::connectivity::{adjacent, touches};
use crate::dispatch::{Dispatch, Stage};
use crate::forest::{is_flat, is_forest, slot_flat};
use crate::geometry::{Dimensions, lemma_coordinates_index, lemma_index_coordinates};
use crate::invocation::{
    among_first, lemma_all_taken, lemma_among_first_step, lemma_grid_finished, lemma_next_is_new,
    lemma_owner_exists, lemma_row_finished, lists_owned, owned_pixels, owns, pixel_index,
    runs_before,
};
use crate::merge::{neighbors_joined, same_tree};

verus! {

/// The slot of the pixel at `(x, y)`, or the sentinel where the image has no such pixel.
pub open spec fn slot_at(dims: Dimensions, slots: Seq<u32>, x: int, y: int) -> u32 {
    if dims.contains(x, y) {
        slots[dims.index_of(x, y)]
    } else {
        0
    }
}

/// The label of block `(ix, iy)`: the slot of its first labeled pixel in row-major order,
/// or the sentinel for a block without labeled pixels.
pub open spec fn block_label(dims: Dimensions, slots: Seq<u32>, ix: int, iy: int) -> u32 {
    if slot_at(dims, slots, 2 * ix, 2 * iy) != 0 {
        slot_at(dims, slots, 2 * ix, 2 * iy)
    } else if slot_at(dims, slots, 2 * ix + 1, 2 * iy) != 0 {
        slot_at(dims, slots, 2 * ix + 1, 2 * iy)
    } else if slot_at(dims, slots, 2 * ix, 2 * iy + 1) != 0 {
        slot_at(dims, slots, 2 * ix, 2 * iy + 1)
    } else {
        slot_at(dims, slots, 2 * ix + 1, 2 * iy + 1)
    }
}

/// The buffer in which every labeled pixel holds the label of its block.
pub open spec fn with_block_labels(dims: Dimensions, slots: Seq<u32>) -> Seq<u32> {
    Seq::new(
        slots.len(),
        |p: int|
            if slots[p] == 0 {
                0u32
            } else {
                block_label(dims, slots, dims.x_of(p) / 2, dims.y_of(p) / 2)
            },
    )
}

/// On a flat forest in which neighbors are joined, the broadcast changes nothing: the
/// labeled pixels of a block touch one another, so they already hold the same label.
pub proof fn lemma_resolved_keeps_block_labels(dims: Dimensions, slots: Seq<u32>)
    requires
        slots.len() == dims.pixel_count(),
        is_forest(slots),
        is_flat(slots),
        neighbors_joined(dims, slots),
    ensures
        with_block_labels(dims, slots) == slots,
{
    assert forall|p: int| 0 <= p < slots.len() implies with_block_labels(dims, slots)[p]
        == slots[p] by {
        if slots[p] != 0 {
            let ix = dims.x_of(p) / 2;
            let iy = dims.y_of(p) / 2;
            lemma_owner_exists(dims, 2, p);
            lemma_coordinates_index(dims, p);
            let x = dims.x_of(p);
            let y = dims.y_of(p);
            assert(2 * ix <= x <= 2 * ix + 1);
            assert(2 * iy <= y <= 2 * iy + 1);
            assert(slot_at(dims, slots, x, y) == slots[p]);
            let mx: int = if slot_at(dims, slots, 2 * ix, 2 * iy) != 0 || (slot_at(
                dims,
                slots,
                2 * ix + 1,
                2 * iy,
            ) == 0 && slot_at(dims, slots, 2 * ix, 2 * iy + 1) != 0) {
                2 * ix
            } else {
                2 * ix + 1
            };
            let my: int = if slot_at(dims, slots, 2 * ix, 2 * iy) != 0 || slot_at(
                dims,
                slots,
                2 * ix + 1,
                2 * iy,
            ) != 0 {
                2 * iy
            } else {
                2 * iy + 1
            };
            assert(block_label(dims, slots, ix, iy) == slot_at(dims, slots, mx, my));
            assert(slot_at(dims, slots, mx, my) != 0);
            assert(dims.contains(mx, my));
            let m = dims.index_of(mx, my);
            lemma_index_coordinates(dims, mx, my);
            assert(touches(dims, p, m));
            assert(slot_flat(slots, p));
            assert(slot_flat(slots, m));
            if m != p {
                assert(adjacent(dims, p, m));
                assert(same_tree(slots, p, m));
            }
        }
    }
    assert(with_block_labels(dims, slots) =~= slots);
}

fn read_slot(labels: &Vec<u32>, dims: &Dimensions, x: u64, y: u64) -> (slot: u32)
    requires
        labels.len() == dims.pixel_count(),
    ensures
        slot == slot_at(*dims, labels@, x as int, y as int),
{
    if x < dims.columns as u64 && y < dims.rows as u64 {
        let p: usize = pixel_index(dims, x as u32, y as u32);
        labels[p]
    } else {
        0
    }
}

/// One invocation of the broadcast kernel: every labeled pixel of block `(ix, iy)` takes
/// the block's label.  No other slot changes.
pub fn final_labeling_invocation(labels: &mut Vec<u32>, dims: &Dimensions, ix: u64, iy: u64)
    requires
        old(labels).len() == dims.pixel_count(),
    ensures
        final(labels).len() == old(labels).len(),
        forall|p: int|
            0 <= p < old(labels).len() ==> #[trigger] final(labels)@[p] == (if owns(
                *dims,
                2,
                ix as int,
                iy as int,
                p,
            ) {
                with_block_labels(*dims, old(labels)@)[p]
            } else {
                old(labels)@[p]
            }),
{
    let ghost before = labels@;
    if ix >= dims.columns as u64 || iy >= dims.rows as u64 {
        proof {
            assert forall|p: int| 0 <= p < before.len() implies !#[trigger] owns(
                *dims,
                2,
                ix as int,
                iy as int,
                p,
            ) by {
                lemma_owner_exists(*dims, 2, p);
            }
        }
        return ;
    }
    let x0: u64 = 2 * ix;
    let y0: u64 = 2 * iy;
    let first: u32 = read_slot(labels, dims, x0, y0);
    let second: u32 = read_slot(labels, dims, x0 + 1, y0);
    let third: u32 = read_slot(labels, dims, x0, y0 + 1);
    let fourth: u32 = read_slot(labels, dims, x0 + 1, y0 + 1);
    let label: u32 = if first != 0 {
        first
    } else if second != 0 {
        second
    } else if third != 0 {
        third
    } else {
        fourth
    };
    assert(label == block_label(*dims, before, ix as int, iy as int));
    let pixels: Vec<usize> = owned_pixels(dims, Stage::FinalLabeling, ix, iy);
    let mut k: usize = 0;
    while k < pixels.len()
        invariant
            k <= pixels.len(),
            lists_owned(*dims, 2, ix as int, iy as int, pixels@),
            labels.len() == before.len(),
            before.len() == dims.pixel_count(),
            label == block_label(*dims, before, ix as int, iy as int),
            forall|p: int|
                0 <= p < before.len() ==> #[trigger] labels@[p] == (if among_first(
                    pixels@,
                    k as int,
                    p,
                ) {
                    with_block_labels(*dims, before)[p]
                } else {
                    before[p]
                }),
        decreases pixels.len() - k,
    {
        let p: usize = pixels[k];
        proof {
            lemma_next_is_new(*dims, 2, ix as int, iy as int, pixels@, k as int);
            assert(labels@[p as int] == before[p as int]);
        }
        if labels[p] != 0 {
            labels.set(p, label);
        }
        proof {
            assert forall|t: int| 0 <= t < before.len() implies #[trigger] labels@[t] == (
            if among_first(pixels@, k + 1, t) {
                with_block_labels(*dims, before)[t]
            } else {
                before[t]
            }) by {
                lemma_among_first_step(pixels@, k as int, t);
            }
        }
        k = k + 1;
    }
    proof {
        assert forall|p: int| 0 <= p < before.len() implies #[trigger] labels@[p] == (if owns(
            *dims,
            2,
            ix as int,
            iy as int,
            p,
        ) {
            with_block_labels(*dims, before)[p]
        } else {
            before[p]
        }) by {
            lemma_all_taken(*dims, 2, ix as int, iy as int, pixels@, p);
        }
    }
}

/// The broadcast pass.  It runs the kernel once for every block of the planned grid and
/// leaves every labeled pixel with the label of its block; the sentinel stays where it was.
pub fn final_labeling(labels: &mut Vec<u32>, dims: &Dimensions)
    requires
        old(labels).len() == dims.pixel_count(),
    ensures
        final(labels)@ == with_block_labels(*dims, old(labels)@),
{
    let ghost before = labels@;
    let grid: Dispatch = Dispatch::for_stage(Stage::FinalLabeling, dims);
    let across: u64 = grid.across();
    let down: u64 = grid.down();
    let mut iy: u64 = 0;
    proof {
        assert forall|p: int| 0 <= p < before.len() implies !runs_before(*dims, 2, 0, 0, p) by {
            lemma_owner_exists(*dims, 2, p);
        }
    }
    while iy < down
        invariant
            iy <= down,
            across == Dispatch::planned(Stage::FinalLabeling, *dims).invocations_x(),
            down == Dispatch::planned(Stage::FinalLabeling, *dims).invocations_y(),
            labels.len() == before.len(),
            before.len() == dims.pixel_count(),
            forall|p: int|
                0 <= p < before.len() ==> #[trigger] labels@[p] == (if runs_before(
                    *dims,
                    2,
                    0,
                    iy as int,
                    p,
                ) {
                    with_block_labels(*dims, before)[p]
                } else {
                    before[p]
                }),
        decreases down - iy,
    {
        let mut ix: u64 = 0;
        while ix < across
            invariant
                ix <= across,
                iy < down,
                across == Dispatch::planned(Stage::FinalLabeling, *dims).invocations_x(),
                labels.len() == before.len(),
                before.len() == dims.pixel_count(),
                forall|p: int|
                    0 <= p < before.len() ==> #[trigger] labels@[p] == (if runs_before(
                        *dims,
                        2,
                        ix as int,
                        iy as int,
                        p,
                    ) {
                        with_block_labels(*dims, before)[p]
                    } else {
                        before[p]
                    }),
            decreases across - ix,
        {
            let ghost current = labels@;
            final_labeling_invocation(labels, dims, ix, iy);
            proof {
                assert forall|p: int| 0 <= p < before.len() implies #[trigger] labels@[p] == (
                if runs_before(*dims, 2, ix + 1, iy as int, p) {
                    with_block_labels(*dims, before)[p]
                } else {
                    before[p]
                }) by {
                    assert(current[p] == (if runs_before(*dims, 2, ix as int, iy as int, p) {
                        with_block_labels(*dims, before)[p]
                    } else {
                        before[p]
                    }));
                    if owns(*dims, 2, ix as int, iy as int, p) {
                        lemma_block_untouched(*dims, before, current, ix as int, iy as int);
                    }
                }
            }
            ix = ix + 1;
        }
        proof {
            assert forall|p: int| 0 <= p < before.len() implies #[trigger] labels@[p] == (
            if runs_before(*dims, 2, 0, iy + 1, p) {
                with_block_labels(*dims, before)[p]
            } else {
                before[p]
            }) by {
                lemma_row_finished(Stage::FinalLabeling, *dims, iy as int, p);
            }
        }
        iy = iy + 1;
    }
    proof {
        assert forall|p: int| 0 <= p < before.len() implies labels@[p] == with_block_labels(
            *dims,
            before,
        )[p] by {
            lemma_grid_finished(Stage::FinalLabeling, *dims, p);
        }
        assert(labels@ =~= with_block_labels(*dims, before));
    }
}

proof fn lemma_block_untouched(
    dims: Dimensions,
    before: Seq<u32>,
    current: Seq<u32>,
    ix: int,
    iy: int,
)
    requires
        before.len() == dims.pixel_count(),
        current.len() == before.len(),
        forall|p: int|
            0 <= p < before.len() && owns(dims, 2, ix, iy, p) ==> #[trigger] current[p]
                == before[p],
    ensures
        block_label(dims, current, ix, iy) == block_label(dims, before, ix, iy),
        forall|p: int|
            0 <= p < before.len() && owns(dims, 2, ix, iy, p) ==> #[trigger] with_block_labels(
                dims,
                current,
            )[p] == with_block_labels(dims, before)[p],
{
    lemma_slot_untouched(dims, before, current, ix, iy, 2 * ix, 2 * iy);
    lemma_slot_untouched(dims, before, current, ix, iy, 2 * ix + 1, 2 * iy);
    lemma_slot_untouched(dims, before, current, ix, iy, 2 * ix, 2 * iy + 1);
    lemma_slot_untouched(dims, before, current, ix, iy, 2 * ix + 1, 2 * iy + 1);
}

proof fn lemma_slot_untouched(
    dims: Dimensions,
    before: Seq<u32>,
    current: Seq<u32>,
    ix: int,
    iy: int,
    x: int,
    y: int,
)
    requires
        before.len() == dims.pixel_count(),
        current.len() == before.len(),
        forall|p: int|
            0 <= p < before.len() && owns(dims, 2, ix, iy, p) ==> #[trigger] current[p]
                == before[p],
        2 * ix <= x <= 2 * ix + 1,
        2 * iy <= y <= 2 * iy + 1,
    ensures
        slot_at(dims, current, x, y) == slot_at(dims, before, x, y),
{
    if dims.contains(x, y) {
        lemma_index_coordinates(dims, x, y);
        let q = dims.index_of(x, y);
        assert(owns(dims, 2, ix, iy, q));
        assert(current[q] == before[q]);
    }
}

} // verus!
