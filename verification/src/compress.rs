//! The flattening pass: every labeled pixel is made to point directly at its root.

use vstd::prelude::*;
use crate::dispatch::{Dispatch, Stage};
use crate::forest::{
    compressed, find_root, is_forest, lemma_root_is_root, lemma_shortcut, root,
};
use crate::geometry::Dimensions;
use crate::invocation::{
    among_first, lemma_all_taken, lemma_among_first_step, lemma_grid_finished, lemma_next_is_new,
    lemma_owner_exists, lemma_row_finished, lists_owned, owned_pixels, owns, runs_before, visited,
};

verus! {

/// What one invocation of the flattening kernel on block `(ix, iy)` turns `before` into:
/// the forest in which the labeled pixels of the block point at their roots and every
/// other slot is as it was.  No pixel changes its root.
pub open spec fn flattened_block(
    dims: Dimensions,
    before: Seq<u32>,
    after: Seq<u32>,
    ix: int,
    iy: int,
) -> bool {
    &&& after.len() == before.len()
    &&& is_forest(after)
    &&& forall|x: int| 0 <= x < before.len() ==> #[trigger] root(after, x) == root(before, x)
    &&& forall|p: int|
        0 <= p < before.len() ==> #[trigger] after[p] == (if owns(dims, 2, ix, iy, p) {
            compressed(before)[p]
        } else {
            before[p]
        })
}

/// Whether pixel `p`, if one of the first `k` invocations of `order` owns it, points at
/// its root, and holds what it held if none of them does.
pub open spec fn flattened_so_far(
    dims: Dimensions,
    order: Seq<(int, int)>,
    start: Seq<u32>,
    now: Seq<u32>,
    k: int,
    p: int,
) -> bool {
    now[p] == (if exists|j: int| 0 <= j < k && #[trigger] owns(dims, 2, order[j].0, order[j].1, p) {
        compressed(start)[p]
    } else {
        start[p]
    })
}

/// The blocks may be flattened in any order, and more than once: whenever a sequence of
/// invocations visits every block of the image, the forests it passes through end in the
/// flattening of the first.
pub proof fn lemma_compress_in_any_order(
    dims: Dimensions,
    states: Seq<Seq<u32>>,
    order: Seq<(int, int)>,
)
    requires
        states.len() == order.len() + 1,
        states[0].len() == dims.pixel_count(),
        is_forest(states[0]),
        forall|j: int|
            0 <= j < order.len() ==> flattened_block(
                dims,
                #[trigger] states[j],
                states[j + 1],
                order[j].0,
                order[j].1,
            ),
        forall|p: int| 0 <= p < dims.pixel_count() ==> #[trigger] visited(dims, order, p),
    ensures
        states[order.len() as int] == compressed(states[0]),
{
    let last = states[order.len() as int];
    lemma_any_order_prefix(dims, states, order, order.len() as int);
    assert forall|p: int| 0 <= p < last.len() implies last[p] == compressed(states[0])[p] by {
        assert(visited(dims, order, p));
        assert(flattened_so_far(dims, order, states[0], last, order.len() as int, p));
    }
    assert(last =~= compressed(states[0]));
}

proof fn lemma_any_order_prefix(
    dims: Dimensions,
    states: Seq<Seq<u32>>,
    order: Seq<(int, int)>,
    k: int,
)
    requires
        states.len() == order.len() + 1,
        states[0].len() == dims.pixel_count(),
        is_forest(states[0]),
        0 <= k <= order.len(),
        forall|j: int|
            0 <= j < order.len() ==> flattened_block(
                dims,
                #[trigger] states[j],
                states[j + 1],
                order[j].0,
                order[j].1,
            ),
    ensures
        states[k].len() == states[0].len(),
        is_forest(states[k]),
        forall|x: int|
            0 <= x < states[0].len() ==> #[trigger] root(states[k], x) == root(states[0], x),
        forall|p: int|
            0 <= p < states[0].len() ==> #[trigger] flattened_so_far(
                dims,
                order,
                states[0],
                states[k],
                k,
                p,
            ),
    decreases k,
{
    let start = states[0];
    if k > 0 {
        lemma_any_order_prefix(dims, states, order, k - 1);
        let current = states[k - 1];
        let next = states[k];
        let (ix, iy) = order[k - 1];
        assert(flattened_block(dims, states[k - 1], states[k - 1 + 1], ix, iy));
        assert forall|x: int| 0 <= x < start.len() implies #[trigger] root(next, x) == root(
            start,
            x,
        ) by {
            assert(root(current, x) == root(start, x));
        }
        assert forall|p: int| 0 <= p < start.len() implies #[trigger] flattened_so_far(
            dims,
            order,
            start,
            next,
            k,
            p,
        ) by {
            assert(flattened_so_far(dims, order, start, current, k - 1, p));
            assert(root(current, p) == root(start, p));
            if owns(dims, 2, order[k - 1].0, order[k - 1].1, p) {
                assert(next[p] == compressed(current)[p]);
                if start[p] != 0 {
                    lemma_root_is_root(start, p);
                }
            } else {
                assert(next[p] == current[p]);
                if exists|j: int|
                    0 <= j < k && #[trigger] owns(dims, 2, order[j].0, order[j].1, p) {
                    let j = choose|j: int|
                        0 <= j < k && #[trigger] owns(dims, 2, order[j].0, order[j].1, p);
                    assert(0 <= j < k - 1 && owns(dims, 2, order[j].0, order[j].1, p));
                }
            }
        }
    }
}

/// One invocation of the flattening kernel: points each labeled pixel of block
/// `(ix, iy)` at its root and leaves every other slot as it was.  No root changes.
pub fn compress_invocation(labels: &mut Vec<u32>, dims: &Dimensions, ix: u64, iy: u64)
    requires
        old(labels).len() == dims.pixel_count(),
        is_forest(old(labels)@),
    ensures
        flattened_block(*dims, old(labels)@, final(labels)@, ix as int, iy as int),
{
    let ghost before = labels@;
    let pixels: Vec<usize> = owned_pixels(dims, Stage::Compress, ix, iy);
    let mut k: usize = 0;
    while k < pixels.len()
        invariant
            k <= pixels.len(),
            lists_owned(*dims, 2, ix as int, iy as int, pixels@),
            labels.len() == before.len(),
            before.len() == dims.pixel_count(),
            is_forest(labels@),
            forall|x: int|
                0 <= x < before.len() ==> #[trigger] root(labels@, x) == root(before, x),
            forall|p: int|
                0 <= p < before.len() ==> #[trigger] labels@[p] == (if among_first(
                    pixels@,
                    k as int,
                    p,
                ) {
                    compressed(before)[p]
                } else {
                    before[p]
                }),
        decreases pixels.len() - k,
    {
        let q: usize = pixels[k];
        let ghost current = labels@;
        proof {
            lemma_next_is_new(*dims, 2, ix as int, iy as int, pixels@, k as int);
            assert(current[q as int] == before[q as int]);
        }
        if labels[q] != 0 {
            let r: usize = find_root(labels, q);
            let direct: u32 = labels[r];
            proof {
                lemma_shortcut(current, q as int);
            }
            labels.set(q, direct);
            assert(labels@ == current.update(q as int, (root(current, q as int) + 1) as u32));
        }
        proof {
            assert forall|p: int| 0 <= p < before.len() implies #[trigger] labels@[p] == (
            if among_first(pixels@, k + 1, p) {
                compressed(before)[p]
            } else {
                before[p]
            }) by {
                lemma_among_first_step(pixels@, k as int, p);
            }
        }
        k = k + 1;
    }
    proof {
        assert forall|p: int| 0 <= p < before.len() implies #[trigger] labels@[p] == (if owns(
            *dims,
            2,
            ix as int,
            iy as int,
            p,
        ) {
            compressed(before)[p]
        } else {
            before[p]
        }) by {
            lemma_all_taken(*dims, 2, ix as int, iy as int, pixels@, p);
        }
    }
}

/// The flattening pass.  It runs the kernel once for every block of the planned grid and
/// leaves the forest in which every labeled pixel points directly at its root.
pub fn compress(labels: &mut Vec<u32>, dims: &Dimensions)
    requires
        old(labels).len() == dims.pixel_count(),
        is_forest(old(labels)@),
    ensures
        final(labels)@ == compressed(old(labels)@),
{
    let ghost before = labels@;
    let grid: Dispatch = Dispatch::for_stage(Stage::Compress, dims);
    let across: u64 = grid.across();
    let down: u64 = grid.down();
    let mut iy: u64 = 0;
    proof {
        assert forall|p: int| 0 <= p < before.len() implies !runs_before(*dims, 2, 0, 0, p) by {
            lemma_owner_exists(*dims, 2, p);
        }
    }
    while iy < down
        invariant
            iy <= down,
            across == Dispatch::planned(Stage::Compress, *dims).invocations_x(),
            down == Dispatch::planned(Stage::Compress, *dims).invocations_y(),
            labels.len() == before.len(),
            before.len() == dims.pixel_count(),
            is_forest(labels@),
            forall|x: int|
                0 <= x < before.len() ==> #[trigger] root(labels@, x) == root(before, x),
            forall|p: int|
                0 <= p < before.len() ==> #[trigger] labels@[p] == (if runs_before(
                    *dims,
                    2,
                    0,
                    iy as int,
                    p,
                ) {
                    compressed(before)[p]
                } else {
                    before[p]
                }),
        decreases down - iy,
    {
        let mut ix: u64 = 0;
        while ix < across
            invariant
                ix <= across,
                iy < down,
                across == Dispatch::planned(Stage::Compress, *dims).invocations_x(),
                labels.len() == before.len(),
                before.len() == dims.pixel_count(),
                is_forest(labels@),
                forall|x: int|
                    0 <= x < before.len() ==> #[trigger] root(labels@, x) == root(before, x),
                forall|p: int|
                    0 <= p < before.len() ==> #[trigger] labels@[p] == (if runs_before(
                        *dims,
                        2,
                        ix as int,
                        iy as int,
                        p,
                    ) {
                        compressed(before)[p]
                    } else {
                        before[p]
                    }),
            decreases across - ix,
        {
            let ghost current = labels@;
            compress_invocation(labels, dims, ix, iy);
            proof {
                assert forall|x: int| 0 <= x < before.len() implies #[trigger] root(labels@, x)
                    == root(before, x) by {
                    assert(root(current, x) == root(before, x));
                }
                assert forall|p: int| 0 <= p < before.len() implies #[trigger] labels@[p] == (
                if runs_before(*dims, 2, ix + 1, iy as int, p) {
                    compressed(before)[p]
                } else {
                    before[p]
                }) by {
                    assert(root(current, p) == root(before, p));
                    assert(current[p] == (if runs_before(*dims, 2, ix as int, iy as int, p) {
                        compressed(before)[p]
                    } else {
                        before[p]
                    }));
                }
            }
            ix = ix + 1;
        }
        proof {
            assert forall|p: int| 0 <= p < before.len() implies #[trigger] labels@[p] == (
            if runs_before(*dims, 2, 0, iy + 1, p) {
                compressed(before)[p]
            } else {
                before[p]
            }) by {
                lemma_row_finished(Stage::Compress, *dims, iy as int, p);
            }
        }
        iy = iy + 1;
    }
    proof {
        assert forall|p: int| 0 <= p < before.len() implies labels@[p] == compressed(before)[p] by {
            lemma_grid_finished(Stage::Compress, *dims, p);
        }
        assert(labels@ =~= compressed(before));
    }
}

} // verus!
