//! The seeding pass: every foreground pixel receives its first pointer.
//!
//! An invocation looks at one block of two by two pixels.  It records which pixels of the
//! block are foreground; where the record is not empty it points each of them at the least
//! foreground pixel that the block reaches: a pixel of the block itself, or one that
//! touches a foreground pixel of the block.  Background slots are not written.

use vstd::prelude::*;
use crate::connectivity::{
    connected, is_foreground, lemma_connected_step, lemma_connected_transitive, touches,
};
use crate::dispatch::{Dispatch, Stage};
use crate::forest::{
    is_forest, labeled, slot_ok, slot_within_component, within_components,
};
use crate::geometry::{Dimensions, lemma_coordinates_index};
use crate::invocation::{
    among_first, lemma_all_taken, lemma_among_first_step, lemma_grid_finished, lemma_next_is_new,
    lemma_owner_exists, lemma_row_finished, lists_owned, owned_pixels, owns, pixel_index,
    runs_before,
};
use crate::neighborhood::{lists_touching, touching_pixels};
use crate::texture::Texture;

verus! {

/// One if `(x, y)` is a foreground pixel of the image, zero otherwise.
pub open spec fn presence(dims: Dimensions, fg: Seq<bool>, x: int, y: int) -> int {
    if dims.contains(x, y) && fg[dims.index_of(x, y)] {
        1
    } else {
        0
    }
}

/// The connectivity record of block `(ix, iy)`: one bit for each of its four pixels, set
/// where the pixel is foreground.  All set pixels of a block touch one another.
pub open spec fn block_bits(dims: Dimensions, fg: Seq<bool>, ix: int, iy: int) -> int {
    presence(dims, fg, 2 * ix, 2 * iy) + 2 * presence(dims, fg, 2 * ix + 1, 2 * iy) + 4 * presence(
        dims,
        fg,
        2 * ix,
        2 * iy + 1,
    ) + 8 * presence(dims, fg, 2 * ix + 1, 2 * iy + 1)
}

/// Whether `p` is the top left pixel of block `(ix, iy)`, where the block's record is kept.
pub open spec fn is_anchor(dims: Dimensions, ix: int, iy: int, p: int) -> bool {
    &&& 0 <= p < dims.pixel_count()
    &&& dims.x_of(p) == 2 * ix
    &&& dims.y_of(p) == 2 * iy
}

/// Whether `q` is a foreground pixel that touches a foreground pixel of block `(ix, iy)`.
pub open spec fn block_reaches(dims: Dimensions, fg: Seq<bool>, ix: int, iy: int, q: int) -> bool {
    &&& is_foreground(fg, q)
    &&& exists|m: int|
        owns(dims, 2, ix, iy, m) && is_foreground(fg, m) && #[trigger] touches(dims, m, q)
}

/// Whether `s` is the least pixel that block `(ix, iy)` reaches.
pub open spec fn is_seed(dims: Dimensions, fg: Seq<bool>, ix: int, iy: int, s: int) -> bool {
    &&& block_reaches(dims, fg, ix, iy, s)
    &&& forall|q: int| #[trigger] block_reaches(dims, fg, ix, iy, q) ==> s <= q
}

/// Whether the slot of a foreground pixel `p` points at the seed of the pixel's block.
pub open spec fn slot_seeded(dims: Dimensions, fg: Seq<bool>, slots: Seq<u32>, p: int) -> bool {
    fg[p] ==> slots[p] >= 1 && is_seed(dims, fg, dims.x_of(p) / 2, dims.y_of(p) / 2, slots[p] - 1)
}

/// Whether `slots` is the forest that seeding leaves over a cleared buffer.
pub open spec fn is_seeding(dims: Dimensions, fg: Seq<bool>, slots: Seq<u32>) -> bool {
    &&& fg.len() == dims.pixel_count()
    &&& slots.len() == dims.pixel_count()
    &&& forall|p: int|
        0 <= p < slots.len() ==> #[trigger] slot_seeded(dims, fg, slots, p) && (!fg[p] ==> slots[p]
            == 0)
}

/// Whether the record of the block of `p` is in place after seeding: the block's anchor
/// holds the block's bits and the other slots hold what they held.
pub open spec fn info_recorded(
    dims: Dimensions,
    fg: Seq<bool>,
    before: Seq<u32>,
    after: Seq<u32>,
    p: int,
) -> bool {
    after[p] == (if is_anchor(dims, dims.x_of(p) / 2, dims.y_of(p) / 2, p) {
        block_bits(dims, fg, dims.x_of(p) / 2, dims.y_of(p) / 2)
    } else {
        before[p] as int
    })
}

/// The slot of `p` in the label forest buffer while seeding is under way: a foreground
/// pixel whose block is done points at the seed of the block, and every other slot holds
/// what it held before.
pub open spec fn seeded_so_far(
    dims: Dimensions,
    fg: Seq<bool>,
    before: Seq<u32>,
    now: Seq<u32>,
    done: bool,
    p: int,
) -> bool {
    if done && fg[p] {
        slot_seeded(dims, fg, now, p)
    } else {
        now[p] == before[p]
    }
}

/// The slot of `p` in the block info buffer while seeding is under way: the record of
/// its block is in place if the block is done, and the slot holds what it held if not.
pub open spec fn recorded_so_far(
    dims: Dimensions,
    fg: Seq<bool>,
    before: Seq<u32>,
    now: Seq<u32>,
    done: bool,
    p: int,
) -> bool {
    if done {
        info_recorded(dims, fg, before, now, p)
    } else {
        now[p] == before[p]
    }
}

/// A block has one seed.
pub proof fn lemma_seed_unique(dims: Dimensions, fg: Seq<bool>, ix: int, iy: int, s: int, t: int)
    requires
        is_seed(dims, fg, ix, iy, s),
        is_seed(dims, fg, ix, iy, t),
    ensures
        s == t,
{
}

/// Seeding a cleared buffer yields a forest over exactly the foreground pixels, and all
/// of its pointers stay inside components.
pub proof fn lemma_seeding_is_forest(dims: Dimensions, fg: Seq<bool>, slots: Seq<u32>)
    requires
        is_seeding(dims, fg, slots),
    ensures
        is_forest(slots),
        labeled(slots) == fg,
        within_components(dims, slots),
{
    assert forall|p: int| 0 <= p < slots.len() implies (slots[p] != 0) == fg[p] by {
        assert(slot_seeded(dims, fg, slots, p));
    }
    assert(labeled(slots) =~= fg);
    assert forall|p: int| 0 <= p < slots.len() implies #[trigger] slot_ok(slots, p) by {
        lemma_seeded_slot(dims, fg, slots, p);
    }
    assert forall|p: int| 0 <= p < slots.len() implies #[trigger] slot_within_component(
        dims,
        slots,
        p,
    ) by {
        lemma_seeded_slot(dims, fg, slots, p);
    }
}

proof fn lemma_seeded_slot(dims: Dimensions, fg: Seq<bool>, slots: Seq<u32>, p: int)
    requires
        is_seeding(dims, fg, slots),
        0 <= p < slots.len(),
    ensures
        slot_ok(slots, p),
        fg[p] ==> connected(dims, fg, p, slots[p] - 1),
{
    assert(slot_seeded(dims, fg, slots, p));
    if fg[p] {
        let ix = dims.x_of(p) / 2;
        let iy = dims.y_of(p) / 2;
        let s = slots[p] - 1;
        lemma_owner_exists(dims, 2, p);
        assert(touches(dims, p, p));
        assert(block_reaches(dims, fg, ix, iy, p));
        assert(s <= p);
        assert(slot_seeded(dims, fg, slots, s));
        let m = choose|m: int|
            owns(dims, 2, ix, iy, m) && is_foreground(fg, m) && #[trigger] touches(dims, m, s);
        lemma_coordinates_index(dims, p);
        lemma_coordinates_index(dims, m);
        assert(touches(dims, p, m));
        lemma_connected_step(dims, fg, p, m);
        lemma_connected_step(dims, fg, m, s);
        lemma_connected_transitive(dims, fg, p, m, s);
    }
}

/// A block whose record is zero has no foreground pixel.
pub proof fn lemma_empty_block(dims: Dimensions, fg: Seq<bool>, ix: int, iy: int, p: int)
    requires
        block_bits(dims, fg, ix, iy) == 0,
        owns(dims, 2, ix, iy, p),
    ensures
        !fg[p],
{
    lemma_coordinates_index(dims, p);
    let x = dims.x_of(p);
    let y = dims.y_of(p);
    assert(2 * ix <= x <= 2 * ix + 1);
    assert(2 * iy <= y <= 2 * iy + 1);
    assert(presence(dims, fg, x, y) == 0);
}

fn presence_at(texture: &Texture, x: u64, y: u64) -> (bit: u32)
    requires
        texture.well_formed(),
    ensures
        bit == presence(texture.dims(), texture.foreground(), x as int, y as int),
{
    let dims: Dimensions = texture.extent();
    if x < dims.columns as u64 && y < dims.rows as u64 {
        let p: usize = pixel_index(&dims, x as u32, y as u32);
        if texture.is_foreground(p) {
            1
        } else {
            0
        }
    } else {
        0
    }
}

/// Whether `s` is the least foreground pixel that touches `m`.
pub open spec fn is_least_touching(dims: Dimensions, fg: Seq<bool>, m: int, s: int) -> bool {
    &&& is_foreground(fg, s)
    &&& touches(dims, m, s)
    &&& forall|q: int| #[trigger] touches(dims, m, q) && is_foreground(fg, q) ==> s <= q
}

/// The least foreground pixel that touches the foreground pixel `m`, which is `m` itself
/// where nothing before it does.
pub fn least_touching(texture: &Texture, m: usize) -> (least: usize)
    requires
        texture.well_formed(),
        is_foreground(texture.foreground(), m as int),
    ensures
        is_least_touching(texture.dims(), texture.foreground(), m as int, least as int),
{
    let dims: Dimensions = texture.extent();
    let ghost fg = texture.foreground();
    let around: Vec<usize> = touching_pixels(&dims, m);
    let mut i: usize = 0;
    while i < around.len()
        invariant
            i <= around.len(),
            texture.well_formed(),
            dims == texture.dims(),
            fg == texture.foreground(),
            is_foreground(fg, m as int),
            lists_touching(dims, m as int, around@),
            forall|t: int| 0 <= t < i ==> !fg[#[trigger] around[t] as int],
        decreases around.len() - i,
    {
        let q: usize = around[i];
        assert(touches(dims, m as int, around[i as int] as int));
        if texture.is_foreground(q) {
            proof {
                assert forall|other: int| #[trigger]
                    touches(dims, m as int, other) && is_foreground(fg, other) implies q
                    <= other by {
                    let t = choose|t: int| 0 <= t < around.len() && #[trigger] around[t] == other;
                    if t < i {
                        assert(!fg[around[t] as int]);
                    } else if t > i {
                        assert(around[i as int] < around[t]);
                    }
                }
            }
            return q;
        }
        i = i + 1;
    }
    proof {
        assert(touches(dims, m as int, m as int));
        let t = choose|t: int| 0 <= t < around.len() && #[trigger] around[t] == m;
        assert(!fg[around[t] as int]);
    }
    m
}

/// The least foreground pixel that block `(ix, iy)` reaches, or `None` for a block
/// without foreground pixels.
pub fn block_seed(texture: &Texture, ix: u64, iy: u64) -> (seed: Option<usize>)
    requires
        texture.well_formed(),
    ensures
        seed is Some ==> is_seed(
            texture.dims(),
            texture.foreground(),
            ix as int,
            iy as int,
            seed->0 as int,
        ),
        seed is None ==> forall|m: int| #[trigger]
            owns(texture.dims(), 2, ix as int, iy as int, m) ==> !texture.foreground()[m],
{
    let dims: Dimensions = texture.extent();
    let ghost fg = texture.foreground();
    let pixels: Vec<usize> = owned_pixels(&dims, Stage::Init, ix, iy);
    let mut seed: Option<usize> = None;
    let mut k: usize = 0;
    while k < pixels.len()
        invariant
            k <= pixels.len(),
            texture.well_formed(),
            dims == texture.dims(),
            fg == texture.foreground(),
            lists_owned(dims, 2, ix as int, iy as int, pixels@),
            seed is Some ==> block_reaches(dims, fg, ix as int, iy as int, seed->0 as int),
            forall|j: int, q: int|
                0 <= j < k && fg[pixels[j] as int] && #[trigger] touches(dims, pixels[j] as int, q)
                    && is_foreground(fg, q) ==> seed is Some && seed->0 <= q,
        decreases pixels.len() - k,
    {
        let m: usize = pixels[k];
        assert(owns(dims, 2, ix as int, iy as int, pixels[k as int] as int));
        if texture.is_foreground(m) {
            let least: usize = least_touching(texture, m);
            let lower: bool = match seed {
                Some(s) => least < s,
                None => true,
            };
            if lower {
                seed = Some(least);
                assert(block_reaches(dims, fg, ix as int, iy as int, least as int));
            }
        }
        k = k + 1;
    }
    proof {
        if seed is Some {
            assert forall|q: int| #[trigger]
                block_reaches(dims, fg, ix as int, iy as int, q) implies seed->0 <= q by {
                let m = choose|m: int|
                    owns(dims, 2, ix as int, iy as int, m) && is_foreground(fg, m)
                        && #[trigger] touches(dims, m, q);
                let j = choose|j: int| 0 <= j < pixels.len() && #[trigger] pixels[j] == m;
                assert(touches(dims, pixels[j] as int, q));
            }
        } else {
            assert forall|m: int| #[trigger]
                owns(dims, 2, ix as int, iy as int, m) implies !fg[m] by {
                let j = choose|j: int| 0 <= j < pixels.len() && #[trigger] pixels[j] == m;
                if fg[m] {
                    assert(touches(dims, pixels[j] as int, m));
                }
            }
        }
    }
    seed
}

/// One invocation of the seeding kernel on block `(ix, iy)`.  It writes the block's record
/// at the block's anchor and points every foreground pixel of the block at the block's
/// seed.  An invocation outside the image writes nothing.
pub fn init_labeling_invocation(
    texture: &Texture,
    labels: &mut Vec<u32>,
    info: &mut Vec<u32>,
    ix: u64,
    iy: u64,
)
    requires
        texture.well_formed(),
        texture.dims().pixel_count() <= u32::MAX,
        old(labels).len() == texture.dims().pixel_count(),
        old(info).len() == texture.dims().pixel_count(),
    ensures
        final(labels).len() == old(labels).len(),
        final(info).len() == old(info).len(),
        forall|p: int|
            0 <= p < old(labels).len() ==> #[trigger] seeded_so_far(
                texture.dims(),
                texture.foreground(),
                old(labels)@,
                final(labels)@,
                owns(texture.dims(), 2, ix as int, iy as int, p),
                p,
            ),
        forall|p: int|
            0 <= p < old(info).len() ==> #[trigger] recorded_so_far(
                texture.dims(),
                texture.foreground(),
                old(info)@,
                final(info)@,
                owns(texture.dims(), 2, ix as int, iy as int, p),
                p,
            ),
{
    let dims: Dimensions = texture.extent();
    let ghost fg = texture.foreground();
    let ghost before = labels@;
    let ghost info_before = info@;
    if ix >= dims.columns as u64 || iy >= dims.rows as u64 || 2 * ix >= dims.columns as u64 || 2
        * iy >= dims.rows as u64 {
        proof {
            assert forall|p: int| 0 <= p < before.len() implies !owns(
                dims,
                2,
                ix as int,
                iy as int,
                p,
            ) by {
                lemma_owner_exists(dims, 2, p);
            }
        }
        return ;
    }
    let x0: u64 = 2 * ix;
    let y0: u64 = 2 * iy;
    let anchor: usize = pixel_index(&dims, x0 as u32, y0 as u32);
    let bits: u32 = presence_at(texture, x0, y0) + 2 * presence_at(texture, x0 + 1, y0) + 4
        * presence_at(texture, x0, y0 + 1) + 8 * presence_at(texture, x0 + 1, y0 + 1);
    info.set(anchor, bits);
    proof {
        assert forall|p: int| 0 <= p < before.len() implies #[trigger] recorded_so_far(
            dims,
            fg,
            info_before,
            info@,
            owns(dims, 2, ix as int, iy as int, p),
            p,
        ) by {
            lemma_owner_exists(dims, 2, p);
            lemma_coordinates_index(dims, p);
        }
    }
    if bits == 0 {
        proof {
            assert forall|p: int| 0 <= p < before.len() && owns(
                dims,
                2,
                ix as int,
                iy as int,
                p,
            ) implies !fg[p] by {
                lemma_empty_block(dims, fg, ix as int, iy as int, p);
            }
        }
        return ;
    }
    match block_seed(texture, ix, iy) {
        Some(seed) => {
            let pointer: u32 = (seed + 1) as u32;
            let pixels: Vec<usize> = owned_pixels(&dims, Stage::Init, ix, iy);
            let mut k: usize = 0;
            while k < pixels.len()
                invariant
                    k <= pixels.len(),
                    lists_owned(dims, 2, ix as int, iy as int, pixels@),
                    texture.well_formed(),
                    dims == texture.dims(),
                    fg == texture.foreground(),
                    labels.len() == before.len(),
                    before.len() == dims.pixel_count(),
                    forall|p: int|
                        0 <= p < before.len() ==> #[trigger] labels@[p] == (if among_first(
                            pixels@,
                            k as int,
                            p,
                        ) && fg[p] {
                            pointer
                        } else {
                            before[p]
                        }),
                decreases pixels.len() - k,
            {
                let p: usize = pixels[k];
                proof {
                    lemma_next_is_new(dims, 2, ix as int, iy as int, pixels@, k as int);
                }
                if texture.is_foreground(p) {
                    labels.set(p, pointer);
                }
                proof {
                    assert forall|t: int| 0 <= t < before.len() implies #[trigger] labels@[t] == (
                    if among_first(pixels@, k + 1, t) && fg[t] {
                        pointer
                    } else {
                        before[t]
                    }) by {
                        lemma_among_first_step(pixels@, k as int, t);
                    }
                }
                k = k + 1;
            }
            proof {
                assert forall|p: int| 0 <= p < before.len() implies #[trigger] seeded_so_far(
                    dims,
                    fg,
                    before,
                    labels@,
                    owns(dims, 2, ix as int, iy as int, p),
                    p,
                ) by {
                    lemma_all_taken(dims, 2, ix as int, iy as int, pixels@, p);
                    assert(labels@[p] == (if among_first(pixels@, pixels@.len() as int, p)
                        && fg[p] {
                        pointer
                    } else {
                        before[p]
                    }));
                }
            }
        },
        None => {},
    }
}

/// The seeding pass.  It runs the kernel once for every block of the planned grid.  After
/// it every foreground pixel points at the seed of its block, every background slot holds
/// what it held, and every block's record is in place.
pub fn init_labeling(texture: &Texture, labels: &mut Vec<u32>, info: &mut Vec<u32>)
    requires
        texture.well_formed(),
        texture.dims().pixel_count() <= u32::MAX,
        old(labels).len() == texture.dims().pixel_count(),
        old(info).len() == texture.dims().pixel_count(),
    ensures
        final(labels).len() == old(labels).len(),
        final(info).len() == old(info).len(),
        forall|p: int|
            0 <= p < old(labels).len() ==> #[trigger] seeded_so_far(
                texture.dims(),
                texture.foreground(),
                old(labels)@,
                final(labels)@,
                true,
                p,
            ),
        forall|p: int|
            0 <= p < old(info).len() ==> #[trigger] recorded_so_far(
                texture.dims(),
                texture.foreground(),
                old(info)@,
                final(info)@,
                true,
                p,
            ),
{
    let dims: Dimensions = texture.extent();
    let ghost fg = texture.foreground();
    let ghost before = labels@;
    let ghost info_before = info@;
    let grid: Dispatch = Dispatch::for_stage(Stage::Init, &dims);
    let across: u64 = grid.across();
    let down: u64 = grid.down();
    let mut iy: u64 = 0;
    proof {
        assert forall|p: int| 0 <= p < before.len() implies !runs_before(dims, 2, 0, 0, p) by {
            lemma_owner_exists(dims, 2, p);
        }
    }
    while iy < down
        invariant
            iy <= down,
            texture.well_formed(),
            dims == texture.dims(),
            fg == texture.foreground(),
            dims.pixel_count() <= u32::MAX,
            across == Dispatch::planned(Stage::Init, dims).invocations_x(),
            down == Dispatch::planned(Stage::Init, dims).invocations_y(),
            labels.len() == before.len(),
            info.len() == before.len(),
            info_before.len() == before.len(),
            before.len() == dims.pixel_count(),
            forall|p: int|
                0 <= p < before.len() ==> #[trigger] seeded_so_far(
                    dims,
                    fg,
                    before,
                    labels@,
                    runs_before(dims, 2, 0, iy as int, p),
                    p,
                ),
            forall|p: int|
                0 <= p < before.len() ==> #[trigger] recorded_so_far(
                    dims,
                    fg,
                    info_before,
                    info@,
                    runs_before(dims, 2, 0, iy as int, p),
                    p,
                ),
        decreases down - iy,
    {
        let mut ix: u64 = 0;
        while ix < across
            invariant
                ix <= across,
                iy < down,
                texture.well_formed(),
                dims == texture.dims(),
                fg == texture.foreground(),
                dims.pixel_count() <= u32::MAX,
                across == Dispatch::planned(Stage::Init, dims).invocations_x(),
                labels.len() == before.len(),
                info.len() == before.len(),
                info_before.len() == before.len(),
                before.len() == dims.pixel_count(),
                forall|p: int|
                    0 <= p < before.len() ==> #[trigger] seeded_so_far(
                        dims,
                        fg,
                        before,
                        labels@,
                        runs_before(dims, 2, ix as int, iy as int, p),
                        p,
                    ),
                forall|p: int|
                    0 <= p < before.len() ==> #[trigger] recorded_so_far(
                        dims,
                        fg,
                        info_before,
                        info@,
                        runs_before(dims, 2, ix as int, iy as int, p),
                        p,
                    ),
            decreases across - ix,
        {
            let ghost current = labels@;
            let ghost info_current = info@;
            init_labeling_invocation(texture, labels, info, ix, iy);
            proof {
                assert forall|p: int| 0 <= p < before.len() implies #[trigger] seeded_so_far(
                    dims,
                    fg,
                    before,
                    labels@,
                    runs_before(dims, 2, ix + 1, iy as int, p),
                    p,
                ) by {
                    assert(seeded_so_far(
                        dims,
                        fg,
                        before,
                        current,
                        runs_before(dims, 2, ix as int, iy as int, p),
                        p,
                    ));
                    assert(seeded_so_far(
                        dims,
                        fg,
                        current,
                        labels@,
                        owns(dims, 2, ix as int, iy as int, p),
                        p,
                    ));
                }
                assert forall|p: int| 0 <= p < before.len() implies #[trigger] recorded_so_far(
                    dims,
                    fg,
                    info_before,
                    info@,
                    runs_before(dims, 2, ix + 1, iy as int, p),
                    p,
                ) by {
                    assert(recorded_so_far(
                        dims,
                        fg,
                        info_before,
                        info_current,
                        runs_before(dims, 2, ix as int, iy as int, p),
                        p,
                    ));
                    assert(recorded_so_far(
                        dims,
                        fg,
                        info_current,
                        info@,
                        owns(dims, 2, ix as int, iy as int, p),
                        p,
                    ));
                }
            }
            ix = ix + 1;
        }
        proof {
            assert forall|p: int| 0 <= p < before.len() implies #[trigger] seeded_so_far(
                dims,
                fg,
                before,
                labels@,
                runs_before(dims, 2, 0, iy + 1, p),
                p,
            ) by {
                lemma_row_finished(Stage::Init, dims, iy as int, p);
                assert(seeded_so_far(
                    dims,
                    fg,
                    before,
                    labels@,
                    runs_before(dims, 2, across as int, iy as int, p),
                    p,
                ));
            }
            assert forall|p: int| 0 <= p < before.len() implies #[trigger] recorded_so_far(
                dims,
                fg,
                info_before,
                info@,
                runs_before(dims, 2, 0, iy + 1, p),
                p,
            ) by {
                lemma_row_finished(Stage::Init, dims, iy as int, p);
                assert(recorded_so_far(
                    dims,
                    fg,
                    info_before,
                    info@,
                    runs_before(dims, 2, across as int, iy as int, p),
                    p,
                ));
            }
        }
        iy = iy + 1;
    }
    proof {
        assert forall|p: int| 0 <= p < before.len() implies #[trigger] seeded_so_far(
            dims,
            fg,
            before,
            labels@,
            true,
            p,
        ) by {
            lemma_grid_finished(Stage::Init, dims, p);
            assert(seeded_so_far(
                dims,
                fg,
                before,
                labels@,
                runs_before(dims, 2, 0, down as int, p),
                p,
            ));
        }
        assert forall|p: int| 0 <= p < before.len() implies #[trigger] recorded_so_far(
            dims,
            fg,
            info_before,
            info@,
            true,
            p,
        ) by {
            lemma_grid_finished(Stage::Init, dims, p);
            assert(recorded_so_far(
                dims,
                fg,
                info_before,
                info@,
                runs_before(dims, 2, 0, down as int, p),
                p,
            ));
        }
    }
}

} // verus!
