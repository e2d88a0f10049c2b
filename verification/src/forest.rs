//! The label forest: a union-find structure laid over the pixels of an image.
//!
//! A slot holds `0` for a pixel without a label and `k + 1` for a pixel whose parent is
//! the pixel with flat index `k`, so that the sentinel can never be mistaken for a pointer
//! to pixel `0`.  Parents never have a larger index than their children, which bounds
//! every walk to a root by the index it starts from.

use vstd::prelude::*;
use crate::connectivity::{
    connected, lemma_connected_reflexive, lemma_connected_transitive,
};
use crate::geometry::Dimensions;

verus! {

/// Whether the slot of pixel `i` holds a pointer rather than the sentinel.
pub open spec fn is_labeled(slots: Seq<u32>, i: int) -> bool {
    0 <= i < slots.len() && slots[i] != 0
}

/// The mask of the pixels that hold a pointer.
pub open spec fn labeled(slots: Seq<u32>) -> Seq<bool> {
    Seq::new(slots.len(), |i: int| slots[i] != 0)
}

/// Whether the slot of pixel `i` holds the sentinel or points at a labeled pixel of no
/// larger index.
pub open spec fn slot_ok(slots: Seq<u32>, i: int) -> bool {
    slots[i] != 0 ==> slots[i] <= i + 1 && slots[slots[i] - 1] != 0
}

/// Whether every pointer leads to a labeled pixel of no larger index.
pub open spec fn is_forest(slots: Seq<u32>) -> bool {
    forall|i: int| 0 <= i < slots.len() ==> #[trigger] slot_ok(slots, i)
}

/// Whether pixel `i` is labeled and points at itself.
pub open spec fn is_root(slots: Seq<u32>, i: int) -> bool {
    0 <= i < slots.len() && slots[i] == i + 1
}

/// The pixel at which the walk along parent pointers from `i` ends.
pub open spec fn root(slots: Seq<u32>, i: int) -> int
    decreases i,
{
    if 0 < i < slots.len() && 0 < slots[i] <= i {
        root(slots, slots[i] - 1)
    } else {
        i
    }
}

/// The forest in which every labeled pixel points directly at its root.
pub open spec fn compressed(slots: Seq<u32>) -> Seq<u32> {
    Seq::new(
        slots.len(),
        |i: int|
            if slots[i] == 0 {
                0u32
            } else {
                (root(slots, i) + 1) as u32
            },
    )
}

/// Whether the slot of pixel `i` holds the sentinel or points directly at the pixel's root.
pub open spec fn slot_flat(slots: Seq<u32>, i: int) -> bool {
    slots[i] != 0 ==> slots[i] == root(slots, i) + 1
}

/// Whether every labeled pixel already points directly at its root.
pub open spec fn is_flat(slots: Seq<u32>) -> bool {
    forall|i: int| 0 <= i < slots.len() ==> #[trigger] slot_flat(slots, i)
}

/// The forest after the trees of `a` and `b` are united: the larger of the two roots is
/// made to point at the smaller.
pub open spec fn united(slots: Seq<u32>, a: int, b: int) -> Seq<u32> {
    let ra = root(slots, a);
    let rb = root(slots, b);
    if ra < rb {
        slots.update(rb, (ra + 1) as u32)
    } else if rb < ra {
        slots.update(ra, (rb + 1) as u32)
    } else {
        slots
    }
}

/// Whether the slot of pixel `i` holds the sentinel or points at a pixel of the same
/// component, where the foreground is the set of labeled pixels.
pub open spec fn slot_within_component(dims: Dimensions, slots: Seq<u32>, i: int) -> bool {
    slots[i] != 0 ==> connected(dims, labeled(slots), i, slots[i] - 1)
}

/// Whether every pointer of the forest stays inside the component of the pixel that
/// holds it.
pub open spec fn within_components(dims: Dimensions, slots: Seq<u32>) -> bool {
    &&& slots.len() == dims.pixel_count()
    &&& forall|i: int| 0 <= i < slots.len() ==> #[trigger] slot_within_component(dims, slots, i)
}

/// Forests with the same mask label the same pixels.
pub proof fn lemma_same_labeled(first: Seq<u32>, second: Seq<u32>, i: int)
    requires
        labeled(first) == labeled(second),
    ensures
        is_labeled(first, i) == is_labeled(second, i),
{
    assert(labeled(first).len() == first.len());
    assert(labeled(second).len() == second.len());
    if 0 <= i < first.len() {
        assert(labeled(first)[i] == (first[i] != 0));
        assert(labeled(second)[i] == (second[i] != 0));
    }
}

/// The walk from a labeled pixel ends at a root of no larger index.
pub proof fn lemma_root_is_root(slots: Seq<u32>, i: int)
    requires
        is_forest(slots),
        is_labeled(slots, i),
    ensures
        0 <= root(slots, i) <= i,
        is_root(slots, root(slots, i)),
        root(slots, root(slots, i)) == root(slots, i),
    decreases i,
{
    assert(slot_ok(slots, i));
    if 0 < i && slots[i] <= i {
        lemma_root_is_root(slots, slots[i] - 1);
    }
}

/// A pixel and its parent have the same root.
pub proof fn lemma_root_of_parent(slots: Seq<u32>, i: int)
    requires
        is_forest(slots),
        is_labeled(slots, i),
    ensures
        is_labeled(slots, slots[i] - 1),
        slots[i] - 1 <= i,
        root(slots, slots[i] - 1) == root(slots, i),
{
    assert(slot_ok(slots, i));
}

/// Pointing a labeled pixel directly at its root keeps the forest and every root.
pub proof fn lemma_shortcut(slots: Seq<u32>, b: int)
    requires
        is_forest(slots),
        is_labeled(slots, b),
    ensures
        root(slots, b) + 1 <= u32::MAX,
        is_forest(slots.update(b, (root(slots, b) + 1) as u32)),
        labeled(slots.update(b, (root(slots, b) + 1) as u32)) == labeled(slots),
        forall|x: int|
            0 <= x < slots.len() ==> #[trigger] root(
                slots.update(b, (root(slots, b) + 1) as u32),
                x,
            ) == root(slots, x),
{
    lemma_root_is_root(slots, b);
    let r = root(slots, b);
    let after = slots.update(b, (r + 1) as u32);
    assert(labeled(after) =~= labeled(slots));
    assert forall|i: int| 0 <= i < after.len() implies #[trigger] slot_ok(after, i) by {
        assert(slot_ok(slots, i));
    }
    assert forall|x: int| 0 <= x < slots.len() implies #[trigger] root(after, x) == root(
        slots,
        x,
    ) by {
        lemma_shortcut_root(slots, b, x);
    }
}

proof fn lemma_shortcut_root(slots: Seq<u32>, b: int, x: int)
    requires
        is_forest(slots),
        is_labeled(slots, b),
        0 <= x < slots.len(),
    ensures
        root(slots.update(b, (root(slots, b) + 1) as u32), x) == root(slots, x),
    decreases x,
{
    lemma_root_is_root(slots, b);
    let r = root(slots, b);
    let after = slots.update(b, (r + 1) as u32);
    if x == b {
        if r < b {
            lemma_shortcut_root(slots, b, r);
            assert(root(after, b) == root(after, r));
        }
    } else if 0 < x && 0 < slots[x] <= x {
        lemma_shortcut_root(slots, b, slots[x] - 1);
        assert(root(after, x) == root(after, slots[x] - 1));
    }
}

/// Flattening keeps the forest, the labeled pixels and every root.
pub proof fn lemma_compressed_keeps_roots(slots: Seq<u32>)
    requires
        is_forest(slots),
    ensures
        compressed(slots).len() == slots.len(),
        is_forest(compressed(slots)),
        is_flat(compressed(slots)),
        labeled(compressed(slots)) == labeled(slots),
        forall|x: int|
            0 <= x < slots.len() ==> #[trigger] root(compressed(slots), x) == root(slots, x),
{
    let flat = compressed(slots);
    assert forall|x: int| 0 <= x < slots.len() implies (flat[x] != 0) == (slots[x] != 0) by {
        if slots[x] != 0 {
            lemma_root_is_root(slots, x);
        }
    }
    assert(labeled(flat) =~= labeled(slots));
    assert forall|x: int| 0 <= x < slots.len() implies #[trigger] root(flat, x) == root(
        slots,
        x,
    ) by {
        if slots[x] != 0 {
            lemma_root_is_root(slots, x);
            let r = root(slots, x);
            assert(flat[r] == r + 1);
            assert(flat[x] == r + 1);
            if r < x {
                assert(root(flat, x) == root(flat, r));
            }
        }
    }
    assert forall|i: int| 0 <= i < flat.len() implies #[trigger] slot_ok(flat, i) by {
        if slots[i] != 0 {
            lemma_root_is_root(slots, i);
        }
    }
    assert forall|i: int| 0 <= i < flat.len() implies #[trigger] slot_flat(flat, i) by {
        if slots[i] != 0 {
            lemma_root_is_root(slots, i);
            assert(root(flat, i) == root(slots, i));
        }
    }
}

/// Flattening twice is flattening once: a second pass over any forest changes nothing.
pub proof fn lemma_compress_idempotent(slots: Seq<u32>)
    requires
        is_forest(slots),
    ensures
        compressed(compressed(slots)) == compressed(slots),
{
    lemma_compressed_keeps_roots(slots);
    lemma_flat_is_compressed(compressed(slots));
}

/// A flat forest is its own flattening.
pub proof fn lemma_flat_is_compressed(slots: Seq<u32>)
    requires
        is_flat(slots),
    ensures
        compressed(slots) == slots,
{
    assert forall|i: int| 0 <= i < slots.len() implies compressed(slots)[i] == slots[i] by {
        assert(slot_flat(slots, i));
    }
    assert(compressed(slots) =~= slots);
}

/// Hanging one root below a smaller one keeps the forest; the pixels of the larger root's
/// tree move to the smaller root and no other pixel changes its root.
pub proof fn lemma_link(slots: Seq<u32>, low: int, high: int)
    requires
        is_forest(slots),
        is_root(slots, low),
        is_root(slots, high),
        low < high,
    ensures
        is_forest(slots.update(high, (low + 1) as u32)),
        labeled(slots.update(high, (low + 1) as u32)) == labeled(slots),
        forall|x: int|
            0 <= x < slots.len() ==> #[trigger] root(slots.update(high, (low + 1) as u32), x) == (
            if root(slots, x) == high {
                low
            } else {
                root(slots, x)
            }),
{
    let after = slots.update(high, (low + 1) as u32);
    assert(labeled(after) =~= labeled(slots));
    assert forall|i: int| 0 <= i < after.len() implies #[trigger] slot_ok(after, i) by {
        assert(slot_ok(slots, i));
    }
    assert forall|x: int| 0 <= x < slots.len() implies #[trigger] root(after, x) == (if root(
        slots,
        x,
    ) == high {
        low
    } else {
        root(slots, x)
    }) by {
        lemma_link_root(slots, low, high, x);
    }
}

proof fn lemma_link_root(slots: Seq<u32>, low: int, high: int, x: int)
    requires
        is_forest(slots),
        is_root(slots, low),
        is_root(slots, high),
        low < high,
        0 <= x < slots.len(),
    ensures
        root(slots.update(high, (low + 1) as u32), x) == (if root(slots, x) == high {
            low
        } else {
            root(slots, x)
        }),
    decreases x,
{
    let after = slots.update(high, (low + 1) as u32);
    if x == high {
        assert(root(after, x) == root(after, low));
        assert(root(after, low) == low);
    } else if 0 < x && 0 < slots[x] <= x {
        lemma_link_root(slots, low, high, slots[x] - 1);
        assert(root(after, x) == root(after, slots[x] - 1));
    }
}

/// What uniting two trees does: the forest stays a forest over the same pixels, the two
/// pixels end under one root, pixels that shared a root still share one, and a pixel
/// whose root changed sat under one of the two roots and now shares theirs.
pub proof fn lemma_united(slots: Seq<u32>, a: int, b: int)
    requires
        is_forest(slots),
        is_labeled(slots, a),
        is_labeled(slots, b),
    ensures
        is_forest(united(slots, a, b)),
        united(slots, a, b).len() == slots.len(),
        labeled(united(slots, a, b)) == labeled(slots),
        root(united(slots, a, b), a) == root(united(slots, a, b), b),
        forall|x: int|
            0 <= x < slots.len() ==> #[trigger] root(united(slots, a, b), x) == (if root(slots, x)
                == root(slots, a) || root(slots, x) == root(slots, b) {
                if root(slots, a) < root(slots, b) {
                    root(slots, a)
                } else {
                    root(slots, b)
                }
            } else {
                root(slots, x)
            }),
{
    lemma_root_is_root(slots, a);
    lemma_root_is_root(slots, b);
    let ra = root(slots, a);
    let rb = root(slots, b);
    if ra < rb {
        lemma_link(slots, ra, rb);
    } else if rb < ra {
        lemma_link(slots, rb, ra);
    }
}

/// In a forest whose pointers stay inside components, every labeled pixel is connected
/// to its root.
pub proof fn lemma_connected_to_root(dims: Dimensions, slots: Seq<u32>, i: int)
    requires
        is_forest(slots),
        within_components(dims, slots),
        is_labeled(slots, i),
    ensures
        connected(dims, labeled(slots), i, root(slots, i)),
    decreases i,
{
    assert(slot_ok(slots, i));
    assert(slot_within_component(dims, slots, i));
    if 0 < i && slots[i] <= i {
        let p = slots[i] - 1;
        lemma_connected_to_root(dims, slots, p);
        lemma_connected_transitive(dims, labeled(slots), i, p, root(slots, p));
    } else {
        lemma_connected_reflexive(dims, labeled(slots), i);
    }
}

/// Walks from `start` along the parent pointers to the root.
pub fn find_root(slots: &Vec<u32>, start: usize) -> (r: usize)
    requires
        is_forest(slots@),
        is_labeled(slots@, start as int),
    ensures
        r == root(slots@, start as int),
        is_root(slots@, r as int),
        r <= start,
{
    let mut current: usize = start;
    proof {
        lemma_root_is_root(slots@, start as int);
    }
    while slots[current] as usize - 1 != current
        invariant
            is_forest(slots@),
            is_labeled(slots@, current as int),
            current <= start,
            root(slots@, current as int) == root(slots@, start as int),
        decreases current,
    {
        proof {
            lemma_root_of_parent(slots@, current as int);
        }
        current = slots[current] as usize - 1;
    }
    proof {
        lemma_root_is_root(slots@, current as int);
    }
    current
}

} // verus!
