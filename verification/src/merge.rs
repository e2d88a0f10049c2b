//! The union pass: the trees of neighboring labeled pixels are united.
//!
//! Every pair of neighbors is examined once, by the pixel of the pair with the larger
//! flat index, which looks at the four neighbors that precede it: to its left and in
//! the row above.  A union writes the smaller of two roots into the slot of the larger.

use vstd::prelude::*;
use crate::connectivity::{
    adjacent, connected, is_component_root, is_walk, leads, lemma_connected_foreground,
    lemma_connected_step, lemma_connected_symmetric, lemma_connected_transitive,
    lemma_reaches_back, lemma_reaches_lifted, lemma_reaches_on, lemma_step_reaches, neighbor_step,
    reaches, touches,
};
use crate::dispatch::{Dispatch, Stage};
use crate::forest::{
    find_root, is_forest, is_labeled, is_root, labeled, lemma_connected_to_root,
    lemma_root_is_root, lemma_same_labeled, lemma_united, root, slot_within_component, united,
    within_components,
};
use crate::geometry::Dimensions;
use crate::invocation::{
    lemma_grid_finished, lemma_owner_exists, lemma_row_finished, lists_owned, owned_pixels, owns,
    runs_before, visited,
};
use crate::neighborhood::{lists_touching, touching_pixels};

verus! {

/// Whether two pixels hang under the same root.
pub open spec fn same_tree(slots: Seq<u32>, p: int, q: int) -> bool {
    root(slots, p) == root(slots, q)
}

/// Whether `after` keeps together every two pixels that `before` had under one root.
pub open spec fn coarser(before: Seq<u32>, after: Seq<u32>) -> bool {
    &&& after.len() == before.len()
    &&& forall|x: int, y: int|
        #![trigger same_tree(after, x, y)]
        0 <= x < before.len() && 0 <= y < before.len() && same_tree(before, x, y) ==> same_tree(
            after,
            x,
            y,
        )
}

/// Whether `p` hangs under the same root as each labeled neighbor that precedes it.
pub open spec fn joined_behind(dims: Dimensions, slots: Seq<u32>, p: int) -> bool {
    forall|q: int|
        #![trigger adjacent(dims, p, q)]
        is_labeled(slots, q) && adjacent(dims, p, q) && q < p ==> same_tree(slots, p, q)
}

/// Whether every two labeled pixels that are neighbors hang under the same root.
pub open spec fn neighbors_joined(dims: Dimensions, slots: Seq<u32>) -> bool {
    forall|p: int, q: int|
        #![trigger adjacent(dims, p, q)]
        is_labeled(slots, p) && is_labeled(slots, q) && adjacent(dims, p, q) ==> same_tree(
            slots,
            p,
            q,
        )
}

/// Whether the root of every labeled pixel is the least pixel of the pixel's component.
pub open spec fn roots_are_least(dims: Dimensions, slots: Seq<u32>) -> bool {
    forall|p: int|
        is_labeled(slots, p) ==> is_component_root(
            dims,
            labeled(slots),
            p,
            #[trigger] root(slots, p),
        )
}

/// The step between two labeled pixels that hang under one root or are neighbors.
pub open spec fn tie_step(dims: Dimensions, slots: Seq<u32>) -> spec_fn(int, int) -> bool {
    |p: int, q: int|
        is_labeled(slots, p) && is_labeled(slots, q) && (same_tree(slots, p, q) || adjacent(
            dims,
            p,
            q,
        ))
}

/// Whether a chain of labeled pixels, each under one root with the next or a neighbor of
/// it, ties `p` to `q`.  These are the pixels that a union pass has to bring together.
pub open spec fn tied(dims: Dimensions, slots: Seq<u32>, p: int, q: int) -> bool {
    reaches(tie_step(dims, slots), p, q)
}

/// Whether `after` has under one root only pixels that were tied in `before`.
pub open spec fn joins_only_tied(dims: Dimensions, before: Seq<u32>, after: Seq<u32>) -> bool {
    forall|x: int, y: int|
        #![trigger same_tree(after, x, y)]
        is_labeled(after, x) && is_labeled(after, y) && same_tree(after, x, y) ==> tied(
            dims,
            before,
            x,
            y,
        )
}

/// Whether the slot of pixel `i` is as it was, or was that of a root and now points at
/// a smaller pixel that was a root too.
pub open spec fn slot_sunk(before: Seq<u32>, after: Seq<u32>, i: int) -> bool {
    after[i] == before[i] || (is_root(before, i) && 1 <= after[i] < before[i] && is_root(
        before,
        after[i] - 1,
    ))
}

/// Whether `after` differs from `before` only where a root was hung under a smaller root.
pub open spec fn only_roots_sink(before: Seq<u32>, after: Seq<u32>) -> bool {
    &&& after.len() == before.len()
    &&& forall|i: int| 0 <= i < before.len() ==> #[trigger] slot_sunk(before, after, i)
}

/// Whether `after` can come of `before` by unions of neighbors alone: it is a forest
/// over the same pixels that keeps together what was together, differs only where a root
/// was hung under a smaller root, and has under one root only what was tied.
pub open spec fn unions_only(dims: Dimensions, before: Seq<u32>, after: Seq<u32>) -> bool {
    &&& is_forest(after)
    &&& labeled(after) == labeled(before)
    &&& coarser(before, after)
    &&& only_roots_sink(before, after)
    &&& joins_only_tied(dims, before, after)
}

/// What one invocation of the union kernel on block `(ix, iy)` may turn `before` into:
/// what comes of unions of neighbors, with every labeled pixel of the block under one
/// root with the neighbors that precede it.
pub open spec fn merged_block(
    dims: Dimensions,
    before: Seq<u32>,
    after: Seq<u32>,
    ix: int,
    iy: int,
) -> bool {
    &&& unions_only(dims, before, after)
    &&& forall|p: int|
        owns(dims, 2, ix, iy, p) && is_labeled(after, p) ==> #[trigger] joined_behind(
            dims,
            after,
            p,
        )
}

/// What the union pass may turn `before` into: what comes of unions of neighbors, with
/// every two labeled neighbors of the image under one root.
pub open spec fn merged(dims: Dimensions, before: Seq<u32>, after: Seq<u32>) -> bool {
    &&& unions_only(dims, before, after)
    &&& neighbors_joined(dims, after)
}

/// Whether pixel `p`, if invocation `j` of `order` owns it and it is labeled, hangs under
/// one root with the neighbors that precede it.
pub open spec fn visited_joined(
    dims: Dimensions,
    order: Seq<(int, int)>,
    slots: Seq<u32>,
    j: int,
    p: int,
) -> bool {
    owns(dims, 2, order[j].0, order[j].1, p) && is_labeled(slots, p) ==> joined_behind(
        dims,
        slots,
        p,
    )
}

/// Keeping together carries over two rounds.
pub proof fn lemma_coarser_chain(first: Seq<u32>, second: Seq<u32>, third: Seq<u32>)
    requires
        coarser(first, second),
        coarser(second, third),
    ensures
        coarser(first, third),
{
    assert forall|x: int, y: int|
        #![trigger same_tree(third, x, y)]
        0 <= x < first.len() && 0 <= y < first.len() && same_tree(first, x, y) implies same_tree(
        third,
        x,
        y,
    ) by {
        assert(same_tree(second, x, y));
    }
}

/// A union keeps together what was together.
pub proof fn lemma_united_coarser(slots: Seq<u32>, a: int, b: int)
    requires
        is_forest(slots),
        is_labeled(slots, a),
        is_labeled(slots, b),
    ensures
        coarser(slots, united(slots, a, b)),
        same_tree(united(slots, a, b), a, b),
{
    lemma_united(slots, a, b);
    let after = united(slots, a, b);
    assert forall|x: int, y: int|
        #![trigger same_tree(after, x, y)]
        0 <= x < slots.len() && 0 <= y < slots.len() && same_tree(slots, x, y) implies same_tree(
        after,
        x,
        y,
    ) by {
        assert(root(after, x) == root(after, y));
    }
}

/// A union of two connected pixels keeps every pointer inside its component.
pub proof fn lemma_united_within_components(dims: Dimensions, slots: Seq<u32>, a: int, b: int)
    requires
        is_forest(slots),
        within_components(dims, slots),
        is_labeled(slots, a),
        is_labeled(slots, b),
        connected(dims, labeled(slots), a, b),
    ensures
        within_components(dims, united(slots, a, b)),
{
    lemma_united(slots, a, b);
    lemma_root_is_root(slots, a);
    lemma_root_is_root(slots, b);
    let fg = labeled(slots);
    let after = united(slots, a, b);
    let ra = root(slots, a);
    let rb = root(slots, b);
    lemma_connected_to_root(dims, slots, a);
    lemma_connected_to_root(dims, slots, b);
    lemma_connected_symmetric(dims, fg, a, ra);
    lemma_connected_transitive(dims, fg, ra, a, b);
    lemma_connected_transitive(dims, fg, ra, b, rb);
    lemma_connected_symmetric(dims, fg, ra, rb);
    assert forall|i: int| 0 <= i < after.len() implies #[trigger] slot_within_component(
        dims,
        after,
        i,
    ) by {
        assert(slot_within_component(dims, slots, i));
    }
}

proof fn lemma_walk_same_tree(dims: Dimensions, slots: Seq<u32>, walk: Seq<int>, k: int)
    requires
        neighbors_joined(dims, slots),
        is_walk(neighbor_step(dims, labeled(slots)), walk),
        0 <= k < walk.len(),
    ensures
        same_tree(slots, walk[0], walk[k]),
    decreases k,
{
    if k > 0 {
        let step = neighbor_step(dims, labeled(slots));
        lemma_walk_same_tree(dims, slots, walk, k - 1);
        assert(step(walk[k - 1], walk[k - 1 + 1]));
        assert(adjacent(dims, walk[k - 1], walk[k]));
    }
}

/// Once neighbors are joined and pointers stay inside components, the root of a pixel is
/// the least pixel of its component: connected pixels share it, and no others do.
pub proof fn lemma_roots_are_least(dims: Dimensions, slots: Seq<u32>)
    requires
        is_forest(slots),
        within_components(dims, slots),
        neighbors_joined(dims, slots),
    ensures
        roots_are_least(dims, slots),
{
    let fg = labeled(slots);
    assert forall|p: int| is_labeled(slots, p) implies is_component_root(
        dims,
        fg,
        p,
        #[trigger] root(slots, p),
    ) by {
        lemma_connected_to_root(dims, slots, p);
        assert forall|q: int| #[trigger] connected(dims, fg, p, q) implies root(slots, p) <= q by {
            let walk = choose|walk: Seq<int>| leads(neighbor_step(dims, fg), walk, p, q);
            lemma_walk_same_tree(dims, slots, walk, walk.len() - 1);
            lemma_connected_foreground(dims, fg, p, q);
            lemma_root_is_root(slots, q);
        }
    }
}

/// Sinking carries over two rounds: a root that sank twice was a root at the start.
pub proof fn lemma_sink_chain(first: Seq<u32>, second: Seq<u32>, third: Seq<u32>)
    requires
        only_roots_sink(first, second),
        only_roots_sink(second, third),
    ensures
        only_roots_sink(first, third),
{
    assert forall|i: int| 0 <= i < first.len() implies #[trigger] slot_sunk(first, third, i) by {
        assert(slot_sunk(first, second, i));
        assert(slot_sunk(second, third, i));
        if third[i] != second[i] {
            assert(slot_sunk(first, second, third[i] - 1));
        }
    }
}

/// A union changes at most the slot of one root, which it hangs under a smaller root.
pub proof fn lemma_united_sinks(slots: Seq<u32>, a: int, b: int)
    requires
        is_forest(slots),
        is_labeled(slots, a),
        is_labeled(slots, b),
    ensures
        only_roots_sink(slots, united(slots, a, b)),
{
    lemma_root_is_root(slots, a);
    lemma_root_is_root(slots, b);
    let after = united(slots, a, b);
    assert forall|i: int| 0 <= i < slots.len() implies #[trigger] slot_sunk(slots, after, i) by {}
}

/// Pixels under one root are tied.
pub proof fn lemma_same_tree_tied(dims: Dimensions, slots: Seq<u32>, p: int, q: int)
    requires
        is_labeled(slots, p),
        is_labeled(slots, q),
        same_tree(slots, p, q),
    ensures
        tied(dims, slots, p, q),
{
    lemma_step_reaches(tie_step(dims, slots), p, q);
}

/// A forest has under one root only what it ties itself.
pub proof fn lemma_joins_only_tied_start(dims: Dimensions, slots: Seq<u32>)
    ensures
        joins_only_tied(dims, slots, slots),
{
    assert forall|x: int, y: int|
        #![trigger same_tree(slots, x, y)]
        is_labeled(slots, x) && is_labeled(slots, y) && same_tree(slots, x, y) implies tied(
        dims,
        slots,
        x,
        y,
    ) by {
        lemma_same_tree_tied(dims, slots, x, y);
    }
}

proof fn lemma_tied_back(dims: Dimensions, slots: Seq<u32>, p: int, q: int)
    requires
        tied(dims, slots, p, q),
    ensures
        tied(dims, slots, q, p),
{
    let step = tie_step(dims, slots);
    assert forall|a: int, b: int| #[trigger] step(a, b) implies step(b, a) by {}
    lemma_reaches_back(step, p, q);
}

/// A union of two neighbors brings together only pixels that were tied.
pub proof fn lemma_united_joins_only_tied(
    dims: Dimensions,
    before: Seq<u32>,
    current: Seq<u32>,
    p: int,
    q: int,
)
    requires
        is_forest(current),
        current.len() == before.len(),
        labeled(current) == labeled(before),
        joins_only_tied(dims, before, current),
        is_labeled(current, p),
        is_labeled(current, q),
        adjacent(dims, p, q),
    ensures
        joins_only_tied(dims, before, united(current, p, q)),
{
    lemma_united(current, p, q);
    let after = united(current, p, q);
    let step = tie_step(dims, before);
    lemma_same_labeled(current, before, p);
    lemma_same_labeled(current, before, q);
    assert(step(p, q));
    lemma_step_reaches(step, p, q);
    lemma_tied_back(dims, before, p, q);
    assert forall|x: int, y: int|
        #![trigger same_tree(after, x, y)]
        is_labeled(after, x) && is_labeled(after, y) && same_tree(after, x, y) implies tied(
        dims,
        before,
        x,
        y,
    ) by {
        lemma_same_labeled(after, current, x);
        lemma_same_labeled(after, current, y);
        assert(root(after, x) == root(after, y));
        if same_tree(current, x, y) {
        } else {
            // One of the two sat under the root of `p`, the other under the root of `q`.
            if same_tree(current, x, p) {
                assert(same_tree(current, q, y));
                lemma_reaches_on(step, x, p, q);
                lemma_reaches_on(step, x, q, y);
            } else {
                assert(same_tree(current, x, q));
                assert(same_tree(current, p, y));
                lemma_reaches_on(step, x, q, p);
                lemma_reaches_on(step, x, p, y);
            }
        }
    }
}

/// What was brought together in two rounds was tied before the first.
pub proof fn lemma_joins_only_tied_chain(
    dims: Dimensions,
    first: Seq<u32>,
    second: Seq<u32>,
    third: Seq<u32>,
)
    requires
        first.len() == second.len(),
        second.len() == third.len(),
        labeled(second) == labeled(first),
        labeled(third) == labeled(second),
        joins_only_tied(dims, first, second),
        joins_only_tied(dims, second, third),
    ensures
        joins_only_tied(dims, first, third),
{
    let fine = tie_step(dims, second);
    let coarse = tie_step(dims, first);
    assert forall|a: int, b: int| #[trigger] fine(a, b) implies reaches(coarse, a, b) by {
        lemma_same_labeled(second, first, a);
        lemma_same_labeled(second, first, b);
        if same_tree(second, a, b) {
            assert(tied(dims, first, a, b));
        } else {
            assert(coarse(a, b));
            lemma_step_reaches(coarse, a, b);
        }
    }
    assert forall|x: int, y: int|
        #![trigger same_tree(third, x, y)]
        is_labeled(third, x) && is_labeled(third, y) && same_tree(third, x, y) implies tied(
        dims,
        first,
        x,
        y,
    ) by {
        lemma_same_labeled(third, second, x);
        lemma_same_labeled(third, second, y);
        assert(tied(dims, second, x, y));
        lemma_reaches_lifted(fine, coarse, x, y);
    }
}

/// Doing nothing is a way of uniting neighbors.
pub proof fn lemma_unions_only_start(dims: Dimensions, slots: Seq<u32>)
    requires
        is_forest(slots),
    ensures
        unions_only(dims, slots, slots),
{
    lemma_joins_only_tied_start(dims, slots);
    assert forall|i: int| 0 <= i < slots.len() implies #[trigger] slot_sunk(slots, slots, i) by {}
}

/// Unions of neighbors after unions of neighbors are unions of neighbors.
pub proof fn lemma_unions_only_chain(
    dims: Dimensions,
    first: Seq<u32>,
    second: Seq<u32>,
    third: Seq<u32>,
)
    requires
        unions_only(dims, first, second),
        unions_only(dims, second, third),
    ensures
        unions_only(dims, first, third),
{
    lemma_coarser_chain(first, second, third);
    lemma_sink_chain(first, second, third);
    lemma_joins_only_tied_chain(dims, first, second, third);
}

/// The union of two labeled neighbors is a union of neighbors.
pub proof fn lemma_united_unions_only(dims: Dimensions, slots: Seq<u32>, p: int, q: int)
    requires
        is_forest(slots),
        is_labeled(slots, p),
        is_labeled(slots, q),
        adjacent(dims, p, q),
    ensures
        unions_only(dims, slots, united(slots, p, q)),
        same_tree(united(slots, p, q), p, q),
{
    lemma_united(slots, p, q);
    lemma_united_coarser(slots, p, q);
    lemma_united_sinks(slots, p, q);
    lemma_joins_only_tied_start(dims, slots);
    lemma_united_joins_only_tied(dims, slots, slots, p, q);
}

/// Unions of neighbors leave a pixel under one root with the neighbors it was under one
/// root with.
pub proof fn lemma_joined_behind_kept(
    dims: Dimensions,
    before: Seq<u32>,
    after: Seq<u32>,
    p: int,
)
    requires
        coarser(before, after),
        labeled(after) == labeled(before),
        0 <= p < before.len(),
        joined_behind(dims, before, p),
    ensures
        joined_behind(dims, after, p),
{
    assert forall|q: int|
        #![trigger adjacent(dims, p, q)]
        is_labeled(after, q) && adjacent(dims, p, q) && q < p implies same_tree(after, p, q) by {
        lemma_same_labeled(after, before, q);
        assert(same_tree(before, p, q));
    }
}

proof fn lemma_tie_walk_joined(
    dims: Dimensions,
    before: Seq<u32>,
    after: Seq<u32>,
    walk: Seq<int>,
    k: int,
)
    requires
        coarser(before, after),
        labeled(after) == labeled(before),
        neighbors_joined(dims, after),
        is_walk(tie_step(dims, before), walk),
        0 <= k < walk.len(),
    ensures
        same_tree(after, walk[0], walk[k]),
    decreases k,
{
    if k > 0 {
        let step = tie_step(dims, before);
        lemma_tie_walk_joined(dims, before, after, walk, k - 1);
        let (a, b) = (walk[k - 1], walk[k]);
        assert(step(walk[k - 1], walk[k - 1 + 1]));
        lemma_same_labeled(after, before, a);
        lemma_same_labeled(after, before, b);
        if same_tree(before, a, b) {
            assert(same_tree(after, a, b));
        } else {
            assert(adjacent(dims, a, b));
        }
    }
}

/// What a union pass brings together: two labeled pixels hang under one root after the
/// pass exactly when a chain of neighbors and of pixels under one root tied them before.
pub proof fn lemma_joined_exactly_tied(
    dims: Dimensions,
    before: Seq<u32>,
    after: Seq<u32>,
    p: int,
    q: int,
)
    requires
        merged(dims, before, after),
        is_labeled(before, p),
        is_labeled(before, q),
    ensures
        same_tree(after, p, q) <==> tied(dims, before, p, q),
{
    lemma_same_labeled(after, before, p);
    lemma_same_labeled(after, before, q);
    if tied(dims, before, p, q) {
        let walk = choose|walk: Seq<int>| leads(tie_step(dims, before), walk, p, q);
        lemma_tie_walk_joined(dims, before, after, walk, walk.len() - 1);
    }
    if same_tree(after, p, q) {
        assert(tied(dims, before, p, q));
    }
}

/// The roots that a union pass leaves do not depend on the order in which the unions
/// were made: two forests that the pass could have left give every labeled pixel the
/// same root.
pub proof fn lemma_union_outcome_unique(
    dims: Dimensions,
    before: Seq<u32>,
    first: Seq<u32>,
    second: Seq<u32>,
    p: int,
)
    requires
        merged(dims, before, first),
        merged(dims, before, second),
        is_labeled(before, p),
    ensures
        root(first, p) == root(second, p),
{
    lemma_same_labeled(first, before, p);
    lemma_same_labeled(second, before, p);
    lemma_root_is_root(first, p);
    lemma_root_is_root(second, p);
    let r1 = root(first, p);
    let r2 = root(second, p);
    lemma_same_labeled(first, before, r1);
    lemma_same_labeled(second, before, r1);
    lemma_same_labeled(first, before, r2);
    lemma_same_labeled(second, before, r2);
    assert(same_tree(first, p, r1));
    assert(same_tree(second, p, r2));
    lemma_joined_exactly_tied(dims, before, first, p, r1);
    lemma_joined_exactly_tied(dims, before, second, p, r1);
    lemma_joined_exactly_tied(dims, before, first, p, r2);
    lemma_joined_exactly_tied(dims, before, second, p, r2);
    lemma_root_is_root(second, r1);
    lemma_root_is_root(first, r2);
}

/// The blocks may be taken in any order, and more than once: whenever a sequence of
/// invocations visits every block of the image, the forests it passes through end in one
/// that the union pass could have left.
pub proof fn lemma_merge_in_any_order(
    dims: Dimensions,
    states: Seq<Seq<u32>>,
    order: Seq<(int, int)>,
)
    requires
        states.len() == order.len() + 1,
        states[0].len() == dims.pixel_count(),
        is_forest(states[0]),
        forall|j: int|
            0 <= j < order.len() ==> merged_block(
                dims,
                #[trigger] states[j],
                states[j + 1],
                order[j].0,
                order[j].1,
            ),
        forall|p: int| 0 <= p < dims.pixel_count() ==> #[trigger] visited(dims, order, p),
    ensures
        merged(dims, states[0], states[order.len() as int]),
{
    let last = states[order.len() as int];
    lemma_any_order_prefix(dims, states, order, order.len() as int);
    assert forall|p: int, q: int|
        #![trigger adjacent(dims, p, q)]
        is_labeled(last, p) && is_labeled(last, q) && adjacent(dims, p, q) implies same_tree(
        last,
        p,
        q,
    ) by {
        assert(visited(dims, order, p));
        assert(visited(dims, order, q));
        let jp = choose|j: int|
            0 <= j < order.len() && #[trigger] owns(dims, 2, order[j].0, order[j].1, p);
        let jq = choose|j: int|
            0 <= j < order.len() && #[trigger] owns(dims, 2, order[j].0, order[j].1, q);
        assert(visited_joined(dims, order, last, jp, p));
        assert(visited_joined(dims, order, last, jq, q));
        if q < p {
            assert(adjacent(dims, p, q));
        } else {
            assert(adjacent(dims, q, p));
        }
    }
}

proof fn lemma_any_order_prefix(
    dims: Dimensions,
    states: Seq<Seq<u32>>,
    order: Seq<(int, int)>,
    k: int,
)
    requires
        states.len() == order.len() + 1,
        states[0].len() == dims.pixel_count(),
        is_forest(states[0]),
        0 <= k <= order.len(),
        forall|j: int|
            0 <= j < order.len() ==> merged_block(
                dims,
                #[trigger] states[j],
                states[j + 1],
                order[j].0,
                order[j].1,
            ),
    ensures
        unions_only(dims, states[0], states[k]),
        forall|j: int, p: int|
            0 <= j < k ==> #[trigger] visited_joined(dims, order, states[k], j, p),
    decreases k,
{
    let start = states[0];
    if k == 0 {
        lemma_unions_only_start(dims, start);
    } else {
        lemma_any_order_prefix(dims, states, order, k - 1);
        let current = states[k - 1];
        let next = states[k];
        let (ix, iy) = order[k - 1];
        assert(merged_block(dims, states[k - 1], states[k - 1 + 1], ix, iy));
        lemma_unions_only_chain(dims, start, current, next);
        assert forall|j: int, p: int| 0 <= j < k implies #[trigger] visited_joined(
            dims,
            order,
            next,
            j,
            p,
        ) by {
            if owns(dims, 2, order[j].0, order[j].1, p) && is_labeled(next, p) {
                lemma_same_labeled(next, current, p);
                if j < k - 1 {
                    assert(visited_joined(dims, order, current, j, p));
                    lemma_joined_behind_kept(dims, current, next, p);
                } else {
                    assert(joined_behind(dims, next, p));
                }
            }
        }
    }
}

/// Unites the trees of two labeled pixels: the larger root is made to point at the smaller.
pub fn unite(labels: &mut Vec<u32>, a: usize, b: usize)
    requires
        is_forest(old(labels)@),
        is_labeled(old(labels)@, a as int),
        is_labeled(old(labels)@, b as int),
    ensures
        final(labels)@ == united(old(labels)@, a as int, b as int),
{
    let root_a: usize = find_root(labels, a);
    let root_b: usize = find_root(labels, b);
    if root_a < root_b {
        let pointer: u32 = labels[root_a];
        labels.set(root_b, pointer);
    } else if root_b < root_a {
        let pointer: u32 = labels[root_b];
        labels.set(root_a, pointer);
    }
}

/// Unites the labeled pixel `p` with each labeled neighbor that precedes it: to its left
/// and in the row above.
pub fn unite_behind(labels: &mut Vec<u32>, dims: &Dimensions, p: usize)
    requires
        old(labels).len() == dims.pixel_count(),
        is_forest(old(labels)@),
        is_labeled(old(labels)@, p as int),
    ensures
        unions_only(*dims, old(labels)@, final(labels)@),
        joined_behind(*dims, final(labels)@, p as int),
        within_components(*dims, old(labels)@) ==> within_components(*dims, final(labels)@),
{
    let ghost before = labels@;
    let around: Vec<usize> = touching_pixels(dims, p);
    let mut m: usize = 0;
    proof {
        lemma_unions_only_start(*dims, before);
    }
    while m < around.len()
        invariant
            m <= around.len(),
            before.len() == dims.pixel_count(),
            is_labeled(before, p as int),
            unions_only(*dims, before, labels@),
            within_components(*dims, before) ==> within_components(*dims, labels@),
            lists_touching(*dims, p as int, around@),
            forall|i: int|
                0 <= i < m && is_labeled(labels@, around[i] as int) && around[i] < p ==> same_tree(
                    labels@,
                    p as int,
                    #[trigger] around[i] as int,
                ),
        decreases around.len() - m,
    {
        let q: usize = around[m];
        let ghost current = labels@;
        proof {
            assert(touches(*dims, p as int, around[m as int] as int));
            lemma_same_labeled(current, before, p as int);
        }
        if q < p && labels[q] != 0 {
            unite(labels, p, q);
            proof {
                lemma_united_unions_only(*dims, current, p as int, q as int);
                lemma_unions_only_chain(*dims, before, current, labels@);
                if within_components(*dims, before) {
                    assert(labeled(current)[p as int] && labeled(current)[q as int]);
                    lemma_connected_step(*dims, labeled(current), p as int, q as int);
                    lemma_united_within_components(*dims, current, p as int, q as int);
                }
                assert forall|i: int|
                    0 <= i < m + 1 && is_labeled(labels@, around[i] as int) && around[i]
                        < p implies same_tree(labels@, p as int, #[trigger] around[i] as int) by {
                    lemma_same_labeled(labels@, current, around[i] as int);
                    if i < m {
                        assert(same_tree(current, p as int, around[i] as int));
                    }
                }
            }
        }
        m = m + 1;
    }
    proof {
        assert forall|q: int|
            #![trigger adjacent(*dims, p as int, q)]
            is_labeled(labels@, q) && adjacent(*dims, p as int, q) && q < p implies same_tree(
            labels@,
            p as int,
            q,
        ) by {
            assert(touches(*dims, p as int, q));
            let i = choose|i: int| 0 <= i < around.len() && #[trigger] around[i] == q;
            assert(same_tree(labels@, p as int, around[i] as int));
        }
    }
}

/// One invocation of the union kernel: unites every labeled pixel of block `(ix, iy)`
/// with each labeled neighbor that precedes it.
pub fn merge_invocation(labels: &mut Vec<u32>, dims: &Dimensions, ix: u64, iy: u64)
    requires
        old(labels).len() == dims.pixel_count(),
        is_forest(old(labels)@),
    ensures
        merged_block(*dims, old(labels)@, final(labels)@, ix as int, iy as int),
        within_components(*dims, old(labels)@) ==> within_components(*dims, final(labels)@),
{
    let ghost before = labels@;
    let pixels: Vec<usize> = owned_pixels(dims, Stage::Merge, ix, iy);
    let mut k: usize = 0;
    proof {
        lemma_unions_only_start(*dims, before);
    }
    while k < pixels.len()
        invariant
            k <= pixels.len(),
            before.len() == dims.pixel_count(),
            lists_owned(*dims, 2, ix as int, iy as int, pixels@),
            unions_only(*dims, before, labels@),
            within_components(*dims, before) ==> within_components(*dims, labels@),
            forall|j: int|
                0 <= j < k && is_labeled(labels@, pixels[j] as int) ==> #[trigger] joined_behind(
                    *dims,
                    labels@,
                    pixels[j] as int,
                ),
        decreases pixels.len() - k,
    {
        let p: usize = pixels[k];
        let ghost current = labels@;
        assert(owns(*dims, 2, ix as int, iy as int, pixels[k as int] as int));
        if labels[p] != 0 {
            unite_behind(labels, dims, p);
            proof {
                lemma_unions_only_chain(*dims, before, current, labels@);
                assert forall|j: int|
                    0 <= j < k && is_labeled(
                        labels@,
                        pixels[j] as int,
                    ) implies #[trigger] joined_behind(*dims, labels@, pixels[j] as int) by {
                    lemma_same_labeled(labels@, current, pixels[j] as int);
                    assert(joined_behind(*dims, current, pixels[j] as int));
                    lemma_joined_behind_kept(*dims, current, labels@, pixels[j] as int);
                }
            }
        }
        k = k + 1;
    }
    proof {
        assert forall|p: int|
            owns(*dims, 2, ix as int, iy as int, p) && is_labeled(
                labels@,
                p,
            ) implies #[trigger] joined_behind(*dims, labels@, p) by {
            let j = choose|j: int| 0 <= j < pixels.len() && #[trigger] pixels[j] == p;
            assert(joined_behind(*dims, labels@, pixels[j] as int));
        }
    }
}

/// The union pass.  It runs the kernel once for every block of the planned grid.  After
/// it every two labeled neighbors hang under one root, nothing that was together has come
/// apart, and nothing is together that neighbors did not tie.  If the pointers stayed
/// inside components before, they still do, and the root of every labeled pixel is then
/// the least pixel of its component.
pub fn merge(labels: &mut Vec<u32>, dims: &Dimensions)
    requires
        old(labels).len() == dims.pixel_count(),
        is_forest(old(labels)@),
    ensures
        merged(*dims, old(labels)@, final(labels)@),
        within_components(*dims, old(labels)@) ==> within_components(*dims, final(labels)@)
            && roots_are_least(*dims, final(labels)@),
{
    let ghost before = labels@;
    let grid: Dispatch = Dispatch::for_stage(Stage::Merge, dims);
    let across: u64 = grid.across();
    let down: u64 = grid.down();
    let mut iy: u64 = 0;
    proof {
        assert forall|p: int| 0 <= p < before.len() implies !runs_before(*dims, 2, 0, 0, p) by {
            lemma_owner_exists(*dims, 2, p);
        }
        lemma_unions_only_start(*dims, before);
    }
    while iy < down
        invariant
            iy <= down,
            across == Dispatch::planned(Stage::Merge, *dims).invocations_x(),
            down == Dispatch::planned(Stage::Merge, *dims).invocations_y(),
            before.len() == dims.pixel_count(),
            unions_only(*dims, before, labels@),
            within_components(*dims, before) ==> within_components(*dims, labels@),
            forall|p: int|
                runs_before(*dims, 2, 0, iy as int, p) && is_labeled(labels@, p)
                    ==> #[trigger] joined_behind(*dims, labels@, p),
        decreases down - iy,
    {
        let mut ix: u64 = 0;
        while ix < across
            invariant
                ix <= across,
                iy < down,
                across == Dispatch::planned(Stage::Merge, *dims).invocations_x(),
                before.len() == dims.pixel_count(),
                unions_only(*dims, before, labels@),
                within_components(*dims, before) ==> within_components(*dims, labels@),
                forall|p: int|
                    runs_before(*dims, 2, ix as int, iy as int, p) && is_labeled(labels@, p)
                        ==> #[trigger] joined_behind(*dims, labels@, p),
            decreases across - ix,
        {
            let ghost current = labels@;
            proof {
                lemma_same_length(before, current);
            }
            merge_invocation(labels, dims, ix, iy);
            proof {
                lemma_unions_only_chain(*dims, before, current, labels@);
                assert forall|p: int|
                    runs_before(*dims, 2, ix + 1, iy as int, p) && is_labeled(
                        labels@,
                        p,
                    ) implies #[trigger] joined_behind(*dims, labels@, p) by {
                    lemma_same_labeled(labels@, current, p);
                    if runs_before(*dims, 2, ix as int, iy as int, p) {
                        assert(joined_behind(*dims, current, p));
                        lemma_joined_behind_kept(*dims, current, labels@, p);
                    } else {
                        assert(owns(*dims, 2, ix as int, iy as int, p));
                    }
                }
            }
            ix = ix + 1;
        }
        proof {
            assert forall|p: int|
                runs_before(*dims, 2, 0, iy + 1, p) && is_labeled(
                    labels@,
                    p,
                ) implies #[trigger] joined_behind(*dims, labels@, p) by {
                lemma_row_finished(Stage::Merge, *dims, iy as int, p);
            }
        }
        iy = iy + 1;
    }
    proof {
        assert forall|p: int, q: int|
            #![trigger adjacent(*dims, p, q)]
            is_labeled(labels@, p) && is_labeled(labels@, q) && adjacent(
                *dims,
                p,
                q,
            ) implies same_tree(labels@, p, q) by {
            lemma_grid_finished(Stage::Merge, *dims, p);
            lemma_grid_finished(Stage::Merge, *dims, q);
            assert(joined_behind(*dims, labels@, p));
            assert(joined_behind(*dims, labels@, q));
            if q < p {
                assert(adjacent(*dims, p, q));
            } else {
                assert(adjacent(*dims, q, p));
            }
        }
        if within_components(*dims, before) {
            lemma_roots_are_least(*dims, labels@);
        }
    }
}

proof fn lemma_same_length(before: Seq<u32>, after: Seq<u32>)
    requires
        labeled(after) == labeled(before),
    ensures
        after.len() == before.len(),
{
    assert(labeled(after).len() == after.len());
    assert(labeled(before).len() == before.len());
}

} // verus!
