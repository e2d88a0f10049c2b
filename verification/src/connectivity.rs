//! What it means for two pixels to belong to one component, and what a correct labeling is.

use vstd::prelude::*;
use crate::geometry::Dimensions;

verus! {

/// Whether `p` and `q` are pixels of the image whose columns and rows each differ by at
/// most one.  A pixel touches itself.
pub open spec fn touches(dims: Dimensions, p: int, q: int) -> bool {
    &&& 0 <= p < dims.pixel_count()
    &&& 0 <= q < dims.pixel_count()
    &&& -1 <= dims.x_of(p) - dims.x_of(q) <= 1
    &&& -1 <= dims.y_of(p) - dims.y_of(q) <= 1
}

/// Whether `p` and `q` are distinct pixels that share an edge or a corner, so that each
/// is one of the eight neighbors of the other.
pub open spec fn adjacent(dims: Dimensions, p: int, q: int) -> bool {
    touches(dims, p, q) && p != q
}

/// Whether `p` is a pixel that the mask marks as foreground.
pub open spec fn is_foreground(fg: Seq<bool>, p: int) -> bool {
    0 <= p < fg.len() && fg[p]
}

/// Whether `walk` is a sequence of pixels in which each is related to the next by `step`.
pub open spec fn is_walk(step: spec_fn(int, int) -> bool, walk: Seq<int>) -> bool {
    &&& walk.len() > 0
    &&& forall|i: int| 0 <= i < walk.len() - 1 ==> step(#[trigger] walk[i], walk[i + 1])
}

/// Whether `walk` leads from `p` to `q`.
pub open spec fn leads(step: spec_fn(int, int) -> bool, walk: Seq<int>, p: int, q: int) -> bool {
    is_walk(step, walk) && walk[0] == p && walk[walk.len() - 1] == q
}

/// Whether `q` can be reached from `p` in any number of steps, none included.
pub open spec fn reaches(step: spec_fn(int, int) -> bool, p: int, q: int) -> bool {
    exists|walk: Seq<int>| leads(step, walk, p, q)
}

/// The step between two foreground pixels that are neighbors.
pub open spec fn neighbor_step(dims: Dimensions, fg: Seq<bool>) -> spec_fn(int, int) -> bool {
    |p: int, q: int| is_foreground(fg, p) && is_foreground(fg, q) && adjacent(dims, p, q)
}

/// Whether a walk over neighboring foreground pixels leads from the foreground pixel `p`
/// to `q`: the two then belong to one component.
pub open spec fn connected(dims: Dimensions, fg: Seq<bool>, p: int, q: int) -> bool {
    is_foreground(fg, p) && reaches(neighbor_step(dims, fg), p, q)
}

/// Whether `r` is the pixel of least flat index in the component of `p`.
pub open spec fn is_component_root(dims: Dimensions, fg: Seq<bool>, p: int, r: int) -> bool {
    &&& connected(dims, fg, p, r)
    &&& forall|q: int| #[trigger] connected(dims, fg, p, q) ==> r <= q
}

/// Whether `label` is what pixel `p` must carry: zero on the background, and on the
/// foreground one more than the least flat index of the pixel's component.
pub open spec fn is_label_of(dims: Dimensions, fg: Seq<bool>, p: int, label: u32) -> bool {
    if fg[p] {
        label >= 1 && is_component_root(dims, fg, p, label - 1)
    } else {
        label == 0
    }
}

/// Whether `labels` is the labeling of the image with foreground mask `fg`.
pub open spec fn is_labeling(dims: Dimensions, fg: Seq<bool>, labels: Seq<u32>) -> bool {
    &&& fg.len() == dims.pixel_count()
    &&& labels.len() == dims.pixel_count()
    &&& forall|p: int| 0 <= p < labels.len() ==> is_label_of(dims, fg, p, #[trigger] labels[p])
}

/// Every pixel reaches itself.
pub proof fn lemma_reaches_itself(step: spec_fn(int, int) -> bool, p: int)
    ensures
        reaches(step, p, p),
{
    assert(leads(step, seq![p], p, p));
}

/// A step reaches.
pub proof fn lemma_step_reaches(step: spec_fn(int, int) -> bool, p: int, q: int)
    requires
        step(p, q),
    ensures
        reaches(step, p, q),
{
    assert(leads(step, seq![p, q], p, q));
}

/// Where every step can be taken backwards, so can every walk.
pub proof fn lemma_reaches_back(step: spec_fn(int, int) -> bool, p: int, q: int)
    requires
        reaches(step, p, q),
        forall|a: int, b: int| #[trigger] step(a, b) ==> step(b, a),
    ensures
        reaches(step, q, p),
{
    let walk = choose|walk: Seq<int>| leads(step, walk, p, q);
    let n = walk.len() as int;
    let back = Seq::new(walk.len(), |i: int| walk[n - 1 - i]);
    assert forall|i: int| 0 <= i < back.len() - 1 implies step(#[trigger] back[i], back[i + 1]) by {
        assert(step(walk[n - 2 - i], walk[n - 2 - i + 1]));
    }
    assert(leads(step, back, q, p));
}

/// Two walks that meet make one walk.
pub proof fn lemma_reaches_on(step: spec_fn(int, int) -> bool, p: int, m: int, q: int)
    requires
        reaches(step, p, m),
        reaches(step, m, q),
    ensures
        reaches(step, p, q),
{
    let first = choose|walk: Seq<int>| leads(step, walk, p, m);
    let second = choose|walk: Seq<int>| leads(step, walk, m, q);
    let a = first.len() as int;
    let whole = first + second.subrange(1, second.len() as int);
    assert forall|i: int| 0 <= i < whole.len() - 1 implies step(
        #[trigger] whole[i],
        whole[i + 1],
    ) by {
        if i < a - 1 {
            assert(step(first[i], first[i + 1]));
        } else if i == a - 1 {
            assert(step(second[0], second[1]));
        } else {
            assert(step(second[i - a + 1], second[i - a + 1 + 1]));
        }
    }
    assert(leads(step, whole, p, q));
}

/// If every step of one relation can be walked in another, so can every walk.
pub proof fn lemma_reaches_lifted(
    fine: spec_fn(int, int) -> bool,
    coarse: spec_fn(int, int) -> bool,
    p: int,
    q: int,
)
    requires
        reaches(fine, p, q),
        forall|a: int, b: int| #[trigger] fine(a, b) ==> reaches(coarse, a, b),
    ensures
        reaches(coarse, p, q),
{
    let walk = choose|walk: Seq<int>| leads(fine, walk, p, q);
    lemma_walk_lifted(fine, coarse, walk, walk.len() - 1);
}

proof fn lemma_walk_lifted(
    fine: spec_fn(int, int) -> bool,
    coarse: spec_fn(int, int) -> bool,
    walk: Seq<int>,
    k: int,
)
    requires
        is_walk(fine, walk),
        0 <= k < walk.len(),
        forall|a: int, b: int| #[trigger] fine(a, b) ==> reaches(coarse, a, b),
    ensures
        reaches(coarse, walk[0], walk[k]),
    decreases k,
{
    if k == 0 {
        lemma_reaches_itself(coarse, walk[0]);
    } else {
        lemma_walk_lifted(fine, coarse, walk, k - 1);
        assert(fine(walk[k - 1], walk[k - 1 + 1]));
        lemma_reaches_on(coarse, walk[0], walk[k - 1], walk[k]);
    }
}

/// Every foreground pixel is connected to itself.
pub proof fn lemma_connected_reflexive(dims: Dimensions, fg: Seq<bool>, p: int)
    requires
        is_foreground(fg, p),
    ensures
        connected(dims, fg, p, p),
{
    lemma_reaches_itself(neighbor_step(dims, fg), p);
}

/// Foreground pixels that touch are connected.
pub proof fn lemma_connected_step(dims: Dimensions, fg: Seq<bool>, p: int, q: int)
    requires
        is_foreground(fg, p),
        is_foreground(fg, q),
        touches(dims, p, q),
    ensures
        connected(dims, fg, p, q),
{
    if p == q {
        lemma_connected_reflexive(dims, fg, p);
    } else {
        lemma_step_reaches(neighbor_step(dims, fg), p, q);
    }
}

/// Only foreground pixels are connected to anything.
pub proof fn lemma_connected_foreground(dims: Dimensions, fg: Seq<bool>, p: int, q: int)
    requires
        connected(dims, fg, p, q),
    ensures
        is_foreground(fg, p),
        is_foreground(fg, q),
{
    let step = neighbor_step(dims, fg);
    let walk = choose|walk: Seq<int>| leads(step, walk, p, q);
    if walk.len() > 1 {
        assert(step(walk[walk.len() - 2], walk[walk.len() - 2 + 1]));
    }
}

/// A walk taken backwards connects as well.
pub proof fn lemma_connected_symmetric(dims: Dimensions, fg: Seq<bool>, p: int, q: int)
    requires
        connected(dims, fg, p, q),
    ensures
        connected(dims, fg, q, p),
{
    lemma_connected_foreground(dims, fg, p, q);
    lemma_reaches_back(neighbor_step(dims, fg), p, q);
}

/// Pixels connected to a common pixel are connected.
pub proof fn lemma_connected_transitive(dims: Dimensions, fg: Seq<bool>, p: int, m: int, q: int)
    requires
        connected(dims, fg, p, m),
        connected(dims, fg, m, q),
    ensures
        connected(dims, fg, p, q),
{
    lemma_reaches_on(neighbor_step(dims, fg), p, m, q);
}

/// A component has one least pixel.
pub proof fn lemma_component_root_unique(
    dims: Dimensions,
    fg: Seq<bool>,
    p: int,
    r1: int,
    r2: int,
)
    requires
        is_component_root(dims, fg, p, r1),
        is_component_root(dims, fg, p, r2),
    ensures
        r1 == r2,
{
}

/// Connected pixels have the same least pixel.
pub proof fn lemma_component_root_shared(dims: Dimensions, fg: Seq<bool>, p: int, q: int, r: int)
    requires
        connected(dims, fg, p, q),
        is_component_root(dims, fg, p, r),
    ensures
        is_component_root(dims, fg, q, r),
{
    lemma_connected_symmetric(dims, fg, p, q);
    lemma_connected_transitive(dims, fg, q, p, r);
    assert forall|t: int| #[trigger] connected(dims, fg, q, t) implies r <= t by {
        lemma_connected_transitive(dims, fg, p, q, t);
    }
}

/// In a labeling, foreground pixels that are connected, directly or through others,
/// carry the same label.
pub proof fn lemma_connected_pixels_share_label(
    dims: Dimensions,
    fg: Seq<bool>,
    labels: Seq<u32>,
    p: int,
    q: int,
)
    requires
        is_labeling(dims, fg, labels),
        connected(dims, fg, p, q),
    ensures
        labels[p] == labels[q],
{
    lemma_connected_foreground(dims, fg, p, q);
    assert(is_label_of(dims, fg, p, labels[p]));
    assert(is_label_of(dims, fg, q, labels[q]));
    lemma_component_root_shared(dims, fg, p, q, labels[p] - 1);
    lemma_component_root_unique(dims, fg, q, labels[p] - 1, labels[q] - 1);
}

/// In a labeling, foreground pixels that no walk joins carry different labels.
pub proof fn lemma_separate_pixels_differ(
    dims: Dimensions,
    fg: Seq<bool>,
    labels: Seq<u32>,
    p: int,
    q: int,
)
    requires
        is_labeling(dims, fg, labels),
        is_foreground(fg, p),
        is_foreground(fg, q),
        !connected(dims, fg, p, q),
    ensures
        labels[p] != labels[q],
{
    assert(is_label_of(dims, fg, p, labels[p]));
    assert(is_label_of(dims, fg, q, labels[q]));
    if labels[p] == labels[q] {
        let r = labels[p] - 1;
        lemma_connected_symmetric(dims, fg, q, r);
        lemma_connected_transitive(dims, fg, p, r, q);
    }
}

/// In a labeling, every background pixel carries the sentinel.
pub proof fn lemma_background_keeps_sentinel(
    dims: Dimensions,
    fg: Seq<bool>,
    labels: Seq<u32>,
    p: int,
)
    requires
        is_labeling(dims, fg, labels),
        0 <= p < dims.pixel_count(),
        !fg[p],
    ensures
        labels[p] == 0,
{
    assert(is_label_of(dims, fg, p, labels[p]));
}

/// An image has one labeling, so two runs over the same image agree slot by slot,
/// whatever order the work was done in.
pub proof fn lemma_labeling_unique(
    dims: Dimensions,
    fg: Seq<bool>,
    first: Seq<u32>,
    second: Seq<u32>,
)
    requires
        is_labeling(dims, fg, first),
        is_labeling(dims, fg, second),
    ensures
        first == second,
{
    assert forall|p: int| 0 <= p < first.len() implies first[p] == second[p] by {
        assert(is_label_of(dims, fg, p, first[p]));
        assert(is_label_of(dims, fg, p, second[p]));
        if fg[p] {
            lemma_component_root_unique(dims, fg, p, first[p] - 1, second[p] - 1);
        }
    }
    assert(first =~= second);
}

} // verus!
