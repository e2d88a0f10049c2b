//! The pixels around a pixel: itself and its up to eight neighbors.

use vstd::prelude::*;
use crate::connectivity::touches;
use crate::geometry::{Dimensions, lemma_coordinates_index};
use crate::invocation::pixel_index;

verus! {

/// Whether pixel `q` comes before the position `(x, y)` in row-major order.
pub open spec fn precedes(dims: Dimensions, q: int, x: int, y: int) -> bool {
    dims.y_of(q) < y || (dims.y_of(q) == y && dims.x_of(q) < x)
}

/// Row-major order of coordinates is the order of flat indices.
pub proof fn lemma_index_order(dims: Dimensions, p: int, q: int)
    requires
        0 <= p < dims.pixel_count(),
        0 <= q < dims.pixel_count(),
    ensures
        p < q <==> precedes(dims, p, dims.x_of(q), dims.y_of(q)),
{
    lemma_coordinates_index(dims, p);
    lemma_coordinates_index(dims, q);
    let w = dims.columns as int;
    let (px, py) = (dims.x_of(p), dims.y_of(p));
    let (qx, qy) = (dims.x_of(q), dims.y_of(q));
    if py < qy {
        assert(py * w + w <= qy * w) by (nonlinear_arith)
            requires
                py < qy,
                w >= 0,
        ;
    } else if qy < py {
        assert(qy * w + w <= py * w) by (nonlinear_arith)
            requires
                qy < py,
                w >= 0,
        ;
    }
}

/// Whether `around` lists the pixels that touch `p`, itself among them, each once and in
/// ascending order of flat index.
pub open spec fn lists_touching(dims: Dimensions, p: int, around: Seq<usize>) -> bool {
    &&& forall|k: int| 0 <= k < around.len() ==> touches(dims, p, #[trigger] around[k] as int)
    &&& forall|q: int| #[trigger]
        touches(dims, p, q) ==> exists|k: int| 0 <= k < around.len() && #[trigger] around[k] == q
    &&& forall|j: int, k: int| 0 <= j < k < around.len() ==> around[j] < around[k]
}

/// The pixels that touch `p`, itself among them, in ascending order of flat index.
pub fn touching_pixels(dims: &Dimensions, p: usize) -> (around: Vec<usize>)
    requires
        p < dims.pixel_count(),
        dims.pixel_count() <= usize::MAX,
    ensures
        lists_touching(*dims, p as int, around@),
{
    proof {
        lemma_coordinates_index(*dims, p as int);
    }
    let columns: usize = dims.columns as usize;
    let x: u32 = (p % columns) as u32;
    let y: u32 = (p / columns) as u32;
    let x_low: u32 = if x > 0 {
        x - 1
    } else {
        x
    };
    let y_low: u32 = if y > 0 {
        y - 1
    } else {
        y
    };
    let x_end: u32 = if x + 1 < dims.columns {
        x + 2
    } else {
        x + 1
    };
    let y_end: u32 = if y + 1 < dims.rows {
        y + 2
    } else {
        y + 1
    };
    let mut around: Vec<usize> = Vec::new();
    let mut yy: u32 = y_low;
    while yy < y_end
        invariant
            y_low <= yy <= y_end,
            p < dims.pixel_count(),
            dims.pixel_count() <= usize::MAX,
            x == dims.x_of(p as int),
            y == dims.y_of(p as int),
            dims.contains(x as int, y as int),
            x_low == (if x > 0 { x - 1 } else { x as int }),
            y_low == (if y > 0 { y - 1 } else { y as int }),
            x_end == (if x + 1 < dims.columns { x + 2 } else { x + 1 }),
            y_end == (if y + 1 < dims.rows { y + 2 } else { y + 1 }),
            forall|k: int|
                0 <= k < around.len() ==> touches(*dims, p as int, #[trigger] around[k] as int)
                    && precedes(*dims, around[k] as int, x_low as int, yy as int),
            forall|q: int| #[trigger]
                touches(*dims, p as int, q) && precedes(*dims, q, x_low as int, yy as int)
                    ==> exists|k: int| 0 <= k < around.len() && #[trigger] around[k] == q,
            forall|j: int, k: int| 0 <= j < k < around.len() ==> around[j] < around[k],
        decreases y_end - yy,
    {
        let mut xx: u32 = x_low;
        while xx < x_end
            invariant
                x_low <= xx <= x_end,
                y_low <= yy < y_end,
                p < dims.pixel_count(),
                dims.pixel_count() <= usize::MAX,
                x == dims.x_of(p as int),
                y == dims.y_of(p as int),
                dims.contains(x as int, y as int),
                x_low == (if x > 0 { x - 1 } else { x as int }),
                y_low == (if y > 0 { y - 1 } else { y as int }),
                x_end == (if x + 1 < dims.columns { x + 2 } else { x + 1 }),
                y_end == (if y + 1 < dims.rows { y + 2 } else { y + 1 }),
                forall|k: int|
                    0 <= k < around.len() ==> touches(
                        *dims,
                        p as int,
                        #[trigger] around[k] as int,
                    ) && precedes(*dims, around[k] as int, xx as int, yy as int),
                forall|q: int| #[trigger]
                    touches(*dims, p as int, q) && precedes(*dims, q, xx as int, yy as int)
                        ==> exists|k: int| 0 <= k < around.len() && #[trigger] around[k] == q,
                forall|j: int, k: int| 0 <= j < k < around.len() ==> around[j] < around[k],
            decreases x_end - xx,
        {
            let e: usize = pixel_index(dims, xx, yy);
            let ghost earlier = around@;
            proof {
                assert forall|k: int| 0 <= k < earlier.len() implies #[trigger] earlier[k] < e by {
                    lemma_index_order(*dims, earlier[k] as int, e as int);
                }
            }
            around.push(e);
            proof {
                assert forall|q: int| #[trigger]
                    touches(*dims, p as int, q) && precedes(*dims, q, xx + 1, yy as int)
                    implies exists|k: int| 0 <= k < around.len() && #[trigger] around[k] == q by {
                    if precedes(*dims, q, xx as int, yy as int) {
                        let k = choose|k: int| 0 <= k < earlier.len() && #[trigger] earlier[k] == q;
                        assert(around[k] == q);
                    } else {
                        lemma_coordinates_index(*dims, q);
                        assert(around[earlier.len() as int] == q);
                    }
                }
            }
            xx = xx + 1;
        }
        proof {
            assert forall|q: int| #[trigger]
                touches(*dims, p as int, q) && precedes(*dims, q, x_low as int, yy + 1)
                implies exists|k: int| 0 <= k < around.len() && #[trigger] around[k] == q by {
                lemma_coordinates_index(*dims, q);
                assert(precedes(*dims, q, x_end as int, yy as int));
            }
        }
        yy = yy + 1;
    }
    proof {
        assert forall|q: int| #[trigger] touches(*dims, p as int, q) implies exists|k: int|
            0 <= k < around.len() && #[trigger] around[k] == q by {
            lemma_coordinates_index(*dims, q);
            assert(precedes(*dims, q, x_low as int, y_end as int));
        }
    }
    around
}

} // verus!
