//! Bookkeeping for the relaxation of the seam graph: what the distance and
//! predecessor arrays hold while the edges of one row are being relaxed.

use vstd::prelude::*;
use crate::seam::{min_cost, parent_col};

verus! {

/// Least cost of reaching the pixel with index `p`.
pub open spec fn vertex_cost(energy: Seq<i32>, width: int, p: int) -> int {
    min_cost(energy, width, p / width, p % width)
}

/// Index of the pixel through which the cheapest path reaches pixel `p`.
pub open spec fn vertex_parent(energy: Seq<i32>, width: int, p: int) -> int {
    (p / width - 1) * width + parent_col(energy, width, p / width, p % width)
}

/// Column of the row above from which column `x` was reached last once the
/// first `n` pixels of the row above have relaxed their edges, or -1 where no
/// edge has reached it yet. `above` holds the distances of the row above.
pub open spec fn partial_parent(above: Seq<int>, x: int, n: int) -> int
    decreases n,
{
    if n <= 0 {
        -1
    } else {
        let before = partial_parent(above, x, n - 1);
        let source = n - 1;
        if x - 1 <= source <= x + 1 && (before < 0 || above[source] < above[before]) {
            source
        } else {
            before
        }
    }
}

/// Relaxing the edge from column `n` of the row above into column `x` gives
/// column `x` the distance and parent it has once `n + 1` pixels have relaxed
/// their edges.
pub proof fn lemma_relax_reaches(
    above: Seq<int>,
    energy: Seq<i32>,
    below: int,
    x: int,
    n: int,
    dist: int,
)
    requires
        0 <= n,
        x - 1 <= n <= x + 1,
        -0x4000_0000_0000_0000 <= above[n] <= 0x4000_0000_0000_0000,
        dist == partial_cost(above, energy, below, x, n),
    ensures
        partial_parent(above, x, n + 1) >= 0,
        partial_parent(above, x, n + 1) == if dist > above[n] + energy[below + x] {
            n
        } else {
            partial_parent(above, x, n)
        },
        partial_cost(above, energy, below, x, n + 1) == if dist > above[n] + energy[below + x] {
            above[n] + energy[below + x]
        } else {
            dist
        },
{
}

/// Distance recorded for column `x` of the row that starts at index `below`
/// once the first `n` pixels of the row above have relaxed their edges.
pub open spec fn partial_cost(above: Seq<int>, energy: Seq<i32>, below: int, x: int, n: int) -> int {
    let parent = partial_parent(above, x, n);
    if parent < 0 {
        i64::MAX as int
    } else {
        energy[below + x] + above[parent]
    }
}

/// Before the pixel left of column `x` has relaxed its edges nothing has
/// reached column `x`.
pub proof fn lemma_partial_parent_unreached(above: Seq<int>, x: int, n: int)
    requires
        n <= x - 1,
    ensures
        partial_parent(above, x, n) == -1,
    decreases n,
{
    if n > 0 {
        lemma_partial_parent_unreached(above, x, n - 1);
    }
}

/// Once the pixel right of column `x` has relaxed its edges, the parent of
/// column `x` changes no more.
pub proof fn lemma_partial_parent_settled(above: Seq<int>, x: int, n: int)
    requires
        n >= x + 2,
    ensures
        partial_parent(above, x, n) == partial_parent(above, x, x + 2),
    decreases n - x,
{
    if n > x + 2 {
        lemma_partial_parent_settled(above, x, n - 1);
    }
}

/// When a whole row has relaxed its edges, every column of the next row has
/// the parent that the cheapest path reaches it through.
pub proof fn lemma_partial_parent_done(energy: Seq<i32>, width: int, y: int, x: int)
    requires
        0 <= x < width,
    ensures
        partial_parent(row_costs(energy, width, y - 1), x, width) == parent_col(
            energy,
            width,
            y,
            x,
        ),
        0 <= parent_col(energy, width, y, x) < width,
{
    let above = row_costs(energy, width, y - 1);
    lemma_partial_parent_unreached(above, x, x - 1);
    let none = partial_parent(above, x, x - 1);
    let left = partial_parent(above, x, x);
    let mid = partial_parent(above, x, x + 1);
    let right = partial_parent(above, x, x + 2);
    assert(none == -1);
    assert(left == if x >= 1 {
        x - 1
    } else {
        -1
    });
    assert(mid == if left < 0 || above[x] < above[left] {
        x
    } else {
        left
    });
    assert(right == if above[x + 1] < above[mid] {
        x + 1
    } else {
        mid
    });
    if x + 1 < width {
        lemma_partial_parent_settled(above, x, width);
    }
}

/// The least costs of reaching the pixels of row `y`, by column.
pub open spec fn row_costs(energy: Seq<i32>, width: int, y: int) -> Seq<int> {
    Seq::new(width as nat, |x: int| min_cost(energy, width, y, x))
}

/// Whether `pixel`, which stands in column `x` of a row above the last, has an
/// edge to `p`: to the pixel below it and to the neighbours of that pixel in
/// the same row.
pub open spec fn has_edge(pixel: int, x: int, width: int, p: int) -> bool {
    ||| p == pixel + width
    ||| (x > 0 && p == pixel + width - 1)
    ||| (x + 1 < width && p == pixel + width + 1)
}

/// The distances after the edge from `from` to `to` is relaxed.
pub open spec fn relaxed_dist(dist: Seq<i64>, energy: Seq<i32>, from: int, to: int) -> Seq<i64> {
    if dist[to] > dist[from] + energy[to] {
        dist.update(to, (dist[from] + energy[to]) as i64)
    } else {
        dist
    }
}

/// The predecessors after the edge from `from` to `to` is relaxed.
pub open spec fn relaxed_prev(
    dist: Seq<i64>,
    prev: Seq<usize>,
    energy: Seq<i32>,
    from: usize,
    to: int,
) -> Seq<usize> {
    if dist[to] > dist[from as int] + energy[to] {
        prev.update(to, from)
    } else {
        prev
    }
}

} // verus!
