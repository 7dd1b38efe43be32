//! Grid partition into regions: the region builder and the boundary tracer.
//!
//! A [`RegionMap`] is produced by [`RegionMap::voronoi_like`], a multi-source
//! breadth-first flood fill that grows one region around each seed point until
//! the whole grid is claimed.  Every raster cell then holds the id of the
//! region that owns it, and the adjacency relation between regions is
//! symmetric and irreflexive.

use vstd::prelude::*;

verus! {

/// A coordinate on the grid: column (`x`) then row (`y`).
pub type Point = (u16, u16);

/// Dense zero-based index identifying one region within a [`RegionMap`].
pub type RegionId = usize;

/// One cell of the partition.
#[derive(Debug)]
pub struct Region {
    /// Seed point the region grew from.
    pub pivot: Point,

    /// Cells of this region that lie on its perimeter: on the outer grid rim
    /// or next to a cell of a different region.  Unordered and duplicate-free.
    pub boundary: Vec<Point>,

    /// Ids of the regions that share a border with this region.
    /// Duplicate-free, never contains the region's own id.
    pub neighbors: Vec<RegionId>,
}

/// A partition of a rectangular grid into regions.
#[derive(Debug)]
pub struct RegionMap {
    /// The regions; a [`RegionId`] is an index into this vector.
    pub regions: Vec<Region>,

    /// `raster[y][x]` is the id of the region owning the cell at `(x, y)`.
    pub raster: Vec<Vec<RegionId>>,
}

/// No element of `s` occurs twice.
pub open spec fn distinct_seq<T>(s: Seq<T>) -> bool {
    forall|p: int, q: int| 0 <= p < q < s.len() ==> s[p] != s[q]
}

/// `(x, y)` is a cell of a `w` by `h` grid.
pub open spec fn in_grid(w: int, h: int, x: int, y: int) -> bool {
    0 <= x < w && 0 <= y < h
}

/// Cell `(x, y)` of `canvas` has been claimed by some region (region ids are
/// `< n`; the value `n` itself is the "unclaimed" sentinel).
pub open spec fn claimed(canvas: Seq<Vec<usize>>, n: int, x: int, y: int) -> bool {
    canvas[y]@[x] < n
}

/// Column of the 4-connected neighbor of a cell in direction `d`
/// (`0` left, `1` up, `2` down, `3` right: the order the fill scans them in).
pub open spec fn nbr_x(x: int, d: int) -> int {
    if d == 0 {
        x - 1
    } else if d == 3 {
        x + 1
    } else {
        x
    }
}

/// Row of the 4-connected neighbor of a cell in direction `d`.
pub open spec fn nbr_y(y: int, d: int) -> int {
    if d == 1 {
        y - 1
    } else if d == 2 {
        y + 1
    } else {
        y
    }
}

/// The neighbor of `(x, y)` in direction `d` is claimed whenever it exists.
spec fn nbr_ok(canvas: Seq<Vec<usize>>, n: int, w: int, h: int, x: int, y: int, d: int) -> bool {
    in_grid(w, h, nbr_x(x, d), nbr_y(y, d)) ==> claimed(canvas, n, nbr_x(x, d), nbr_y(y, d))
}

/// Every existing 4-connected neighbor of `(x, y)` is claimed.
spec fn all_nbrs_claimed(canvas: Seq<Vec<usize>>, n: int, w: int, h: int, x: int, y: int) -> bool {
    forall|d: int| 0 <= d < 4 ==> #[trigger] nbr_ok(canvas, n, w, h, x, y, d)
}

/// `p` sits on some region's current frontier.
spec fn in_frontiers(bds: Seq<Vec<Point>>, p: Point) -> bool {
    exists|i: int| 0 <= i < bds.len() && #[trigger] bds[i]@.contains(p)
}

/// Number of still-unclaimed cells in one raster row.
spec fn count_row(row: Seq<usize>, n: int) -> int
    decreases row.len(),
{
    if row.len() == 0 {
        0
    } else {
        count_row(row.drop_last(), n) + if row.last() >= n {
            1int
        } else {
            0int
        }
    }
}

/// Number of still-unclaimed cells of the whole raster.
spec fn count_unclaimed(canvas: Seq<Vec<usize>>, n: int) -> int
    decreases canvas.len(),
{
    if canvas.len() == 0 {
        0
    } else {
        count_unclaimed(canvas.drop_last(), n) + count_row(canvas.last()@, n)
    }
}

proof fn lemma_count_row_nonneg(row: Seq<usize>, n: int)
    ensures
        count_row(row, n) >= 0,
    decreases row.len(),
{
    if row.len() > 0 {
        lemma_count_row_nonneg(row.drop_last(), n);
    }
}

proof fn lemma_count_nonneg(canvas: Seq<Vec<usize>>, n: int)
    ensures
        count_unclaimed(canvas, n) >= 0,
    decreases canvas.len(),
{
    if canvas.len() > 0 {
        lemma_count_nonneg(canvas.drop_last(), n);
        lemma_count_row_nonneg(canvas.last()@, n);
    }
}

proof fn lemma_count_row_claim(row: Seq<usize>, n: int, x: int, v: usize)
    requires
        0 <= x < row.len(),
        row[x] >= n,
        v < n,
    ensures
        count_row(row.update(x, v), n) == count_row(row, n) - 1,
    decreases row.len(),
{
    if x == row.len() - 1 {
        assert(row.update(x, v).drop_last() =~= row.drop_last());
    } else {
        assert(row.update(x, v).drop_last() =~= row.drop_last().update(x, v));
        lemma_count_row_claim(row.drop_last(), n, x, v);
    }
}

proof fn lemma_count_claim(canvas: Seq<Vec<usize>>, n: int, x: int, y: int, new_row: Vec<usize>, v: usize)
    requires
        0 <= y < canvas.len(),
        0 <= x < canvas[y]@.len(),
        canvas[y]@[x] >= n,
        v < n,
        new_row@ =~= canvas[y]@.update(x, v),
    ensures
        count_unclaimed(canvas.update(y, new_row), n) == count_unclaimed(canvas, n) - 1,
    decreases canvas.len(),
{
    if y == canvas.len() - 1 {
        assert(canvas.update(y, new_row).drop_last() =~= canvas.drop_last());
        lemma_count_row_claim(canvas[y]@, n, x, v);
    } else {
        assert(canvas.update(y, new_row).drop_last() =~= canvas.drop_last().update(y, new_row));
        lemma_count_claim(canvas.drop_last(), n, x, y, new_row, v);
    }
}

/// Combined length of the frontiers of regions `0 .. upto`.
spec fn sum_flens(bds: Seq<Vec<Point>>, upto: int) -> int
    decreases upto,
{
    if upto <= 0 {
        0
    } else {
        sum_flens(bds, upto - 1) + bds[upto - 1]@.len()
    }
}

proof fn lemma_sum_flens_frame(a: Seq<Vec<Point>>, b: Seq<Vec<Point>>, upto: int)
    requires
        forall|j: int| 0 <= j < upto ==> a[j]@.len() == b[j]@.len(),
    ensures
        sum_flens(a, upto) == sum_flens(b, upto),
    decreases upto,
{
    if upto > 0 {
        lemma_sum_flens_frame(a, b, upto - 1);
    }
}

proof fn lemma_sum_flens_lower(bds: Seq<Vec<Point>>, j: int, upto: int)
    requires
        0 <= j < upto,
    ensures
        sum_flens(bds, upto) >= bds[j]@.len(),
    decreases upto,
{
    if j == upto - 1 {
        lemma_sum_flens_nonneg(bds, upto - 1);
    } else {
        lemma_sum_flens_lower(bds, j, upto - 1);
    }
}

proof fn lemma_sum_flens_nonneg(bds: Seq<Vec<Point>>, upto: int)
    ensures
        sum_flens(bds, upto) >= 0,
    decreases upto,
{
    if upto > 0 {
        lemma_sum_flens_nonneg(bds, upto - 1);
    }
}

/// Distance between two columns or rows.
spec fn dist1(a: int, b: int) -> int {
    if a <= b {
        b - a
    } else {
        a - b
    }
}

/// Once the claimed cells are closed under 4-adjacency and one cell is
/// claimed, every cell of the grid is claimed: walk from `(sx, sy)` to
/// `(x, y)` one axis step at a time.
proof fn lemma_coverage(canvas: Seq<Vec<usize>>, n: int, w: int, h: int, sx: int, sy: int, x: int, y: int)
    requires
        in_grid(w, h, sx, sy),
        claimed(canvas, n, sx, sy),
        forall|xx: int, yy: int|
            in_grid(w, h, xx, yy) && #[trigger] claimed(canvas, n, xx, yy) ==> all_nbrs_claimed(
                canvas,
                n,
                w,
                h,
                xx,
                yy,
            ),
        in_grid(w, h, x, y),
    ensures
        claimed(canvas, n, x, y),
    decreases dist1(x, sx) + dist1(y, sy),
{
    if x < sx {
        lemma_coverage(canvas, n, w, h, sx, sy, x + 1, y);
        assert(nbr_ok(canvas, n, w, h, x + 1, y, 0));
    } else if x > sx {
        lemma_coverage(canvas, n, w, h, sx, sy, x - 1, y);
        assert(nbr_ok(canvas, n, w, h, x - 1, y, 3));
    } else if y < sy {
        lemma_coverage(canvas, n, w, h, sx, sy, x, y + 1);
        assert(nbr_ok(canvas, n, w, h, x, y + 1, 1));
    } else if y > sy {
        lemma_coverage(canvas, n, w, h, sx, sy, x, y - 1);
        assert(nbr_ok(canvas, n, w, h, x, y - 1, 2));
    }
}

/// The raster has its stated shape and every cell holds a region id or the
/// sentinel `n`.
spec fn grid_inv(w: u16, h: u16, n: usize, canvas: Seq<Vec<usize>>) -> bool {
    &&& canvas.len() == h as int
    &&& forall|y: int| 0 <= y < h as int ==> (#[trigger] canvas[y])@.len() == w as int
    &&& forall|y: int, x: int|
        0 <= y < h as int && 0 <= x < w as int ==> (#[trigger] canvas[y]@[x]) <= n
}

/// Each seed cell stays claimed by its own region for the whole build.
spec fn seeds_inv(pivots: Seq<Point>, w: u16, h: u16, n: usize, canvas: Seq<Vec<usize>>, regions: Seq<Region>) -> bool {
    &&& n == pivots.len()
    &&& distinct_seq(pivots)
    &&& forall|j: int| 0 <= j < n ==> (#[trigger] pivots[j]).0 < w && pivots[j].1 < h
    &&& regions.len() == n
    &&& forall|j: int| 0 <= j < n ==> (#[trigger] regions[j]).pivot == pivots[j]
    &&& forall|j: int|
        0 <= j < n ==> canvas[(#[trigger] pivots[j]).1 as int]@[pivots[j].0 as int] == j
}

/// Every frontier cell lies on the grid and is claimed by the region whose
/// frontier it sits on.
spec fn fronts_inv(w: u16, h: u16, n: usize, canvas: Seq<Vec<usize>>, boundaries: Seq<Vec<Point>>) -> bool {
    &&& boundaries.len() == n
    &&& forall|j: int, k: int|
        0 <= j < n && 0 <= k < boundaries[j]@.len() ==> in_grid(
            w as int,
            h as int,
            (#[trigger] boundaries[j]@[k]).0 as int,
            boundaries[j]@[k].1 as int,
        ) && canvas[boundaries[j]@[k].1 as int]@[boundaries[j]@[k].0 as int] == j
}

/// Adjacency bookkeeping: neighbor lists are duplicate-free, in range,
/// irreflexive and symmetric, and recorded boundary cells belong to their
/// region.
spec fn adj_inv(w: u16, h: u16, n: usize, canvas: Seq<Vec<usize>>, regions: Seq<Region>) -> bool {
    &&& forall|j: int|
        0 <= j < n ==> distinct_seq((#[trigger] regions[j]).neighbors@) && distinct_seq(
            regions[j].boundary@,
        )
    &&& forall|j: int, k: int|
        0 <= j < n && 0 <= k < regions[j].neighbors@.len() ==> (
        #[trigger] regions[j].neighbors@[k]) < n && regions[j].neighbors@[k] as int != j
    &&& forall|a: int, b: int|
        0 <= a < n && 0 <= b < n ==> ((#[trigger] regions[a].neighbors@.contains(b as usize))
            <==> regions[b].neighbors@.contains(a as usize))
    &&& forall|j: int, k: int|
        0 <= j < n && 0 <= k < regions[j].boundary@.len() ==> in_grid(
            w as int,
            h as int,
            (#[trigger] regions[j].boundary@[k]).0 as int,
            regions[j].boundary@[k].1 as int,
        ) && canvas[regions[j].boundary@[k].1 as int]@[regions[j].boundary@[k].0 as int] == j
}

/// `(x, y)` lies on the outer edge of the grid.
pub open spec fn on_rim(w: int, h: int, x: int, y: int) -> bool {
    x == 0 || x == w - 1 || y == 0 || y == h - 1
}

/// Some 4-connected neighbor of `(x, y)` is claimed by a different region.
pub open spec fn has_foreign_nbr(canvas: Seq<Vec<usize>>, n: int, w: int, h: int, x: int, y: int) -> bool {
    exists|d: int|
        #![trigger nbr_x(x, d), nbr_y(y, d)]
        0 <= d < 4 && in_grid(w, h, nbr_x(x, d), nbr_y(y, d)) && claimed(
            canvas,
            n,
            nbr_x(x, d),
            nbr_y(y, d),
        ) && canvas[nbr_y(y, d)]@[nbr_x(x, d)] != canvas[y]@[x]
}

/// A foreign neighbor stays foreign as further cells are claimed: claimed
/// cells never change owner.
proof fn lemma_foreign_canvas_mono(a: Seq<Vec<usize>>, b: Seq<Vec<usize>>, n: int, w: int, h: int, x: int, y: int)
    requires
        forall|xx: int, yy: int|
            in_grid(w, h, xx, yy) && #[trigger] claimed(a, n, xx, yy) ==> b[yy]@[xx] == a[yy]@[xx],
        in_grid(w, h, x, y),
        claimed(a, n, x, y),
        has_foreign_nbr(a, n, w, h, x, y),
    ensures
        has_foreign_nbr(b, n, w, h, x, y),
{
    let d = choose|d: int|
        #![trigger nbr_x(x, d), nbr_y(y, d)]
        0 <= d < 4 && in_grid(w, h, nbr_x(x, d), nbr_y(y, d)) && claimed(
            a,
            n,
            nbr_x(x, d),
            nbr_y(y, d),
        ) && a[nbr_y(y, d)]@[nbr_x(x, d)] != a[y]@[x];
    assert(claimed(b, n, nbr_x(x, d), nbr_y(y, d)));
    assert(b[nbr_y(y, d)]@[nbr_x(x, d)] != b[y]@[x]);
}

/// Every recorded boundary cell earned its place: it is on the outer rim or
/// borders a cell of a different region.
spec fn bd_char_inv(w: u16, h: u16, n: usize, canvas: Seq<Vec<usize>>, regions: Seq<Region>) -> bool {
    forall|j: int, k: int|
        0 <= j < n && 0 <= k < regions[j].boundary@.len() ==> on_rim(
            w as int,
            h as int,
            (#[trigger] regions[j].boundary@[k]).0 as int,
            regions[j].boundary@[k].1 as int,
        ) || has_foreign_nbr(
            canvas,
            n as int,
            w as int,
            h as int,
            regions[j].boundary@[k].0 as int,
            regions[j].boundary@[k].1 as int,
        )
}

/// If the neighbor of `(x, y)` in direction `d` exists and is claimed by a
/// different region, the shared border has been recorded: `(x, y)` is in its
/// owner's boundary and the two owners are in each other's neighbor lists.
spec fn nbr_bordered(canvas: Seq<Vec<usize>>, regions: Seq<Region>, n: int, w: int, h: int, x: int, y: int, d: int) -> bool {
    (in_grid(w, h, nbr_x(x, d), nbr_y(y, d)) && claimed(canvas, n, nbr_x(x, d), nbr_y(y, d))
        && canvas[nbr_y(y, d)]@[nbr_x(x, d)] != canvas[y]@[x]) ==> {
        &&& regions[canvas[y]@[x] as int].boundary@.contains((x as u16, y as u16))
        &&& regions[canvas[y]@[x] as int].neighbors@.contains(canvas[nbr_y(y, d)]@[nbr_x(x, d)])
        &&& regions[canvas[nbr_y(y, d)]@[nbr_x(x, d)] as int].neighbors@.contains(canvas[y]@[x])
    }
}

/// If the neighbor of `(x, y)` in direction `d` exists, is claimed by the
/// same region and sits on the outer rim, it has been recorded in that
/// region's boundary.
spec fn nbr_rim_rec(canvas: Seq<Vec<usize>>, regions: Seq<Region>, n: int, w: int, h: int, x: int, y: int, d: int) -> bool {
    (in_grid(w, h, nbr_x(x, d), nbr_y(y, d)) && claimed(canvas, n, nbr_x(x, d), nbr_y(y, d))
        && canvas[nbr_y(y, d)]@[nbr_x(x, d)] == canvas[y]@[x] && on_rim(
        w,
        h,
        nbr_x(x, d),
        nbr_y(y, d),
    )) ==> regions[canvas[y]@[x] as int].boundary@.contains(
        (nbr_x(x, d) as u16, nbr_y(y, d) as u16),
    )
}

/// `(x, y)` has been fully examined: all its neighbors are claimed, every
/// border it shares with a foreign region is recorded, and its same-region
/// rim neighbors are recorded as boundary.
spec fn settled(canvas: Seq<Vec<usize>>, regions: Seq<Region>, n: int, w: int, h: int, x: int, y: int) -> bool {
    &&& forall|d: int| 0 <= d < 4 ==> #[trigger] nbr_ok(canvas, n, w, h, x, y, d)
    &&& forall|d: int| 0 <= d < 4 ==> #[trigger] nbr_bordered(canvas, regions, n, w, h, x, y, d)
    &&& forall|d: int| 0 <= d < 4 ==> #[trigger] nbr_rim_rec(canvas, regions, n, w, h, x, y, d)
}

/// Settledness survives claims elsewhere: claimed cells keep their owner.
proof fn lemma_settled_canvas_mono(a: Seq<Vec<usize>>, b: Seq<Vec<usize>>, regions: Seq<Region>, n: int, w: int, h: int, x: int, y: int)
    requires
        in_grid(w, h, x, y),
        forall|xx: int, yy: int|
            in_grid(w, h, xx, yy) && #[trigger] claimed(a, n, xx, yy) ==> b[yy]@[xx] == a[yy]@[xx],
        claimed(a, n, x, y),
        settled(a, regions, n, w, h, x, y),
    ensures
        settled(b, regions, n, w, h, x, y),
{
    assert forall|d: int| 0 <= d < 4 implies #[trigger] nbr_ok(b, n, w, h, x, y, d) by {
        assert(nbr_ok(a, n, w, h, x, y, d));
    }
    assert forall|d: int| 0 <= d < 4 implies #[trigger] nbr_bordered(
        b,
        regions,
        n,
        w,
        h,
        x,
        y,
        d,
    ) by {
        assert(nbr_ok(a, n, w, h, x, y, d));
        assert(nbr_bordered(a, regions, n, w, h, x, y, d));
        let bx = nbr_x(x, d);
        let by = nbr_y(y, d);
        if in_grid(w, h, bx, by) {
            assert(claimed(a, n, bx, by));
        }
    }
    assert forall|d: int| 0 <= d < 4 implies #[trigger] nbr_rim_rec(
        b,
        regions,
        n,
        w,
        h,
        x,
        y,
        d,
    ) by {
        assert(nbr_ok(a, n, w, h, x, y, d));
        assert(nbr_rim_rec(a, regions, n, w, h, x, y, d));
        let bx = nbr_x(x, d);
        let by = nbr_y(y, d);
        if in_grid(w, h, bx, by) {
            assert(claimed(a, n, bx, by));
        }
    }
}

/// Settledness survives growth of the boundary and neighbor records.
proof fn lemma_settled_regions_mono(canvas: Seq<Vec<usize>>, a: Seq<Region>, b: Seq<Region>, n: int, w: int, h: int, x: int, y: int)
    requires
        in_grid(w, h, x, y),
        claimed(canvas, n, x, y),
        a.len() == n,
        b.len() == n,
        forall|jj: int, t: Point|
            0 <= jj < n && #[trigger] a[jj].boundary@.contains(t) ==> b[jj].boundary@.contains(t),
        forall|jj: int, t: usize|
            0 <= jj < n && #[trigger] a[jj].neighbors@.contains(t) ==> b[jj].neighbors@.contains(
                t,
            ),
        settled(canvas, a, n, w, h, x, y),
    ensures
        settled(canvas, b, n, w, h, x, y),
{
    assert forall|d: int| 0 <= d < 4 implies #[trigger] nbr_bordered(
        canvas,
        b,
        n,
        w,
        h,
        x,
        y,
        d,
    ) by {
        assert(nbr_bordered(canvas, a, n, w, h, x, y, d));
    }
    assert forall|d: int| 0 <= d < 4 implies #[trigger] nbr_rim_rec(
        canvas,
        b,
        n,
        w,
        h,
        x,
        y,
        d,
    ) by {
        assert(nbr_rim_rec(canvas, a, n, w, h, x, y, d));
    }
}

/// The examined directions of a frontier cell stay examined while other
/// cells are claimed: claimed cells keep their owner.
proof fn lemma_prefix_canvas_mono(a: Seq<Vec<usize>>, b: Seq<Vec<usize>>, regions: Seq<Region>, n: int, w: int, h: int, x: int, y: int, dmax: int)
    requires
        forall|xx: int, yy: int|
            in_grid(w, h, xx, yy) && #[trigger] claimed(a, n, xx, yy) ==> b[yy]@[xx] == a[yy]@[xx],
        forall|dd: int| 0 <= dd < dmax ==> #[trigger] nbr_ok(a, n, w, h, x, y, dd),
        forall|dd: int| 0 <= dd < dmax ==> #[trigger] nbr_bordered(a, regions, n, w, h, x, y, dd),
        forall|dd: int| 0 <= dd < dmax ==> #[trigger] nbr_rim_rec(a, regions, n, w, h, x, y, dd),
        in_grid(w, h, x, y),
        claimed(a, n, x, y),
    ensures
        forall|dd: int| 0 <= dd < dmax ==> #[trigger] nbr_ok(b, n, w, h, x, y, dd),
        forall|dd: int| 0 <= dd < dmax ==> #[trigger] nbr_bordered(b, regions, n, w, h, x, y, dd),
        forall|dd: int| 0 <= dd < dmax ==> #[trigger] nbr_rim_rec(b, regions, n, w, h, x, y, dd),
{
    assert forall|dd: int| 0 <= dd < dmax implies #[trigger] nbr_ok(b, n, w, h, x, y, dd) by {
        assert(nbr_ok(a, n, w, h, x, y, dd));
        let bx = nbr_x(x, dd);
        let by = nbr_y(y, dd);
        if in_grid(w, h, bx, by) {
            assert(claimed(a, n, bx, by));
        }
    }
    assert forall|dd: int| 0 <= dd < dmax implies #[trigger] nbr_bordered(
        b,
        regions,
        n,
        w,
        h,
        x,
        y,
        dd,
    ) by {
        assert(nbr_ok(a, n, w, h, x, y, dd));
        assert(nbr_bordered(a, regions, n, w, h, x, y, dd));
        let bx = nbr_x(x, dd);
        let by = nbr_y(y, dd);
        if in_grid(w, h, bx, by) {
            assert(claimed(a, n, bx, by));
        }
    }
    assert forall|dd: int| 0 <= dd < dmax implies #[trigger] nbr_rim_rec(
        b,
        regions,
        n,
        w,
        h,
        x,
        y,
        dd,
    ) by {
        assert(nbr_ok(a, n, w, h, x, y, dd));
        assert(nbr_rim_rec(a, regions, n, w, h, x, y, dd));
        let bx = nbr_x(x, dd);
        let by = nbr_y(y, dd);
        if in_grid(w, h, bx, by) {
            assert(claimed(a, n, bx, by));
        }
    }
}

/// The examined directions of a frontier cell stay examined while boundary
/// and neighbor records grow.
proof fn lemma_prefix_regions_mono(canvas: Seq<Vec<usize>>, a: Seq<Region>, b: Seq<Region>, n: int, w: int, h: int, x: int, y: int, dmax: int)
    requires
        a.len() == n,
        b.len() == n,
        forall|jj: int, t: Point|
            0 <= jj < n && #[trigger] a[jj].boundary@.contains(t) ==> b[jj].boundary@.contains(t),
        forall|jj: int, t: usize|
            0 <= jj < n && #[trigger] a[jj].neighbors@.contains(t) ==> b[jj].neighbors@.contains(
                t,
            ),
        forall|dd: int| 0 <= dd < dmax ==> #[trigger] nbr_ok(canvas, n, w, h, x, y, dd),
        forall|dd: int| 0 <= dd < dmax ==> #[trigger] nbr_bordered(canvas, a, n, w, h, x, y, dd),
        forall|dd: int| 0 <= dd < dmax ==> #[trigger] nbr_rim_rec(canvas, a, n, w, h, x, y, dd),
        in_grid(w, h, x, y),
        claimed(canvas, n, x, y),
    ensures
        forall|dd: int| 0 <= dd < dmax ==> #[trigger] nbr_bordered(canvas, b, n, w, h, x, y, dd),
        forall|dd: int| 0 <= dd < dmax ==> #[trigger] nbr_rim_rec(canvas, b, n, w, h, x, y, dd),
{
    assert forall|dd: int|
        0 <= dd < dmax implies #[trigger] nbr_bordered(canvas, b, n, w, h, x, y, dd) by {
        assert(nbr_ok(canvas, n, w, h, x, y, dd));
        assert(nbr_bordered(canvas, a, n, w, h, x, y, dd));
    }
    assert forall|dd: int|
        0 <= dd < dmax implies #[trigger] nbr_rim_rec(canvas, b, n, w, h, x, y, dd) by {
        assert(nbr_ok(canvas, n, w, h, x, y, dd));
        assert(nbr_rim_rec(canvas, a, n, w, h, x, y, dd));
    }
}

/// Regions `i` and `j` own two 4-adjacent cells of the raster: they share a
/// border on the grid.
pub open spec fn shares_border(canvas: Seq<Vec<usize>>, w: int, h: int, i: int, j: int) -> bool {
    exists|x: int, y: int, d: int|
        #![trigger canvas[y]@[x], nbr_x(x, d), nbr_y(y, d)]
        0 <= d < 4 && in_grid(w, h, x, y) && in_grid(w, h, nbr_x(x, d), nbr_y(y, d)) && canvas[y]@[x]
            == i && canvas[nbr_y(y, d)]@[nbr_x(x, d)] == j
}

/// Every recorded neighbor pair is witnessed by a real shared border.
spec fn adj_sound_inv(w: u16, h: u16, n: usize, canvas: Seq<Vec<usize>>, regions: Seq<Region>) -> bool {
    forall|i: int, j: usize|
        0 <= i < n && #[trigger] regions[i].neighbors@.contains(j) ==> shares_border(
            canvas,
            w as int,
            h as int,
            i,
            j as int,
        )
}

/// A shared border stays in place when further cells are claimed.
proof fn lemma_shares_border_canvas(a: Seq<Vec<usize>>, b: Seq<Vec<usize>>, w: int, h: int, n: int, i: int, j: int)
    requires
        forall|xx: int, yy: int|
            in_grid(w, h, xx, yy) && #[trigger] claimed(a, n, xx, yy) ==> b[yy]@[xx] == a[yy]@[xx],
        0 <= i < n,
        0 <= j < n,
        shares_border(a, w, h, i, j),
    ensures
        shares_border(b, w, h, i, j),
{
    let (x, y, d) = choose|x: int, y: int, d: int|
        #![trigger a[y]@[x], nbr_x(x, d), nbr_y(y, d)]
        0 <= d < 4 && in_grid(w, h, x, y) && in_grid(w, h, nbr_x(x, d), nbr_y(y, d)) && a[y]@[x]
            == i && a[nbr_y(y, d)]@[nbr_x(x, d)] == j;
    assert(claimed(a, n, x, y));
    assert(claimed(a, n, nbr_x(x, d), nbr_y(y, d)));
    assert(b[y]@[x] == i);
    assert(b[nbr_y(y, d)]@[nbr_x(x, d)] == j);
}

/// Between rounds: every claimed cell either still sits on a frontier or has
/// been fully examined, its neighbors claimed and its borders recorded.
spec fn closure_inv(w: u16, h: u16, n: usize, canvas: Seq<Vec<usize>>, regions: Seq<Region>, boundaries: Seq<Vec<Point>>) -> bool {
    forall|x: int, y: int|
        in_grid(w as int, h as int, x, y) && #[trigger] claimed(canvas, n as int, x, y)
            ==> in_frontiers(boundaries, (x as u16, y as u16)) || settled(
            canvas,
            regions,
            n as int,
            w as int,
            h as int,
            x,
            y,
        )
}

/// Mid-round form of [`closure_inv`] while region `rid`'s frontier is being
/// processed: cells of its frontier from position `k2` on, and cells of the
/// next frontier `newbs`, are still pending.
spec fn closure_mid(w: u16, h: u16, n: usize, canvas: Seq<Vec<usize>>, regions: Seq<Region>, boundaries: Seq<Vec<Point>>, rid: int, k2: int, newbs: Seq<Point>) -> bool {
    forall|x: int, y: int|
        in_grid(w as int, h as int, x, y) && #[trigger] claimed(canvas, n as int, x, y) ==> (exists|j: int|
            0 <= j < n && j != rid && #[trigger] boundaries[j]@.contains((x as u16, y as u16)))
            || (exists|kk: int|
            k2 <= kk < boundaries[rid]@.len() && boundaries[rid]@[kk] == (x as u16, y as u16))
            || newbs.contains((x as u16, y as u16)) || settled(
            canvas,
            regions,
            n as int,
            w as int,
            h as int,
            x,
            y,
        )
}

/// Appends `x` unless it is already present, keeping the vector
/// duplicate-free.
fn insert_unique_id(v: &mut Vec<usize>, x: usize)
    requires
        distinct_seq(old(v)@),
    ensures
        distinct_seq(final(v)@),
        forall|t: usize| final(v)@.contains(t) <==> (old(v)@.contains(t) || t == x),
{
    let mut i: usize = 0;
    while i < v.len()
        invariant
            i <= v@.len(),
            v@ == old(v)@,
            distinct_seq(v@),
            forall|k: int| 0 <= k < i ==> v@[k] != x,
        decreases v@.len() - i,
    {
        if v[i] == x {
            proof {
                assert(v@.contains(x));
            }
            return ;
        }
        i += 1;
    }
    assert(!v@.contains(x));
    v.push(x);
    proof {
        assert forall|t: usize| final(v)@.contains(t) <==> (old(v)@.contains(t) || t == x) by {
            if final(v)@.contains(t) {
                let k = choose|k: int| 0 <= k < final(v)@.len() && final(v)@[k] == t;
                if k < old(v)@.len() {
                    assert(old(v)@[k] == t);
                }
            }
            if old(v)@.contains(t) {
                let k = choose|k: int| 0 <= k < old(v)@.len() && old(v)@[k] == t;
                assert(final(v)@[k] == t);
            }
            if t == x {
                assert(final(v)@[old(v)@.len() as int] == x);
            }
        }
    }
}

/// Appends `p` unless it is already present, keeping the vector
/// duplicate-free.
fn insert_unique_point(v: &mut Vec<Point>, p: Point)
    requires
        distinct_seq(old(v)@),
    ensures
        distinct_seq(final(v)@),
        forall|t: Point| final(v)@.contains(t) <==> (old(v)@.contains(t) || t == p),
{
    let mut i: usize = 0;
    while i < v.len()
        invariant
            i <= v@.len(),
            v@ == old(v)@,
            distinct_seq(v@),
            forall|k: int| 0 <= k < i ==> v@[k] != p,
        decreases v@.len() - i,
    {
        let q = v[i];
        if q.0 == p.0 && q.1 == p.1 {
            proof {
                assert(v@.contains(p));
            }
            return ;
        }
        i += 1;
    }
    assert(!v@.contains(p));
    v.push(p);
    proof {
        assert forall|t: Point| final(v)@.contains(t) <==> (old(v)@.contains(t) || t == p) by {
            if final(v)@.contains(t) {
                let k = choose|k: int| 0 <= k < final(v)@.len() && final(v)@[k] == t;
                if k < old(v)@.len() {
                    assert(old(v)@[k] == t);
                }
            }
            if old(v)@.contains(t) {
                let k = choose|k: int| 0 <= k < old(v)@.len() && old(v)@[k] == t;
                assert(final(v)@[k] == t);
            }
            if t == p {
                assert(final(v)@[old(v)@.len() as int] == p);
            }
        }
    }
}

/// `a` is lexicographically no greater than `b` (column first, then row).
pub open spec fn lex_le(a: Point, b: Point) -> bool {
    a.0 < b.0 || (a.0 == b.0 && a.1 <= b.1)
}

/// One of the eight compass directions the tracer scans, as an `(dx, dy)`
/// offset: north first, then counterclockwise.
pub open spec fn spec_dir8(i: int) -> (i32, i32) {
    if i == 0 {
        (0i32, -1i32)
    } else if i == 1 {
        (-1i32, -1i32)
    } else if i == 2 {
        (-1i32, 0i32)
    } else if i == 3 {
        (-1i32, 1i32)
    } else if i == 4 {
        (0i32, 1i32)
    } else if i == 5 {
        (1i32, 1i32)
    } else if i == 6 {
        (1i32, 0i32)
    } else {
        (1i32, -1i32)
    }
}

/// Column displacement of one step in compass direction `d`.
pub open spec fn dir_dx(d: int) -> int {
    spec_dir8(d).0 as int
}

/// Row displacement of one step in compass direction `d`.
pub open spec fn dir_dy(d: int) -> int {
    spec_dir8(d).1 as int
}

/// `b` is reached from `a` by exactly `t` steps in compass direction `d`,
/// and every intermediate point of the run belongs to the set `bd`.
pub open spec fn straight_chain(bd: Seq<Point>, a: Point, b: Point, d: int, t: int) -> bool
    decreases t,
{
    if t <= 0 {
        false
    } else {
        let nx = a.0 as int + dir_dx(d);
        let ny = a.1 as int + dir_dy(d);
        &&& 0 <= nx < 65536
        &&& 0 <= ny < 65536
        &&& if t == 1 {
            b == (nx as u16, ny as u16)
        } else {
            bd.contains((nx as u16, ny as u16)) && straight_chain(
                bd,
                (nx as u16, ny as u16),
                b,
                d,
                t - 1,
            )
        }
    }
}

/// A straight run through a set extends by one more step through one of its
/// points.
proof fn lemma_chain_extend(bd: Seq<Point>, a: Point, m: Point, b: Point, d: int, t: int)
    requires
        t >= 1,
        straight_chain(bd, a, m, d, t),
        bd.contains(m),
        b.0 as int == m.0 as int + dir_dx(d),
        b.1 as int == m.1 as int + dir_dy(d),
    ensures
        straight_chain(bd, a, b, d, t + 1),
    decreases t,
{
    let nx = a.0 as int + dir_dx(d);
    let ny = a.1 as int + dir_dy(d);
    if t == 1 {
        assert(m == (nx as u16, ny as u16));
        assert(straight_chain(bd, m, b, d, 1));
    } else {
        lemma_chain_extend(bd, (nx as u16, ny as u16), m, b, d, t - 1);
    }
}

/// `b` follows `a` along one straight compass run whose interior points all
/// belong to `bd`.
pub open spec fn linked(bd: Seq<Point>, a: Point, b: Point) -> bool {
    exists|d: int, t: int| 0 <= d < 8 && 1 <= t && #[trigger] straight_chain(bd, a, b, d, t)
}

/// Returns the `i`th of the eight compass offsets.
fn dir8(i: usize) -> (d: (i32, i32))
    requires
        i < 8,
    ensures
        d == spec_dir8(i as int),
{
    if i == 0 {
        (0, -1)
    } else if i == 1 {
        (-1, -1)
    } else if i == 2 {
        (-1, 0)
    } else if i == 3 {
        (-1, 1)
    } else if i == 4 {
        (0, 1)
    } else if i == 5 {
        (1, 1)
    } else if i == 6 {
        (1, 0)
    } else {
        (1, -1)
    }
}

/// Finds the position of the grid point `(cx, cy)` in `bs`, if any.
fn find_pt(bs: &Vec<Point>, cx: i32, cy: i32) -> (r: Option<usize>)
    ensures
        r matches Some(i) ==> i < bs@.len() && bs@[i as int].0 as i32 == cx && bs@[i as int].1
            as i32 == cy,
        r is None ==> forall|i: int|
            0 <= i < bs@.len() ==> !((#[trigger] bs@[i]).0 as i32 == cx && bs@[i].1 as i32 == cy),
{
    let mut i: usize = 0;
    while i < bs.len()
        invariant
            i <= bs@.len(),
            forall|k: int|
                0 <= k < i ==> !((#[trigger] bs@[k]).0 as i32 == cx && bs@[k].1 as i32 == cy),
        decreases bs@.len() - i,
    {
        let q = bs[i];
        if q.0 as i32 == cx && q.1 as i32 == cy {
            return Some(i);
        }
        i += 1;
    }
    None
}

/// Removes the one occurrence of `p` from the duplicate-free vector `bs`.
fn remove_pt(bs: &mut Vec<Point>, p: Point)
    requires
        distinct_seq(old(bs)@),
        old(bs)@.contains(p),
    ensures
        distinct_seq(final(bs)@),
        final(bs)@.len() == old(bs)@.len() - 1,
        forall|t: Point| final(bs)@.contains(t) <==> (old(bs)@.contains(t) && t != p),
{
    let mut i: usize = 0;
    while i < bs.len()
        invariant
            i <= bs@.len(),
            bs@ == old(bs)@,
            distinct_seq(bs@),
            forall|k: int| 0 <= k < i ==> bs@[k] != p,
            bs@.contains(p),
        decreases bs@.len() - i,
    {
        let q = bs[i];
        if q.0 == p.0 && q.1 == p.1 {
            let idx = i;
            bs.remove(idx);
            proof {
                let pre = old(bs)@;
                assert forall|k: int|
                    0 <= k < pre.len() - 1 implies bs@[k] == (if k < idx {
                        pre[k]
                    } else {
                        pre[k + 1]
                    }) by {}
                assert forall|pp: int, qq: int|
                    0 <= pp < qq < bs@.len() implies bs@[pp] != bs@[qq] by {}
                assert forall|t: Point| bs@.contains(t) <==> (pre.contains(t) && t != p) by {
                    if bs@.contains(t) {
                        let k = choose|k: int| 0 <= k < bs@.len() && bs@[k] == t;
                        if k < idx {
                            assert(pre[k] == t);
                        } else {
                            assert(pre[k + 1] == t);
                            assert(k + 1 != idx);
                        }
                    }
                    if pre.contains(t) && t != p {
                        let k = choose|k: int| 0 <= k < pre.len() && pre[k] == t;
                        assert(k != idx);
                        if k < idx {
                            assert(bs@[k] == t);
                        } else {
                            assert(bs@[k - 1] == t);
                        }
                    }
                }
            }
            return ;
        }
        i += 1;
    }
    proof {
        let k = choose|k: int| 0 <= k < bs@.len() && bs@[k] == p;
        assert(false);
    }
}

impl RegionMap {
    /// Number of regions in the map.
    pub open spec fn n_regions(self) -> int {
        self.regions@.len() as int
    }

    /// Region `j` occurs in region `i`'s neighbor list.
    pub open spec fn adj(self, i: int, j: int) -> bool {
        self.regions@[i].neighbors@.contains(j as RegionId)
    }

    /// Every neighbor id is a valid region id other than the owner's own id.
    pub open spec fn wf_adjacency(self) -> bool {
        forall|i: int, k: int|
            0 <= i < self.n_regions() && 0 <= k < self.regions@[i].neighbors@.len()
                ==> (#[trigger] self.regions@[i].neighbors@[k]) < self.regions@.len()
                    && self.regions@[i].neighbors@[k] as int != i
    }

    /// The adjacency relation is symmetric.
    pub open spec fn symmetric(self) -> bool {
        forall|i: int, j: int|
            0 <= i < self.n_regions() && 0 <= j < self.n_regions()
                ==> ((#[trigger] self.adj(i, j)) <==> self.adj(j, i))
    }

    /// The raster has `h` rows of `w` cells each.
    pub open spec fn raster_dims(self, w: int, h: int) -> bool {
        &&& self.raster@.len() == h
        &&& forall|y: int| 0 <= y < h ==> (#[trigger] self.raster@[y]).len() == w
    }

    /// Every raster cell holds a valid region id: the grid is fully
    /// partitioned, no unclaimed sentinel survives generation.
    pub open spec fn raster_in_range(self) -> bool {
        forall|y: int, x: int|
            0 <= y < self.raster@.len() && 0 <= x < self.raster@[y].len()
                ==> (#[trigger] self.raster@[y][x]) < self.regions@.len()
    }

    /// Per-region bookkeeping is duplicate-free.
    pub open spec fn wf_regions(self) -> bool {
        forall|i: int| 0 <= i < self.n_regions()
            ==> distinct_seq((#[trigger] self.regions@[i]).neighbors@)
                && distinct_seq(self.regions@[i].boundary@)
    }

    /// Every recorded boundary cell of a region lies on the grid and is owned
    /// by that region in the raster.
    pub open spec fn boundary_owned(self, w: int, h: int) -> bool {
        forall|i: int, k: int|
            0 <= i < self.n_regions() && 0 <= k < self.regions@[i].boundary@.len() ==> in_grid(
                w,
                h,
                (#[trigger] self.regions@[i].boundary@[k]).0 as int,
                self.regions@[i].boundary@[k].1 as int,
            ) && self.raster@[self.regions@[i].boundary@[k].1 as int]@[self.regions@[i].boundary@[k].0 as int] == i
    }

    /// On any grid with at least two cells, every cell on the outer rim is
    /// recorded in its owner's boundary: the rim is always boundary, even
    /// with no foreign neighbor.
    pub open spec fn rim_recorded(self, w: int, h: int) -> bool {
        w > 1 || h > 1 ==> forall|x: int, y: int|
            #![trigger self.raster@[y]@[x]]
            in_grid(w, h, x, y) && on_rim(w, h, x, y)
                ==> self.regions@[self.raster@[y]@[x] as int].boundary@.contains(
                (x as u16, y as u16),
            )
    }

    /// Every recorded boundary cell of a region lies on the outer rim of the
    /// grid or borders a cell of a different region: no interior cell is ever
    /// marked boundary.
    pub open spec fn boundary_justified(self, w: int, h: int) -> bool {
        forall|i: int, k: int|
            0 <= i < self.n_regions() && 0 <= k < self.regions@[i].boundary@.len() ==> on_rim(
                w,
                h,
                (#[trigger] self.regions@[i].boundary@[k]).0 as int,
                self.regions@[i].boundary@[k].1 as int,
            ) || has_foreign_nbr(
                self.raster@,
                self.n_regions(),
                w,
                h,
                self.regions@[i].boundary@[k].0 as int,
                self.regions@[i].boundary@[k].1 as int,
            )
    }

    /// Whenever two 4-adjacent cells belong to different regions, the cell is
    /// recorded in its owner's boundary and the two owners are recorded in
    /// each other's neighbor lists.
    pub open spec fn borders_recorded(self, w: int, h: int) -> bool {
        forall|x: int, y: int, d: int|
            #![trigger self.raster@[y]@[x], nbr_x(x, d), nbr_y(y, d)]
            0 <= d < 4 && in_grid(w, h, x, y) && in_grid(w, h, nbr_x(x, d), nbr_y(y, d))
                && self.raster@[nbr_y(y, d)]@[nbr_x(x, d)] != self.raster@[y]@[x]
                ==> self.regions@[self.raster@[y]@[x] as int].boundary@.contains(
                (x as u16, y as u16),
            ) && self.regions@[self.raster@[y]@[x] as int].neighbors@.contains(
                self.raster@[nbr_y(y, d)]@[nbr_x(x, d)],
            )
    }

    /// Every recorded neighbor pair shares a border on the raster: there is a
    /// pair of 4-adjacent cells owned by the two regions.
    pub open spec fn adjacency_witnessed(self, w: int, h: int) -> bool {
        forall|i: int, j: int|
            0 <= i < self.n_regions() && 0 <= j < self.n_regions() && #[trigger] self.adj(i, j)
                ==> shares_border(self.raster@, w, h, i, j)
    }

    /// Generates a new voronoi-like partition of a `dims.0` by `dims.1` grid
    /// by growing one region around each of the given seed points, all
    /// regions advancing one breadth-first ring per round.  A cell contested
    /// in the same round goes to the seed of the lowest region id, which
    /// makes the result deterministic.  Duplicate seeds are rejected: the
    /// caller passes distinct, in-range seeds.
    #[verifier::rlimit(100)]
    pub fn voronoi_like(pivots: Vec<Point>, dims: (u16, u16)) -> (m: RegionMap)
        requires
            dims.0 > 0,
            dims.1 > 0,
            pivots@.len() > 0,
            distinct_seq(pivots@),
            forall|i: int|
                0 <= i < pivots@.len() ==> (#[trigger] pivots@[i]).0 < dims.0 && pivots@[i].1
                    < dims.1,
        ensures
            m.regions@.len() == pivots@.len(),
            forall|i: int|
                0 <= i < pivots@.len() ==> (#[trigger] m.regions@[i]).pivot == pivots@[i],
            m.raster_dims(dims.0 as int, dims.1 as int),
            m.raster_in_range(),
            forall|i: int|
                0 <= i < pivots@.len() ==> m.raster@[(#[trigger] pivots@[i]).1 as int]@[pivots@[i].0 as int] == i,
            m.wf_adjacency(),
            m.symmetric(),
            m.wf_regions(),
            m.boundary_owned(dims.0 as int, dims.1 as int),
            m.rim_recorded(dims.0 as int, dims.1 as int),
            m.borders_recorded(dims.0 as int, dims.1 as int),
            m.adjacency_witnessed(dims.0 as int, dims.1 as int),
            m.boundary_justified(dims.0 as int, dims.1 as int),
    {
        let w = dims.0;
        let h = dims.1;
        let n = pivots.len();

        // raster of sentinels: no cell is claimed yet
        let mut canvas: Vec<Vec<usize>> = Vec::new();
        while canvas.len() < h as usize
            invariant
                canvas@.len() <= h as int,
                forall|y: int| 0 <= y < canvas@.len() ==> (#[trigger] canvas@[y])@.len() == w as int,
                forall|y: int, x: int|
                    0 <= y < canvas@.len() && 0 <= x < w as int ==> (#[trigger] canvas@[y]@[x])
                        == n,
            decreases h as int - canvas@.len(),
        {
            let mut row: Vec<usize> = Vec::new();
            while row.len() < w as usize
                invariant
                    row@.len() <= w as int,
                    forall|x: int| 0 <= x < row@.len() ==> (#[trigger] row@[x]) == n,
                decreases w as int - row@.len(),
            {
                row.push(n);
            }
            canvas.push(row);
        }

        // each seed claims its own cell and forms its region's first frontier
        let mut regions: Vec<Region> = Vec::new();
        let mut boundaries: Vec<Vec<Point>> = Vec::new();
        let mut i: usize = 0;
        while i < n
            invariant
                i <= n,
                n == pivots@.len(),
                distinct_seq(pivots@),
                forall|j: int|
                    0 <= j < n ==> (#[trigger] pivots@[j]).0 < w && pivots@[j].1 < h,
                canvas@.len() == h as int,
                forall|y: int| 0 <= y < h as int ==> (#[trigger] canvas@[y])@.len() == w as int,
                regions@.len() == i,
                boundaries@.len() == i,
                forall|j: int|
                    0 <= j < i ==> (#[trigger] regions@[j]).pivot == pivots@[j]
                        && regions@[j].boundary@.len() == 0 && regions@[j].neighbors@.len() == 0,
                forall|j: int|
                    0 <= j < i ==> (#[trigger] boundaries@[j])@.len() == 1 && boundaries@[j]@[0]
                        == pivots@[j],
                forall|j: int|
                    0 <= j < i ==> canvas@[(#[trigger] pivots@[j]).1 as int]@[pivots@[j].0 as int]
                        == j,
                forall|y: int, x: int|
                    0 <= y < h as int && 0 <= x < w as int ==> (#[trigger] canvas@[y]@[x]) == n
                        || (canvas@[y]@[x] < i && pivots@[canvas@[y]@[x] as int] == (
                    x as u16,
                    y as u16,
                    )),
            decreases n - i,
        {
            let p = pivots[i];
            regions.push(Region { pivot: p, boundary: Vec::new(), neighbors: Vec::new() });
            let mut f: Vec<Point> = Vec::new();
            f.push(p);
            boundaries.push(f);
            let ghost cpre = canvas@;
            {
                let row = &mut canvas[p.1 as usize];
                row.set(p.0 as usize, i);
            }
            proof {
                assert forall|y: int, x: int|
                    0 <= y < h as int && 0 <= x < w as int && !(x == p.0 as int && y
                        == p.1 as int) implies canvas@[y]@[x] == cpre[y]@[x] by {}
            }
            i += 1;
        }

        proof {
            // every claimed cell is a seed sitting on its own frontier
            assert forall|x: int, y: int|
                in_grid(w as int, h as int, x, y) && #[trigger] claimed(
                    canvas@,
                    n as int,
                    x,
                    y,
                ) implies in_frontiers(boundaries@, (x as u16, y as u16)) || settled(
                canvas@,
                regions@,
                n as int,
                w as int,
                h as int,
                x,
                y,
            ) by {
                let j = canvas@[y]@[x] as int;
                assert(boundaries@[j]@[0] == (x as u16, y as u16));
                assert(boundaries@[j]@.contains((x as u16, y as u16)));
            }
        }

        // synchronous rounds: every region extends its frontier by one ring,
        // until no frontier can grow any further
        loop
            invariant
                n == pivots@.len(),
                n >= 1,
                grid_inv(w, h, n, canvas@),
                seeds_inv(pivots@, w, h, n, canvas@, regions@),
                fronts_inv(w, h, n, canvas@, boundaries@),
                adj_inv(w, h, n, canvas@, regions@),
                adj_sound_inv(w, h, n, canvas@, regions@),
                bd_char_inv(w, h, n, canvas@, regions@),
                closure_inv(w, h, n, canvas@, regions@, boundaries@),
            ensures
                forall|j: int| 0 <= j < n ==> (#[trigger] boundaries@[j])@.len() == 0,
            decreases count_unclaimed(canvas@, n as int),
        {
            let mut changed = false;
            let ghost c0 = canvas@;
            let mut rid: usize = 0;
            while rid < n
                invariant
                    n == pivots@.len(),
                    n >= 1,
                    rid <= n,
                    grid_inv(w, h, n, canvas@),
                    seeds_inv(pivots@, w, h, n, canvas@, regions@),
                    fronts_inv(w, h, n, canvas@, boundaries@),
                    adj_inv(w, h, n, canvas@, regions@),
                    adj_sound_inv(w, h, n, canvas@, regions@),
                    bd_char_inv(w, h, n, canvas@, regions@),
                    closure_inv(w, h, n, canvas@, regions@, boundaries@),
                    count_unclaimed(c0, n as int) - count_unclaimed(canvas@, n as int)
                        == sum_flens(boundaries@, rid as int),
                    changed <==> exists|j: int|
                        0 <= j < rid && (#[trigger] boundaries@[j])@.len() > 0,
                decreases n - rid,
            {
                let bs_len = boundaries[rid].len();
                let mut newbs: Vec<Point> = Vec::new();
                let mut k2: usize = 0;
                proof {
                    // switch the closure invariant to its mid-round shape
                    assert forall|x: int, y: int|
                        in_grid(w as int, h as int, x, y) && #[trigger] claimed(
                            canvas@,
                            n as int,
                            x,
                            y,
                        ) implies (exists|j: int|
                        0 <= j < n && j != rid as int && #[trigger] boundaries@[j]@.contains(
                            (x as u16, y as u16),
                        )) || (exists|kk: int|
                        0 <= kk < boundaries@[rid as int]@.len() && boundaries@[rid as int]@[kk]
                            == (x as u16, y as u16)) || newbs@.contains((x as u16, y as u16))
                        || settled(canvas@, regions@, n as int, w as int, h as int, x, y) by {
                        if in_frontiers(boundaries@, (x as u16, y as u16)) {
                            let j = choose|j: int|
                                0 <= j < boundaries@.len() && #[trigger] boundaries@[j]@.contains(
                                    (x as u16, y as u16),
                                );
                            if j == rid as int {
                                let kk = choose|kk: int|
                                    0 <= kk < boundaries@[j]@.len() && boundaries@[j]@[kk] == (
                                    x as u16,
                                    y as u16,
                                    );
                                assert(boundaries@[rid as int]@[kk] == (x as u16, y as u16));
                            }
                        }
                    }
                }
                while k2 < bs_len
                    invariant
                        n == pivots@.len(),
                        n >= 1,
                        rid < n,
                        k2 <= bs_len,
                        bs_len == boundaries@[rid as int]@.len(),
                        grid_inv(w, h, n, canvas@),
                        seeds_inv(pivots@, w, h, n, canvas@, regions@),
                        fronts_inv(w, h, n, canvas@, boundaries@),
                        adj_inv(w, h, n, canvas@, regions@),
                        adj_sound_inv(w, h, n, canvas@, regions@),
                        bd_char_inv(w, h, n, canvas@, regions@),
                        closure_mid(
                            w,
                            h,
                            n,
                            canvas@,
                            regions@,
                            boundaries@,
                            rid as int,
                            k2 as int,
                            newbs@,
                        ),
                        forall|k: int|
                            0 <= k < newbs@.len() ==> in_grid(
                                w as int,
                                h as int,
                                (#[trigger] newbs@[k]).0 as int,
                                newbs@[k].1 as int,
                            ) && canvas@[newbs@[k].1 as int]@[newbs@[k].0 as int] == rid as int,
                        count_unclaimed(c0, n as int) - count_unclaimed(canvas@, n as int)
                            == sum_flens(boundaries@, rid as int) + newbs@.len(),
                        changed <==> exists|j: int|
                            0 <= j < rid && (#[trigger] boundaries@[j])@.len() > 0,
                    decreases bs_len - k2,
                {
                    let p = boundaries[rid][k2];
                    let mut d: usize = 0;
                    while d < 4
                        invariant
                            n == pivots@.len(),
                            n >= 1,
                            rid < n,
                            k2 < bs_len,
                            d <= 4,
                            bs_len == boundaries@[rid as int]@.len(),
                            p == boundaries@[rid as int]@[k2 as int],
                            grid_inv(w, h, n, canvas@),
                            seeds_inv(pivots@, w, h, n, canvas@, regions@),
                            fronts_inv(w, h, n, canvas@, boundaries@),
                            adj_inv(w, h, n, canvas@, regions@),
                            adj_sound_inv(w, h, n, canvas@, regions@),
                            bd_char_inv(w, h, n, canvas@, regions@),
                            closure_mid(
                                w,
                                h,
                                n,
                                canvas@,
                                regions@,
                                boundaries@,
                                rid as int,
                                k2 as int,
                                newbs@,
                            ),
                            forall|k: int|
                                0 <= k < newbs@.len() ==> in_grid(
                                    w as int,
                                    h as int,
                                    (#[trigger] newbs@[k]).0 as int,
                                    newbs@[k].1 as int,
                                ) && canvas@[newbs@[k].1 as int]@[newbs@[k].0 as int]
                                    == rid as int,
                            count_unclaimed(c0, n as int) - count_unclaimed(canvas@, n as int)
                                == sum_flens(boundaries@, rid as int) + newbs@.len(),
                            changed <==> exists|j: int|
                                0 <= j < rid && (#[trigger] boundaries@[j])@.len() > 0,
                            forall|dd: int|
                                0 <= dd < d ==> #[trigger] nbr_ok(
                                    canvas@,
                                    n as int,
                                    w as int,
                                    h as int,
                                    p.0 as int,
                                    p.1 as int,
                                    dd,
                                ),
                            forall|dd: int|
                                0 <= dd < d ==> #[trigger] nbr_bordered(
                                    canvas@,
                                    regions@,
                                    n as int,
                                    w as int,
                                    h as int,
                                    p.0 as int,
                                    p.1 as int,
                                    dd,
                                ),
                            forall|dd: int|
                                0 <= dd < d ==> #[trigger] nbr_rim_rec(
                                    canvas@,
                                    regions@,
                                    n as int,
                                    w as int,
                                    h as int,
                                    p.0 as int,
                                    p.1 as int,
                                    dd,
                                ),
                        decreases 4 - d,
                    {
                        proof {
                            // the frontier cell itself is on the grid
                            assert(in_grid(w as int, h as int, p.0 as int, p.1 as int));
                        }
                        let (inb, x, y): (bool, u16, u16) = if d == 0 {
                            if p.0 > 0 {
                                (true, p.0 - 1, p.1)
                            } else {
                                (false, 0, 0)
                            }
                        } else if d == 1 {
                            if p.1 > 0 {
                                (true, p.0, p.1 - 1)
                            } else {
                                (false, 0, 0)
                            }
                        } else if d == 2 {
                            if p.1 + 1 < h {
                                (true, p.0, p.1 + 1)
                            } else {
                                (false, 0, 0)
                            }
                        } else {
                            if p.0 + 1 < w {
                                (true, p.0 + 1, p.1)
                            } else {
                                (false, 0, 0)
                            }
                        };
                        if inb {
                            let on_boundary = x == 0 || x == w - 1 || y == 0 || y == h - 1;
                            let mut closest_rid = canvas[y as usize][x as usize];
                            if closest_rid >= n {
                                let ghost cpre = canvas@;
                                let ghost nb_pre = newbs@;
                                {
                                    let row = &mut canvas[y as usize];
                                    row.set(x as usize, rid);
                                }
                                newbs.push((x, y));
                                proof {
                                    lemma_count_claim(
                                        cpre,
                                        n as int,
                                        x as int,
                                        y as int,
                                        canvas@[y as int],
                                        rid,
                                    );
                                    assert(canvas@ == cpre.update(y as int, canvas@[y as int]));
                                    assert forall|xx: int, yy: int|
                                        in_grid(w as int, h as int, xx, yy) && !(xx == x as int
                                            && yy == y as int) implies canvas@[yy]@[xx]
                                        == cpre[yy]@[xx] by {}
                                    assert(canvas@[y as int]@[x as int] == rid as int);
                                    assert(newbs@ == nb_pre.push((x, y)));
                                    assert(newbs@[nb_pre.len() as int] == (x, y));
                                    // every previously claimed cell keeps its owner,
                                    // so each bundled invariant survives the claim
                                    assert forall|xx: int, yy: int|
                                        in_grid(w as int, h as int, xx, yy) && #[trigger] claimed(
                                            cpre,
                                            n as int,
                                            xx,
                                            yy,
                                        ) implies claimed(canvas@, n as int, xx, yy)
                                        && canvas@[yy]@[xx] == cpre[yy]@[xx] by {}
                                    lemma_prefix_canvas_mono(
                                        cpre,
                                        canvas@,
                                        regions@,
                                        n as int,
                                        w as int,
                                        h as int,
                                        p.0 as int,
                                        p.1 as int,
                                        d as int,
                                    );
                                    assert forall|i2: int, j2: usize|
                                        0 <= i2 < n && #[trigger] regions@[i2].neighbors@.contains(
                                            j2,
                                        ) implies shares_border(
                                        canvas@,
                                        w as int,
                                        h as int,
                                        i2,
                                        j2 as int,
                                    ) by {
                                        assert(shares_border(cpre, w as int, h as int, i2, j2 as int));
                                        let kk = choose|kk: int|
                                            0 <= kk < regions@[i2].neighbors@.len()
                                                && regions@[i2].neighbors@[kk] == j2;
                                        assert(regions@[i2].neighbors@[kk] < n);
                                        lemma_shares_border_canvas(
                                            cpre,
                                            canvas@,
                                            w as int,
                                            h as int,
                                            n as int,
                                            i2,
                                            j2 as int,
                                        );
                                    }
                                    assert forall|j2: int, kb: int|
                                        0 <= j2 < n && 0 <= kb
                                            < regions@[j2].boundary@.len() implies on_rim(
                                        w as int,
                                        h as int,
                                        (#[trigger] regions@[j2].boundary@[kb]).0 as int,
                                        regions@[j2].boundary@[kb].1 as int,
                                    ) || has_foreign_nbr(
                                        canvas@,
                                        n as int,
                                        w as int,
                                        h as int,
                                        regions@[j2].boundary@[kb].0 as int,
                                        regions@[j2].boundary@[kb].1 as int,
                                    ) by {
                                        let t = regions@[j2].boundary@[kb];
                                        if !on_rim(w as int, h as int, t.0 as int, t.1 as int) {
                                            assert(claimed(cpre, n as int, t.0 as int, t.1 as int));
                                            lemma_foreign_canvas_mono(
                                                cpre,
                                                canvas@,
                                                n as int,
                                                w as int,
                                                h as int,
                                                t.0 as int,
                                                t.1 as int,
                                            );
                                        }
                                    }
                                    assert forall|x2: int, y2: int|
                                        in_grid(w as int, h as int, x2, y2) && #[trigger] claimed(
                                            canvas@,
                                            n as int,
                                            x2,
                                            y2,
                                        ) implies (exists|j: int|
                                        0 <= j < n && j != rid as int
                                            && #[trigger] boundaries@[j]@.contains(
                                            (x2 as u16, y2 as u16),
                                        )) || (exists|kk: int|
                                        k2 <= kk < boundaries@[rid as int]@.len()
                                            && boundaries@[rid as int]@[kk] == (
                                        x2 as u16,
                                        y2 as u16,
                                        )) || newbs@.contains((x2 as u16, y2 as u16))
                                        || settled(
                                        canvas@,
                                        regions@,
                                        n as int,
                                        w as int,
                                        h as int,
                                        x2,
                                        y2,
                                    ) by {
                                        let pt2 = (x2 as u16, y2 as u16);
                                        if x2 == x as int && y2 == y as int {
                                            assert(newbs@.contains(pt2));
                                        } else {
                                            assert(claimed(cpre, n as int, x2, y2));
                                            if exists|j: int|
                                                0 <= j < n && j != rid as int
                                                    && #[trigger] boundaries@[j]@.contains(pt2) {
                                            } else if exists|kk: int|
                                                k2 <= kk < boundaries@[rid as int]@.len()
                                                    && boundaries@[rid as int]@[kk] == pt2 {
                                            } else if nb_pre.contains(pt2) {
                                                let kk = choose|kk: int|
                                                    0 <= kk < nb_pre.len() && nb_pre[kk] == pt2;
                                                assert(newbs@[kk] == pt2);
                                                assert(newbs@.contains(pt2));
                                            } else {
                                                assert(settled(
                                                    cpre,
                                                    regions@,
                                                    n as int,
                                                    w as int,
                                                    h as int,
                                                    x2,
                                                    y2,
                                                ));
                                                lemma_settled_canvas_mono(
                                                    cpre,
                                                    canvas@,
                                                    regions@,
                                                    n as int,
                                                    w as int,
                                                    h as int,
                                                    x2,
                                                    y2,
                                                );
                                            }
                                        }
                                    }
                                }
                                closest_rid = rid;
                            }
                            if closest_rid != rid {
                                let ghost g0 = regions@;
                                {
                                    let r1 = &mut regions[rid];
                                    insert_unique_id(&mut r1.neighbors, closest_rid);
                                    insert_unique_point(&mut r1.boundary, p);
                                }
                                {
                                    let r2 = &mut regions[closest_rid];
                                    insert_unique_id(&mut r2.neighbors, rid);
                                }
                                proof {
                                    let cr = closest_rid as int;
                                    let ri = rid as int;
                                    assert forall|j: int|
                                        0 <= j < n && j != ri && j != cr implies regions@[j]
                                        == g0[j] by {}
                                    assert forall|jj: int, t: usize|
                                        0 <= jj < n && #[trigger] g0[jj].neighbors@.contains(
                                            t,
                                        ) implies t < n && t as int != jj by {
                                        let k0 = choose|k0: int|
                                            0 <= k0 < g0[jj].neighbors@.len()
                                                && g0[jj].neighbors@[k0] == t;
                                        assert(g0[jj].neighbors@[k0] < n);
                                    }
                                    assert forall|j: int, k: int|
                                        0 <= j < n && 0 <= k < regions@[j].neighbors@.len() implies (
                                    #[trigger] regions@[j].neighbors@[k]) < n
                                        && regions@[j].neighbors@[k] as int != j by {
                                        let t = regions@[j].neighbors@[k];
                                        assert(regions@[j].neighbors@.contains(t));
                                        if j != ri && j != cr {
                                            assert(g0[j].neighbors@.contains(t));
                                        }
                                    }
                                    assert forall|a: int, b: int|
                                        0 <= a < n && 0 <= b < n implies ((
                                    #[trigger] regions@[a].neighbors@.contains(b as usize)) <==> regions@[b].neighbors@.contains(a as usize)) by {
                                        assert(g0[a].neighbors@.contains(b as usize)
                                            <==> g0[b].neighbors@.contains(a as usize));
                                        if a != ri && a != cr {
                                            assert(regions@[a].neighbors@ == g0[a].neighbors@);
                                        }
                                        if b != ri && b != cr {
                                            assert(regions@[b].neighbors@ == g0[b].neighbors@);
                                        }
                                    }
                                    assert forall|j: int, k: int|
                                        0 <= j < n && 0 <= k
                                            < regions@[j].boundary@.len() implies in_grid(
                                        w as int,
                                        h as int,
                                        (#[trigger] regions@[j].boundary@[k]).0 as int,
                                        regions@[j].boundary@[k].1 as int,
                                    ) && canvas@[regions@[j].boundary@[k].1 as int]@[regions@[j].boundary@[k].0 as int]
                                        == j by {
                                        let t = regions@[j].boundary@[k];
                                        assert(regions@[j].boundary@.contains(t));
                                        if j == ri {
                                            if t != p {
                                                assert(g0[ri].boundary@.contains(t));
                                                let k0 = choose|k0: int|
                                                    0 <= k0 < g0[ri].boundary@.len()
                                                        && g0[ri].boundary@[k0] == t;
                                            }
                                        } else {
                                            assert(g0[j].boundary@.contains(t));
                                            let k0 = choose|k0: int|
                                                0 <= k0 < g0[j].boundary@.len()
                                                    && g0[j].boundary@[k0] == t;
                                        }
                                    }
                                    // records only grow, so settledness carries over
                                    assert forall|jj: int, t: Point|
                                        0 <= jj < n && #[trigger] g0[jj].boundary@.contains(
                                            t,
                                        ) implies regions@[jj].boundary@.contains(t) by {
                                        if jj != ri && jj != cr {
                                            assert(regions@[jj] == g0[jj]);
                                        } else if jj == cr && jj != ri {
                                            assert(regions@[cr].boundary@ == g0[cr].boundary@);
                                        }
                                    }
                                    assert forall|jj: int, t: usize|
                                        0 <= jj < n && #[trigger] g0[jj].neighbors@.contains(
                                            t,
                                        ) implies regions@[jj].neighbors@.contains(t) by {
                                        if jj != ri && jj != cr {
                                            assert(regions@[jj] == g0[jj]);
                                        }
                                    }
                                    lemma_prefix_regions_mono(
                                        canvas@,
                                        g0,
                                        regions@,
                                        n as int,
                                        w as int,
                                        h as int,
                                        p.0 as int,
                                        p.1 as int,
                                        d as int,
                                    );
                                    assert forall|x2: int, y2: int|
                                        in_grid(w as int, h as int, x2, y2) && #[trigger] claimed(
                                            canvas@,
                                            n as int,
                                            x2,
                                            y2,
                                        ) implies (exists|j: int|
                                        0 <= j < n && j != rid as int
                                            && #[trigger] boundaries@[j]@.contains(
                                            (x2 as u16, y2 as u16),
                                        )) || (exists|kk: int|
                                        k2 <= kk < boundaries@[rid as int]@.len()
                                            && boundaries@[rid as int]@[kk] == (
                                        x2 as u16,
                                        y2 as u16,
                                        )) || newbs@.contains((x2 as u16, y2 as u16)) || settled(
                                        canvas@,
                                        regions@,
                                        n as int,
                                        w as int,
                                        h as int,
                                        x2,
                                        y2,
                                    ) by {
                                        let pt2 = (x2 as u16, y2 as u16);
                                        if !((exists|j: int|
                                            0 <= j < n && j != rid as int
                                                && #[trigger] boundaries@[j]@.contains(pt2)) || (
                                        exists|kk: int|
                                            k2 <= kk < boundaries@[rid as int]@.len()
                                                && boundaries@[rid as int]@[kk] == pt2)
                                            || newbs@.contains(pt2)) {
                                            assert(settled(
                                                canvas@,
                                                g0,
                                                n as int,
                                                w as int,
                                                h as int,
                                                x2,
                                                y2,
                                            ));
                                            lemma_settled_regions_mono(
                                                canvas@,
                                                g0,
                                                regions@,
                                                n as int,
                                                w as int,
                                                h as int,
                                                x2,
                                                y2,
                                            );
                                        }
                                    }
                                    assert forall|j2: int, kb: int|
                                        0 <= j2 < n && 0 <= kb
                                            < regions@[j2].boundary@.len() implies on_rim(
                                        w as int,
                                        h as int,
                                        (#[trigger] regions@[j2].boundary@[kb]).0 as int,
                                        regions@[j2].boundary@[kb].1 as int,
                                    ) || has_foreign_nbr(
                                        canvas@,
                                        n as int,
                                        w as int,
                                        h as int,
                                        regions@[j2].boundary@[kb].0 as int,
                                        regions@[j2].boundary@[kb].1 as int,
                                    ) by {
                                        let t = regions@[j2].boundary@[kb];
                                        assert(regions@[j2].boundary@.contains(t));
                                        if j2 == ri && t == p {
                                            assert(in_grid(
                                                w as int,
                                                h as int,
                                                nbr_x(p.0 as int, d as int),
                                                nbr_y(p.1 as int, d as int),
                                            ));
                                            assert(claimed(
                                                canvas@,
                                                n as int,
                                                nbr_x(p.0 as int, d as int),
                                                nbr_y(p.1 as int, d as int),
                                            ));
                                            assert(canvas@[nbr_y(p.1 as int, d as int)]@[nbr_x(
                                                p.0 as int,
                                                d as int,
                                            )] != canvas@[p.1 as int]@[p.0 as int]);
                                            assert(has_foreign_nbr(
                                                canvas@,
                                                n as int,
                                                w as int,
                                                h as int,
                                                t.0 as int,
                                                t.1 as int,
                                            ));
                                        } else {
                                            if j2 == ri {
                                                assert(g0[ri].boundary@.contains(t));
                                            } else {
                                                assert(g0[j2].boundary@.contains(t));
                                            }
                                            let k0 = choose|k0: int|
                                                0 <= k0 < g0[j2].boundary@.len()
                                                    && g0[j2].boundary@[k0] == t;
                                        }
                                    }
                                    assert forall|i2: int, j2: usize|
                                        0 <= i2 < n && #[trigger] regions@[i2].neighbors@.contains(
                                            j2,
                                        ) implies shares_border(
                                        canvas@,
                                        w as int,
                                        h as int,
                                        i2,
                                        j2 as int,
                                    ) by {
                                        if i2 == ri && j2 == closest_rid {
                                            assert(canvas@[p.1 as int]@[p.0 as int] == rid);
                                            assert(canvas@[nbr_y(p.1 as int, d as int)]@[nbr_x(
                                                p.0 as int,
                                                d as int,
                                            )] == closest_rid);
                                            assert(shares_border(
                                                canvas@,
                                                w as int,
                                                h as int,
                                                i2,
                                                j2 as int,
                                            ));
                                        } else if i2 == cr && j2 == rid {
                                            let rd: int = if d == 0 {
                                                3
                                            } else if d == 1 {
                                                2
                                            } else if d == 2 {
                                                1
                                            } else {
                                                0
                                            };
                                            assert(nbr_x(x as int, rd) == p.0 as int && nbr_y(
                                                y as int,
                                                rd,
                                            ) == p.1 as int);
                                            assert(canvas@[y as int]@[x as int] == closest_rid);
                                            assert(canvas@[nbr_y(y as int, rd)]@[nbr_x(
                                                x as int,
                                                rd,
                                            )] == rid);
                                            assert(shares_border(
                                                canvas@,
                                                w as int,
                                                h as int,
                                                i2,
                                                j2 as int,
                                            ));
                                        } else {
                                            assert(g0[i2].neighbors@.contains(j2));
                                        }
                                    }
                                }
                            } else {
                                if on_boundary {
                                    let ghost g0 = regions@;
                                    {
                                        let r1 = &mut regions[rid];
                                        insert_unique_point(&mut r1.boundary, (x, y));
                                    }
                                    proof {
                                        let ri = rid as int;
                                        assert forall|j: int|
                                            0 <= j < n && j != ri implies regions@[j] == g0[j] by {}
                                        assert(regions@[ri].neighbors@ == g0[ri].neighbors@);
                                        assert(canvas@[y as int]@[x as int] == rid as int);
                                        assert forall|j: int, k: int|
                                            0 <= j < n && 0 <= k
                                                < regions@[j].boundary@.len() implies in_grid(
                                            w as int,
                                            h as int,
                                            (#[trigger] regions@[j].boundary@[k]).0 as int,
                                            regions@[j].boundary@[k].1 as int,
                                        ) && canvas@[regions@[j].boundary@[k].1 as int]@[regions@[j].boundary@[k].0 as int]
                                            == j by {
                                            let t = regions@[j].boundary@[k];
                                            assert(regions@[j].boundary@.contains(t));
                                            if j == ri {
                                                if t != (x, y) {
                                                    assert(g0[ri].boundary@.contains(t));
                                                    let k0 = choose|k0: int|
                                                        0 <= k0 < g0[ri].boundary@.len()
                                                            && g0[ri].boundary@[k0] == t;
                                                }
                                            } else {
                                                assert(g0[j].boundary@.contains(t));
                                                let k0 = choose|k0: int|
                                                    0 <= k0 < g0[j].boundary@.len()
                                                        && g0[j].boundary@[k0] == t;
                                            }
                                        }
                                        assert forall|jj: int, t: Point|
                                            0 <= jj < n && #[trigger] g0[jj].boundary@.contains(
                                                t,
                                            ) implies regions@[jj].boundary@.contains(t) by {
                                            if jj != ri {
                                                assert(regions@[jj] == g0[jj]);
                                            }
                                        }
                                        assert forall|jj: int, t: usize|
                                            0 <= jj < n && #[trigger] g0[jj].neighbors@.contains(
                                                t,
                                            ) implies regions@[jj].neighbors@.contains(t) by {
                                            if jj != ri {
                                                assert(regions@[jj] == g0[jj]);
                                            }
                                        }
                                        lemma_prefix_regions_mono(
                                            canvas@,
                                            g0,
                                            regions@,
                                            n as int,
                                            w as int,
                                            h as int,
                                            p.0 as int,
                                            p.1 as int,
                                            d as int,
                                        );
                                        assert forall|x2: int, y2: int|
                                            in_grid(w as int, h as int, x2, y2)
                                                && #[trigger] claimed(
                                                canvas@,
                                                n as int,
                                                x2,
                                                y2,
                                            ) implies (exists|j: int|
                                            0 <= j < n && j != rid as int
                                                && #[trigger] boundaries@[j]@.contains(
                                                (x2 as u16, y2 as u16),
                                            )) || (exists|kk: int|
                                            k2 <= kk < boundaries@[rid as int]@.len()
                                                && boundaries@[rid as int]@[kk] == (
                                            x2 as u16,
                                            y2 as u16,
                                            )) || newbs@.contains((x2 as u16, y2 as u16))
                                            || settled(
                                            canvas@,
                                            regions@,
                                            n as int,
                                            w as int,
                                            h as int,
                                            x2,
                                            y2,
                                        ) by {
                                            let pt2 = (x2 as u16, y2 as u16);
                                            if !((exists|j: int|
                                                0 <= j < n && j != rid as int
                                                    && #[trigger] boundaries@[j]@.contains(pt2))
                                                || (exists|kk: int|
                                                k2 <= kk < boundaries@[rid as int]@.len()
                                                    && boundaries@[rid as int]@[kk] == pt2)
                                                || newbs@.contains(pt2)) {
                                                assert(settled(
                                                    canvas@,
                                                    g0,
                                                    n as int,
                                                    w as int,
                                                    h as int,
                                                    x2,
                                                    y2,
                                                ));
                                                lemma_settled_regions_mono(
                                                    canvas@,
                                                    g0,
                                                    regions@,
                                                    n as int,
                                                    w as int,
                                                    h as int,
                                                    x2,
                                                    y2,
                                                );
                                            }
                                        }
                                        assert forall|i2: int, j2: usize|
                                            0 <= i2 < n
                                                && #[trigger] regions@[i2].neighbors@.contains(
                                                j2,
                                            ) implies shares_border(
                                            canvas@,
                                            w as int,
                                            h as int,
                                            i2,
                                            j2 as int,
                                        ) by {
                                            assert(g0[i2].neighbors@.contains(j2));
                                        }
                                        assert forall|j2: int, kb: int|
                                            0 <= j2 < n && 0 <= kb
                                                < regions@[j2].boundary@.len() implies on_rim(
                                            w as int,
                                            h as int,
                                            (#[trigger] regions@[j2].boundary@[kb]).0 as int,
                                            regions@[j2].boundary@[kb].1 as int,
                                        ) || has_foreign_nbr(
                                            canvas@,
                                            n as int,
                                            w as int,
                                            h as int,
                                            regions@[j2].boundary@[kb].0 as int,
                                            regions@[j2].boundary@[kb].1 as int,
                                        ) by {
                                            let t = regions@[j2].boundary@[kb];
                                            assert(regions@[j2].boundary@.contains(t));
                                            if j2 == ri && t == (x, y) {
                                                assert(on_rim(
                                                    w as int,
                                                    h as int,
                                                    t.0 as int,
                                                    t.1 as int,
                                                ));
                                            } else {
                                                if j2 == ri {
                                                    assert(g0[ri].boundary@.contains(t));
                                                } else {
                                                    assert(g0[j2].boundary@.contains(t));
                                                }
                                                let k0 = choose|k0: int|
                                                    0 <= k0 < g0[j2].boundary@.len()
                                                        && g0[j2].boundary@[k0] == t;
                                            }
                                        }
                                    }
                                }
                            }
                            proof {
                                assert(x as int == nbr_x(p.0 as int, d as int) && y as int
                                    == nbr_y(p.1 as int, d as int));
                                assert(on_boundary == on_rim(
                                    w as int,
                                    h as int,
                                    x as int,
                                    y as int,
                                ));
                                assert(nbr_ok(
                                    canvas@,
                                    n as int,
                                    w as int,
                                    h as int,
                                    p.0 as int,
                                    p.1 as int,
                                    d as int,
                                ));
                                assert(nbr_bordered(
                                    canvas@,
                                    regions@,
                                    n as int,
                                    w as int,
                                    h as int,
                                    p.0 as int,
                                    p.1 as int,
                                    d as int,
                                ));
                                assert(nbr_rim_rec(
                                    canvas@,
                                    regions@,
                                    n as int,
                                    w as int,
                                    h as int,
                                    p.0 as int,
                                    p.1 as int,
                                    d as int,
                                ));
                            }
                        } else {
                            proof {
                                assert(nbr_ok(
                                    canvas@,
                                    n as int,
                                    w as int,
                                    h as int,
                                    p.0 as int,
                                    p.1 as int,
                                    d as int,
                                ));
                                assert(nbr_bordered(
                                    canvas@,
                                    regions@,
                                    n as int,
                                    w as int,
                                    h as int,
                                    p.0 as int,
                                    p.1 as int,
                                    d as int,
                                ));
                                assert(nbr_rim_rec(
                                    canvas@,
                                    regions@,
                                    n as int,
                                    w as int,
                                    h as int,
                                    p.0 as int,
                                    p.1 as int,
                                    d as int,
                                ));
                            }
                        }
                        d += 1;
                    }
                    proof {
                        // all four directions of `p` are settled now
                        assert(settled(
                            canvas@,
                            regions@,
                            n as int,
                            w as int,
                            h as int,
                            p.0 as int,
                            p.1 as int,
                        ));
                        assert forall|x2: int, y2: int|
                            in_grid(w as int, h as int, x2, y2) && #[trigger] claimed(
                                canvas@,
                                n as int,
                                x2,
                                y2,
                            ) implies (exists|j: int|
                            0 <= j < n && j != rid as int && #[trigger] boundaries@[j]@.contains(
                                (x2 as u16, y2 as u16),
                            )) || (exists|kk: int|
                            k2 + 1 <= kk < boundaries@[rid as int]@.len()
                                && boundaries@[rid as int]@[kk] == (x2 as u16, y2 as u16))
                            || newbs@.contains((x2 as u16, y2 as u16)) || settled(
                            canvas@,
                            regions@,
                            n as int,
                            w as int,
                            h as int,
                            x2,
                            y2,
                        ) by {
                            if exists|kk: int|
                                k2 <= kk < boundaries@[rid as int]@.len()
                                    && boundaries@[rid as int]@[kk] == (x2 as u16, y2 as u16) {
                                let kk = choose|kk: int|
                                    k2 <= kk < boundaries@[rid as int]@.len()
                                        && boundaries@[rid as int]@[kk] == (x2 as u16, y2 as u16);
                                if kk == k2 as int {
                                    assert(x2 == p.0 as int && y2 == p.1 as int);
                                }
                            }
                        }
                    }
                    k2 += 1;
                }
                let newbs_len = newbs.len();
                let ghost bpre = boundaries@;
                let ghost newbs_snap = newbs@;
                boundaries.set(rid, newbs);
                proof {
                    lemma_sum_flens_frame(boundaries@, bpre, rid as int);
                    assert(sum_flens(boundaries@, rid as int + 1) == sum_flens(
                        boundaries@,
                        rid as int,
                    ) + newbs_snap.len());
                    // the round's closure form is restored with the new frontier
                    assert forall|x2: int, y2: int|
                        in_grid(w as int, h as int, x2, y2) && #[trigger] claimed(
                            canvas@,
                            n as int,
                            x2,
                            y2,
                        ) implies in_frontiers(boundaries@, (x2 as u16, y2 as u16)) || settled(
                        canvas@,
                        regions@,
                        n as int,
                        w as int,
                        h as int,
                        x2,
                        y2,
                    ) by {
                        let pt = (x2 as u16, y2 as u16);
                        if exists|j: int|
                            0 <= j < n && j != rid as int && #[trigger] bpre[j]@.contains(pt) {
                            let j = choose|j: int|
                                0 <= j < n && j != rid as int && #[trigger] bpre[j]@.contains(pt);
                            assert(boundaries@[j]@.contains(pt));
                        } else if newbs_snap.contains(pt) {
                            assert(boundaries@[rid as int]@.contains(pt));
                        }
                    }
                }
                if newbs_len > 0 {
                    changed = true;
                }
                proof {
                    assert forall|j: int| 0 <= j < rid implies (#[trigger] boundaries@[j])@.len()
                        == bpre[j]@.len() by {}
                    if changed {
                        if newbs_len > 0 {
                            assert(boundaries@[rid as int]@.len() > 0);
                        } else {
                            let j = choose|j: int|
                                0 <= j < rid && (#[trigger] bpre[j])@.len() > 0;
                            assert(boundaries@[j]@.len() > 0);
                        }
                        assert(exists|j: int|
                            0 <= j < rid + 1 && (#[trigger] boundaries@[j])@.len() > 0);
                    } else {
                        assert forall|j: int| 0 <= j < rid + 1 implies (
                        #[trigger] boundaries@[j])@.len() == 0 by {
                            if j < rid {
                                assert(bpre[j]@.len() == 0);
                            }
                        }
                    }
                }
                rid += 1;
            }
            if !changed {
                break ;
            }
            proof {
                let j = choose|j: int| 0 <= j < n && (#[trigger] boundaries@[j])@.len() > 0;
                lemma_sum_flens_lower(boundaries@, j, n as int);
                lemma_count_nonneg(canvas@, n as int);
            }
        }

        proof {
            // no frontier is left, so the claimed cells are closed under
            // adjacency; since the first seed is claimed, the whole grid is
            assert forall|x: int, y: int|
                in_grid(w as int, h as int, x, y) implies claimed(canvas@, n as int, x, y) by {
                assert forall|xx: int, yy: int|
                    in_grid(w as int, h as int, xx, yy) && #[trigger] claimed(
                        canvas@,
                        n as int,
                        xx,
                        yy,
                    ) implies all_nbrs_claimed(canvas@, n as int, w as int, h as int, xx, yy) by {
                    if in_frontiers(boundaries@, (xx as u16, yy as u16)) {
                        let j = choose|j: int|
                            0 <= j < boundaries@.len() && #[trigger] boundaries@[j]@.contains(
                                (xx as u16, yy as u16),
                            );
                        assert(false);
                    }
                    assert(settled(canvas@, regions@, n as int, w as int, h as int, xx, yy));
                }
                assert(claimed(canvas@, n as int, pivots@[0].0 as int, pivots@[0].1 as int));
                lemma_coverage(
                    canvas@,
                    n as int,
                    w as int,
                    h as int,
                    pivots@[0].0 as int,
                    pivots@[0].1 as int,
                    x,
                    y,
                );
            }
        }

        proof {
            assert forall|y: int, x: int|
                0 <= y < canvas@.len() && 0 <= x < canvas@[y]@.len() implies (
            #[trigger] canvas@[y]@[x]) < n by {
                assert(in_grid(w as int, h as int, x, y));
                assert(claimed(canvas@, n as int, x, y));
            }
            // with every cell claimed and no frontier left, every cell is
            // settled, which gives the two border properties below
            assert forall|x: int, y: int|
                in_grid(w as int, h as int, x, y) implies settled(
                canvas@,
                regions@,
                n as int,
                w as int,
                h as int,
                x,
                y,
            ) by {
                assert(claimed(canvas@, n as int, x, y));
                if in_frontiers(boundaries@, (x as u16, y as u16)) {
                    let j = choose|j: int|
                        0 <= j < boundaries@.len() && #[trigger] boundaries@[j]@.contains(
                            (x as u16, y as u16),
                        );
                    assert(false);
                }
            }
            if w > 1 || h > 1 {
                // a rim cell is recorded through its own settledness when a
                // neighbor is foreign, and through that neighbor's otherwise
                assert forall|x: int, y: int|
                    #![trigger canvas@[y]@[x]]
                    in_grid(w as int, h as int, x, y) && on_rim(
                        w as int,
                        h as int,
                        x,
                        y,
                    ) implies regions@[canvas@[y]@[x] as int].boundary@.contains(
                    (x as u16, y as u16),
                ) by {
                    assert(claimed(canvas@, n as int, x, y));
                    let dn: int = if x > 0 {
                        0
                    } else if x < w as int - 1 {
                        3
                    } else if y > 0 {
                        1
                    } else {
                        2
                    };
                    let bx = nbr_x(x, dn);
                    let by = nbr_y(y, dn);
                    assert(in_grid(w as int, h as int, bx, by));
                    assert(settled(canvas@, regions@, n as int, w as int, h as int, x, y));
                    assert(claimed(canvas@, n as int, bx, by));
                    if canvas@[by]@[bx] != canvas@[y]@[x] {
                        assert(nbr_bordered(
                            canvas@,
                            regions@,
                            n as int,
                            w as int,
                            h as int,
                            x,
                            y,
                            dn,
                        ));
                    } else {
                        let rdn: int = if dn == 0 {
                            3
                        } else if dn == 1 {
                            2
                        } else if dn == 2 {
                            1
                        } else {
                            0
                        };
                        assert(settled(
                            canvas@,
                            regions@,
                            n as int,
                            w as int,
                            h as int,
                            bx,
                            by,
                        ));
                        assert(nbr_x(bx, rdn) == x && nbr_y(by, rdn) == y);
                        assert(nbr_rim_rec(
                            canvas@,
                            regions@,
                            n as int,
                            w as int,
                            h as int,
                            bx,
                            by,
                            rdn,
                        ));
                    }
                }
            }
            assert forall|x: int, y: int, d: int|
                #![trigger canvas@[y]@[x], nbr_x(x, d), nbr_y(y, d)]
                0 <= d < 4 && in_grid(w as int, h as int, x, y) && in_grid(
                    w as int,
                    h as int,
                    nbr_x(x, d),
                    nbr_y(y, d),
                ) && canvas@[nbr_y(y, d)]@[nbr_x(x, d)] != canvas@[y]@[x] implies regions@[canvas@[y]@[x] as int].boundary@.contains(
                (x as u16, y as u16),
            ) && regions@[canvas@[y]@[x] as int].neighbors@.contains(
                canvas@[nbr_y(y, d)]@[nbr_x(x, d)],
            ) by {
                assert(settled(canvas@, regions@, n as int, w as int, h as int, x, y));
                assert(nbr_bordered(canvas@, regions@, n as int, w as int, h as int, x, y, d));
                assert(claimed(canvas@, n as int, nbr_x(x, d), nbr_y(y, d)));
            }
        }
        RegionMap { regions, raster: canvas }
    }
}

impl Region {
    /// Orders the region's boundary cells into a polyline.  The walk starts
    /// at the lexicographically smallest boundary point, repeatedly steps to
    /// the first unvisited 8-connected neighbor found scanning from its
    /// current direction (so it prefers continuing straight or turning
    /// minimally), drops interior colinear points, and stops when no
    /// unvisited neighbor is left or the walk closes its loop.  On boundary
    /// sets that are not one simple closed curve the order is best effort,
    /// but every emitted point is a distinct boundary point.
    pub fn boundary_polyline(&self) -> (cb: Vec<Point>)
        requires
            distinct_seq(self.boundary@),
        ensures
            cb@.len() == 0 <==> self.boundary@.len() == 0,
            forall|k: int| 0 <= k < cb@.len() ==> self.boundary@.contains(#[trigger] cb@[k]),
            distinct_seq(cb@),
            self.boundary@.len() > 0 ==> self.boundary@.contains(cb@[0]) && forall|q: Point|
                #[trigger] self.boundary@.contains(q) ==> lex_le(cb@[0], q),
            forall|k: int|
                0 <= k < cb@.len() - 1 ==> #[trigger] linked(self.boundary@, cb@[k], cb@[k + 1]),
    {
        let mut cb: Vec<Point> = Vec::new();
        if self.boundary.len() == 0 {
            return cb;
        }
        let mut bs: Vec<Point> = Vec::new();
        let mut i: usize = 0;
        while i < self.boundary.len()
            invariant
                i <= self.boundary@.len(),
                bs@.len() == i,
                forall|k: int| 0 <= k < i ==> bs@[k] == self.boundary@[k],
            decreases self.boundary@.len() - i,
        {
            bs.push(self.boundary[i]);
            i += 1;
        }
        proof {
            assert(bs@ =~= self.boundary@);
        }
        // the lexicographically smallest point starts the walk
        let mut min_idx: usize = 0;
        let mut j: usize = 1;
        while j < bs.len()
            invariant
                bs@ == self.boundary@,
                min_idx < bs@.len(),
                1 <= j <= bs@.len(),
                forall|k: int| 0 <= k < j ==> lex_le(bs@[min_idx as int], #[trigger] bs@[k]),
            decreases bs@.len() - j,
        {
            let q = bs[j];
            let mcur = bs[min_idx];
            if q.0 < mcur.0 || (q.0 == mcur.0 && q.1 < mcur.1) {
                min_idx = j;
            }
            j += 1;
        }
        let start_p = bs[min_idx];
        proof {
            assert(bs@.contains(start_p));
            assert forall|q: Point| #[trigger] self.boundary@.contains(q) implies lex_le(
                start_p,
                q,
            ) by {
                let k = choose|k: int|
                    0 <= k < self.boundary@.len() && self.boundary@[k] == q;
                assert(lex_le(bs@[min_idx as int], bs@[k]));
            }
        }
        let mut cur_p = start_p;
        let mut cur_dir: usize = 0;
        let ghost mut seg: int = 1;
        loop
            invariant_except_break
                distinct_seq(self.boundary@),
                self.boundary@.len() > 0,
                distinct_seq(bs@),
                distinct_seq(cb@),
                forall|k: int|
                    0 <= k < bs@.len() ==> self.boundary@.contains(#[trigger] bs@[k]),
                forall|k: int|
                    0 <= k < cb@.len() ==> self.boundary@.contains(#[trigger] cb@[k]),
                forall|k: int| 0 <= k < cb@.len() ==> !bs@.contains(#[trigger] cb@[k]),
                bs@.contains(cur_p),
                self.boundary@.contains(cur_p),
                !cb@.contains(cur_p),
                cur_dir < 8,
                cb@.len() > 0 ==> cb@[0] == start_p,
                cb@.len() == 0 ==> cur_p == start_p,
                self.boundary@.contains(start_p),
                forall|q: Point| #[trigger] self.boundary@.contains(q) ==> lex_le(start_p, q),
                cb@.len() > 0 ==> 1 <= seg && straight_chain(
                    self.boundary@,
                    cb@.last(),
                    cur_p,
                    cur_dir as int,
                    seg,
                ),
                forall|k: int|
                    0 <= k < cb@.len() - 1 ==> #[trigger] linked(
                        self.boundary@,
                        cb@[k],
                        cb@[k + 1],
                    ),
            ensures
                cb@.len() >= 1,
                cb@[0] == start_p,
                distinct_seq(cb@),
                forall|k: int|
                    0 <= k < cb@.len() ==> self.boundary@.contains(#[trigger] cb@[k]),
                forall|k: int|
                    0 <= k < cb@.len() - 1 ==> #[trigger] linked(
                        self.boundary@,
                        cb@[k],
                        cb@[k + 1],
                    ),
            decreases bs@.len(),
        {
            let ghost cb_head = cb@;
            cb.push(cur_p);
            proof {
                assert forall|k: int|
                    0 <= k < cb@.len() - 1 implies #[trigger] linked(
                    self.boundary@,
                    cb@[k],
                    cb@[k + 1],
                ) by {
                    if k == cb@.len() - 2 {
                        assert(cb@[k] == cb_head.last() && cb@[k + 1] == cur_p);
                        assert(straight_chain(
                            self.boundary@,
                            cb@[k],
                            cb@[k + 1],
                            cur_dir as int,
                            seg,
                        ));
                    } else {
                        assert(cb@[k] == cb_head[k] && cb@[k + 1] == cb_head[k + 1]);
                        assert(linked(self.boundary@, cb_head[k], cb_head[k + 1]));
                    }
                }
            }
            remove_pt(&mut bs, cur_p);
            proof {
                assert forall|k: int|
                    0 <= k < cb@.len() implies !bs@.contains(#[trigger] cb@[k]) by {}
                assert forall|k: int|
                    0 <= k < bs@.len() implies self.boundary@.contains(#[trigger] bs@[k]) by {
                    assert(bs@.contains(bs@[k]));
                }
            }
            // scan the eight directions, starting from the current one, for
            // the first still-unvisited neighbor
            let mut found = false;
            let mut found_dir: usize = 0;
            let mut found_idx: usize = 0;
            let mut dd: usize = 0;
            while dd < 8
                invariant
                    dd <= 8,
                    cur_dir < 8,
                    found ==> found_dir < 8 && found_idx < bs@.len(),
                    found ==> bs@[found_idx as int].0 as int == cur_p.0 as int + dir_dx(
                        found_dir as int,
                    ) && bs@[found_idx as int].1 as int == cur_p.1 as int + dir_dy(
                        found_dir as int,
                    ),
                decreases 8 - dd,
            {
                if !found {
                    let i3 = (cur_dir + dd) % 8;
                    let dxy = dir8(i3);
                    let cx = cur_p.0 as i32 + dxy.0;
                    let cy = cur_p.1 as i32 + dxy.1;
                    match find_pt(&bs, cx, cy) {
                        Some(ix) => {
                            found = true;
                            found_dir = i3;
                            found_idx = ix;
                        },
                        None => {},
                    }
                }
                dd += 1;
            }
            if !found {
                break ;
            }
            let new_p = bs[found_idx];
            let new_dir = found_dir;
            if new_p.0 == start_p.0 && new_p.1 == start_p.1 {
                break ;
            }
            proof {
                assert(bs@.contains(new_p));
                if cb@.contains(new_p) {
                    assert(false);
                }
            }
            // a straight continuation replaces the point just emitted, so
            // colinear runs collapse; the very first point always stays
            if (cur_p.0 != start_p.0 || cur_p.1 != start_p.1) && cur_dir == new_dir {
                proof {
                    assert(cb@.last() == cur_p);
                    assert(cb@[0] == start_p);
                    assert(cb@.len() >= 2);
                }
                cb.pop();
                proof {
                    assert(cb@ =~= cb_head);
                    lemma_chain_extend(
                        self.boundary@,
                        cb@.last(),
                        cur_p,
                        new_p,
                        cur_dir as int,
                        seg,
                    );
                    seg = seg + 1;
                }
            } else {
                proof {
                    seg = 1;
                    assert(straight_chain(self.boundary@, cur_p, new_p, new_dir as int, 1));
                }
            }
            cur_p = new_p;
            cur_dir = new_dir;
        }
        cb
    }
}

} // verus!
