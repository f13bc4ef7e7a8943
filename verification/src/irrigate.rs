//! Frame detection, region labeling, and panel extraction.

use vstd::prelude::*;

use crate::crop::{judge, judge_spec};
use crate::pixel::{
    grid_index, lemma_grid_index_distinct, lemma_grid_index_in_bounds, Pixel, PixelBuffer,
};
use crate::{PanelError, PanelResult};

verus! {

/// The marking a grid cell can carry: part of the background frame, or part of
/// a numbered panel region.
#[derive(Debug, PartialEq, Eq, Structural, Clone, Copy)]
pub enum Flag {
    Flame,
    Territory(u32),
}

impl Flag {
    /// The successor label: the frame marking is below every region, and
    /// region ids count up from zero.
    pub fn next(&self) -> (r: Self)
        requires
            *self matches Flag::Territory(i) ==> i < u32::MAX,
        ensures
            match *self {
                Flag::Flame => r == Flag::Territory(0),
                Flag::Territory(i) => r == Flag::Territory((i + 1) as u32),
            },
    {
        match &self {
            Flag::Flame => Flag::Territory(0),
            Flag::Territory(i) => Flag::Territory(*i + 1),
        }
    }
}

/// Axis-aligned half-open bounding box `x_start..x_end` by `y_start..y_end`.
#[derive(Debug, PartialEq, Eq, Structural, Clone, Copy)]
pub struct Area {
    pub x_start: u32,
    pub x_end: u32,
    pub y_start: u32,
    pub y_end: u32,
}

impl Area {
    /// A bounding box is never empty: it encloses at least one pixel.
    pub open spec fn wf(self) -> bool {
        self.x_start < self.x_end && self.y_start < self.y_end
    }

    pub open spec fn contains(self, x: int, y: int) -> bool {
        self.x_start as int <= x < self.x_end as int
            && self.y_start as int <= y < self.y_end as int
    }

    /// The one-pixel box around `(x, y)`.
    pub fn unit(x: u32, y: u32) -> (r: Area)
        requires
            x < u32::MAX,
            y < u32::MAX,
        ensures
            r.wf(),
            r.x_start == x,
            r.x_end == x + 1,
            r.y_start == y,
            r.y_end == y + 1,
            forall|x2: int, y2: int| r.contains(x2, y2) <==> (x2 == x as int && y2 == y as int),
    {
        Area { x_start: x, x_end: x + 1, y_start: y, y_end: y + 1 }
    }

    /// Widens the box just enough to take in `(x, y)`: each bound moves only
    /// if the new pixel falls outside it.
    pub fn calibrate(&mut self, x: u32, y: u32)
        requires
            x < u32::MAX,
            y < u32::MAX,
            old(self).wf(),
        ensures
            final(self).wf(),
            final(self).x_start as int == if (x as int) < old(self).x_start as int {
                x as int
            } else {
                old(self).x_start as int
            },
            final(self).x_end as int == if old(self).x_end as int <= x as int {
                x as int + 1
            } else {
                old(self).x_end as int
            },
            final(self).y_start as int == if (y as int) < old(self).y_start as int {
                y as int
            } else {
                old(self).y_start as int
            },
            final(self).y_end as int == if old(self).y_end as int <= y as int {
                y as int + 1
            } else {
                old(self).y_end as int
            },
    {
        if x < self.x_start {
            self.x_start = x;
        } else if self.x_end <= x {
            self.x_end = x + 1;
        }
        if y < self.y_start {
            self.y_start = y;
        } else if self.y_end <= y {
            self.y_end = y + 1;
        }
    }

    /// The smallest box enclosing both operands.
    pub fn merge(self, rhs: Area) -> (r: Area)
        ensures
            r.x_start == if self.x_start <= rhs.x_start { self.x_start } else { rhs.x_start },
            r.x_end == if self.x_end >= rhs.x_end { self.x_end } else { rhs.x_end },
            r.y_start == if self.y_start <= rhs.y_start { self.y_start } else { rhs.y_start },
            r.y_end == if self.y_end >= rhs.y_end { self.y_end } else { rhs.y_end },
    {
        let x_start = if self.x_start <= rhs.x_start { self.x_start } else { rhs.x_start };
        let x_end = if self.x_end >= rhs.x_end { self.x_end } else { rhs.x_end };
        let y_start = if self.y_start <= rhs.y_start { self.y_start } else { rhs.y_start };
        let y_end = if self.y_end >= rhs.y_end { self.y_end } else { rhs.y_end };
        Area { x_start, x_end, y_start, y_end }
    }
}

/// Capacity of the equivalence table: the engine fails explicitly once the
/// raw-label counter would outgrow it.
pub const CAPACITY: usize = 200;

/// One extracted panel: a fresh raster sized to its region's bounding box,
/// holding the region's pixels (other cells keep the default transparent
/// value), together with the box and the region id it came from.
#[derive(Debug)]
pub struct Panel {
    pub label: u32,
    pub area: Area,
    pub buffer: PixelBuffer,
}

/// The six colors `output_map` cycles through for region labels: purple,
/// blue, teal, green, lime, amber.
pub open spec fn palette_spec(i: int) -> Pixel {
    if i == 0 {
        Pixel { r: 156, g: 30, b: 176, a: 255 }
    } else if i == 1 {
        Pixel { r: 33, g: 150, b: 243, a: 255 }
    } else if i == 2 {
        Pixel { r: 0, g: 150, b: 136, a: 255 }
    } else if i == 3 {
        Pixel { r: 76, g: 175, b: 80, a: 255 }
    } else if i == 4 {
        Pixel { r: 205, g: 220, b: 57, a: 255 }
    } else {
        Pixel { r: 255, g: 193, b: 7, a: 255 }
    }
}

/// The palette color for region id `t`.
pub fn palette(t: u32) -> (p: Pixel)
    ensures
        p == palette_spec(t as int % 6),
{
    let i = t % 6;
    if i == 0 {
        Pixel::new(156, 30, 176, 255)
    } else if i == 1 {
        Pixel::new(33, 150, 243, 255)
    } else if i == 2 {
        Pixel::new(0, 150, 136, 255)
    } else if i == 3 {
        Pixel::new(76, 175, 80, 255)
    } else if i == 4 {
        Pixel::new(205, 220, 57, 255)
    } else {
        Pixel::new(255, 193, 7, 255)
    }
}

/// Two cells are 4-adjacent: they differ by one step along exactly one axis.
pub open spec fn adjacent(a: (int, int), b: (int, int)) -> bool {
    ||| (a.0 == b.0 && (a.1 == b.1 + 1 || a.1 + 1 == b.1))
    ||| (a.1 == b.1 && (a.0 == b.0 + 1 || a.0 + 1 == b.0))
}

/// The coordinate `(x, y)` occurs in the pending queue.
pub open spec fn in_queue(q: Seq<(u32, u32)>, x: int, y: int) -> bool {
    exists|i: int| 0 <= i < q.len() && (#[trigger] q[i]).0 as int == x && q[i].1 as int == y
}

/// State of the first labeling pass at some point of the raster scan: the
/// raw label every processed non-frame cell drew, the next fresh id, the
/// recorded equivalences, and whether the pass has run out of fresh ids.
pub ghost struct ScanState {
    pub labels: Map<(int, int), u32>,
    pub counter: u32,
    pub lookup: Seq<Option<u32>>,
    pub failed: bool,
}

/// The raw region label a scanned neighbor offers: its recorded id, or
/// nothing for frame cells, unscanned cells and cells outside the range.
pub open spec fn neighbor_label(st: ScanState, x: int, y: int) -> Option<u32> {
    if st.labels.contains_key((x, y)) {
        Some(st.labels[(x, y)])
    } else {
        None
    }
}

/// One step of the second pass at index `k`: a cell holding `k` moves to the
/// recorded root, every other cell keeps its id.
pub open spec fn resolve_step(lookup: Seq<Option<u32>>, k: int, id: u32) -> u32 {
    if id as int == k && lookup[k] is Some {
        lookup[k]->0
    } else {
        id
    }
}

/// The second pass applied from index `k` down to `lo`.
pub open spec fn resolve_partial(lookup: Seq<Option<u32>>, k: int, lo: int, id: u32) -> u32
    decreases k - lo + 1,
    when lo - 1 <= k
{
    if k < lo {
        id
    } else {
        resolve_partial(lookup, k - 1, lo, resolve_step(lookup, k, id))
    }
}

/// The canonical label of a raw id after the whole second pass.
pub open spec fn resolved_label(lookup: Seq<Option<u32>>, id: u32) -> u32 {
    resolve_partial(lookup, CAPACITY as int - 1, 0, id)
}

/// Applying the steps down to `lo` is applying the steps down to `lo + 1`
/// and then the step at `lo`.
proof fn lemma_resolve_peel(lookup: Seq<Option<u32>>, k: int, lo: int, id: u32)
    requires
        lo <= k,
    ensures
        resolve_partial(lookup, k, lo, id) == resolve_step(
            lookup,
            lo,
            resolve_partial(lookup, k, lo + 1, id),
        ),
    decreases k - lo,
{
    if k == lo {
        assert(resolve_partial(lookup, k, lo, id) == resolve_partial(
            lookup,
            k - 1,
            lo,
            resolve_step(lookup, k, id),
        ));
        assert(resolve_partial(lookup, k, lo + 1, id) == id);
    } else {
        lemma_resolve_peel(lookup, k - 1, lo, resolve_step(lookup, k, id));
    }
}

/// The segmentation engine: owns the page, the processing range, and the
/// label table, and runs frame detection, labeling and extraction over them.
#[derive(Debug)]
pub struct Labeler {
    /// The page being processed.
    pub img: PixelBuffer,
    /// Processing range, x axis (half-open).
    pub x_start: u32,
    pub x_end: u32,
    /// Processing range, y axis (half-open).
    pub y_start: u32,
    pub y_end: u32,
    /// Seed coordinate of the flood fill.
    pub zero_point: (u32, u32),
    /// Tolerated squared color distance.
    pub color_tolerance: u32,
    /// The color sampled at the seed.
    pub reference_value: Pixel,
    /// One optional label per page cell, row-major.
    pub table: Vec<Option<Flag>>,
    /// One optional bounding box per region id; filled by `labelling`.
    pub territories: Vec<Option<Area>>,
}

impl Labeler {
    /// Structural well-formedness: the range lies inside the page and the
    /// label table has one cell per pixel.
    pub open spec fn wf(self) -> bool {
        &&& self.img.wf()
        &&& self.x_start <= self.x_end
        &&& self.x_end <= self.img.width
        &&& self.y_start <= self.y_end
        &&& self.y_end <= self.img.height
        &&& self.table@.len() == self.img.width as int * self.img.height as int
    }

    /// The two labelers agree on everything except the label table and the
    /// recorded bounding boxes.
    pub open spec fn same_config(self, other: Labeler) -> bool {
        &&& self.img == other.img
        &&& self.x_start == other.x_start
        &&& self.x_end == other.x_end
        &&& self.y_start == other.y_start
        &&& self.y_end == other.y_end
        &&& self.zero_point == other.zero_point
        &&& self.color_tolerance == other.color_tolerance
        &&& self.reference_value == other.reference_value
    }

    pub open spec fn in_range(self, x: int, y: int) -> bool {
        self.x_start as int <= x < self.x_end as int && self.y_start as int <= y < self.y_end as int
    }

    pub open spec fn label_at(self, x: int, y: int) -> Option<Flag> {
        self.table@[grid_index(x, y, self.img.width as int)]
    }

    /// The pixel at `(x, y)` matches the reference color within tolerance.
    pub open spec fn matches_ref(self, x: int, y: int) -> bool {
        judge_spec(self.img.pixel_at(x, y), self.reference_value, self.color_tolerance)
    }

    pub open spec fn marked(self, x: int, y: int) -> bool {
        self.img.in_bounds(x, y) && self.label_at(x, y) == Some(Flag::Flame)
    }

    /// A fill path: a walk that starts at the seed and moves between
    /// 4-adjacent in-range cells that all match the reference color.
    pub open spec fn fill_path(self, p: Seq<(int, int)>) -> bool {
        &&& p.len() > 0
        &&& p[0] == (self.zero_point.0 as int, self.zero_point.1 as int)
        &&& forall|i: int|
            #![trigger p[i]]
            0 <= i < p.len() ==> self.in_range(p[i].0, p[i].1) && self.matches_ref(p[i].0, p[i].1)
        &&& forall|i: int|
            #![trigger p[i]]
            0 <= i < p.len() - 1 ==> adjacent(p[i], p[i + 1])
    }

    /// The cell can be reached from the seed through matching cells. This is
    /// a pure reachability statement: it depends only on the page, the range,
    /// the seed and the tolerance, never on any traversal order.
    pub open spec fn reachable(self, x: int, y: int) -> bool {
        exists|p: Seq<(int, int)>| self.fill_path(p) && p.last() == (x, y)
    }

    /// Every matching in-range neighbor of a frame cell is itself marked as
    /// frame: the flood fill has nothing left to extend.
    pub open spec fn frame_closed(self) -> bool {
        forall|mx: int, my: int, nx: int, ny: int|
            #![trigger self.marked(mx, my), self.marked(nx, ny)]
            self.marked(mx, my) && adjacent((mx, my), (nx, ny)) && self.in_range(nx, ny)
                && self.matches_ref(nx, ny) ==> self.marked(nx, ny)
    }
}

/// Extending a fill path by one matching in-range neighbor keeps it a fill
/// path.
proof fn lemma_reach_step(l: Labeler, mx: int, my: int, nx: int, ny: int)
    requires
        l.reachable(mx, my),
        adjacent((mx, my), (nx, ny)),
        l.in_range(nx, ny),
        l.matches_ref(nx, ny),
    ensures
        l.reachable(nx, ny),
{
    let p = choose|p: Seq<(int, int)>| l.fill_path(p) && p.last() == (mx, my);
    let p2 = p.push((nx, ny));
    assert(p2[0] == p[0]);
    assert forall|i: int|
        #![trigger p2[i]]
        0 <= i < p2.len() implies l.in_range(p2[i].0, p2[i].1) && l.matches_ref(
        p2[i].0,
        p2[i].1,
    ) by {
        if i < p.len() {
            assert(p2[i] == p[i]);
        } else {
            assert(p2[i] == (nx, ny));
        }
    }
    assert forall|i: int| #![trigger p2[i]] 0 <= i < p2.len() - 1 implies adjacent(
        p2[i],
        p2[i + 1],
    ) by {
        if i < p.len() - 1 {
            assert(p2[i] == p[i]);
            assert(p2[i + 1] == p[i + 1]);
        } else {
            assert(p2[i] == p[p.len() - 1]);
            assert(p2[i + 1] == (nx, ny));
        }
    }
    assert(l.fill_path(p2) && p2.last() == (nx, ny));
}

/// The seed itself is reachable as soon as it lies in range and matches.
proof fn lemma_seed_reachable(l: Labeler)
    requires
        l.in_range(l.zero_point.0 as int, l.zero_point.1 as int),
        l.matches_ref(l.zero_point.0 as int, l.zero_point.1 as int),
    ensures
        l.reachable(l.zero_point.0 as int, l.zero_point.1 as int),
{
    let p: Seq<(int, int)> = seq![(l.zero_point.0 as int, l.zero_point.1 as int)];
    assert(p.last() == (l.zero_point.0 as int, l.zero_point.1 as int));
    assert(l.fill_path(p));
}

/// Reachability is a function of the configuration alone: it carries over to
/// any labeler that agrees on page, range, seed, reference and tolerance.
proof fn lemma_reachable_config(l1: Labeler, l2: Labeler, x: int, y: int)
    requires
        l1.same_config(l2),
        l1.reachable(x, y),
    ensures
        l2.reachable(x, y),
{
    let p = choose|p: Seq<(int, int)>| l1.fill_path(p) && p.last() == (x, y);
    assert forall|i: int|
        #![trigger p[i]]
        0 <= i < p.len() implies l2.in_range(p[i].0, p[i].1) && l2.matches_ref(p[i].0, p[i].1) by {
        assert(l1.in_range(p[i].0, p[i].1) && l1.matches_ref(p[i].0, p[i].1));
    }
    assert(l2.fill_path(p) && p.last() == (x, y));
}

/// In a frame-closed table, every cell at the end of a fill path whose start
/// is marked is marked as well.
proof fn lemma_path_marked(l: Labeler, p: Seq<(int, int)>)
    requires
        l.fill_path(p),
        l.marked(p[0].0, p[0].1),
        l.frame_closed(),
    ensures
        l.marked(p.last().0, p.last().1),
    decreases p.len(),
{
    if p.len() > 1 {
        let q = p.drop_last();
        assert(q[0] == p[0]);
        assert forall|i: int|
            #![trigger q[i]]
            0 <= i < q.len() implies l.in_range(q[i].0, q[i].1) && l.matches_ref(
            q[i].0,
            q[i].1,
        ) by {
            assert(q[i] == p[i]);
        }
        assert forall|i: int| #![trigger q[i]] 0 <= i < q.len() - 1 implies adjacent(
            q[i],
            q[i + 1],
        ) by {
            assert(q[i] == p[i]);
            assert(q[i + 1] == p[i + 1]);
        }
        assert(l.fill_path(q));
        lemma_path_marked(l, q);
        let m = p[p.len() - 2];
        assert(q.last() == m);
        assert(adjacent(m, p[p.len() - 1]));
        assert(l.marked(m.0, m.1));
        assert(l.in_range(p.last().0, p.last().1) && l.matches_ref(p.last().0, p.last().1));
        assert(l.marked(p.last().0, p.last().1));
    }
}

/// The flood fill is traversal-order independent: its contract pins the
/// frame down as the reachable set, which depends only on the page, the
/// range, the seed and the tolerance. Two tables that both carry exactly
/// their reachable set under the same configuration agree on every cell,
/// whatever order their fills visited the grid in.
pub proof fn lemma_fill_order_independent(a: Labeler, b: Labeler)
    requires
        a.same_config(b),
        forall|x: int, y: int|
            #![trigger a.label_at(x, y)]
            a.img.in_bounds(x, y) ==> a.label_at(x, y) == (if a.reachable(x, y) {
                Some(Flag::Flame)
            } else {
                None::<Flag>
            }),
        forall|x: int, y: int|
            #![trigger b.label_at(x, y)]
            b.img.in_bounds(x, y) ==> b.label_at(x, y) == (if b.reachable(x, y) {
                Some(Flag::Flame)
            } else {
                None::<Flag>
            }),
    ensures
        forall|x: int, y: int|
            #![trigger a.label_at(x, y)]
            a.img.in_bounds(x, y) ==> a.label_at(x, y) == b.label_at(x, y),
{
    assert(b.same_config(a));
    assert forall|x: int, y: int|
        #![trigger a.label_at(x, y)]
        a.img.in_bounds(x, y) implies a.label_at(x, y) == b.label_at(x, y) by {
        if a.reachable(x, y) {
            lemma_reachable_config(a, b, x, y);
        }
        if b.reachable(x, y) {
            lemma_reachable_config(b, a, x, y);
        }
    }
}

/// Over a range that matches the reference color everywhere, every in-range
/// cell is reachable from any in-range seed.
pub proof fn lemma_uniform_reachable(l: Labeler, x: int, y: int)
    requires
        l.in_range(l.zero_point.0 as int, l.zero_point.1 as int),
        forall|u: int, v: int| l.in_range(u, v) ==> #[trigger] l.matches_ref(u, v),
        l.in_range(x, y),
    ensures
        l.reachable(x, y),
    decreases
            (if x >= l.zero_point.0 as int {
                x - l.zero_point.0 as int
            } else {
                l.zero_point.0 as int - x
            }) + (if y >= l.zero_point.1 as int {
                y - l.zero_point.1 as int
            } else {
                l.zero_point.1 as int - y
            }),
{
    let zx = l.zero_point.0 as int;
    let zy = l.zero_point.1 as int;
    if x == zx && y == zy {
        assert(l.matches_ref(zx, zy));
        lemma_seed_reachable(l);
    } else if x > zx {
        lemma_uniform_reachable(l, x - 1, y);
        assert(l.matches_ref(x, y));
        lemma_reach_step(l, x - 1, y, x, y);
    } else if x < zx {
        lemma_uniform_reachable(l, x + 1, y);
        assert(l.matches_ref(x, y));
        lemma_reach_step(l, x + 1, y, x, y);
    } else if y > zy {
        lemma_uniform_reachable(l, x, y - 1);
        assert(l.matches_ref(x, y));
        lemma_reach_step(l, x, y - 1, x, y);
    } else {
        lemma_uniform_reachable(l, x, y + 1);
        assert(l.matches_ref(x, y));
        lemma_reach_step(l, x, y + 1, x, y);
    }
}

/// A flood fill over a uniformly matching range, seeded anywhere inside it,
/// marks the entire range as frame.
pub proof fn lemma_uniform_fill_all_frame(l: Labeler)
    requires
        l.wf(),
        l.in_range(l.zero_point.0 as int, l.zero_point.1 as int),
        forall|u: int, v: int| l.in_range(u, v) ==> #[trigger] l.matches_ref(u, v),
        forall|x: int, y: int|
            #![trigger l.label_at(x, y)]
            l.img.in_bounds(x, y) ==> l.label_at(x, y) == (if l.reachable(x, y) {
                Some(Flag::Flame)
            } else {
                None::<Flag>
            }),
    ensures
        forall|x: int, y: int|
            l.in_range(x, y) ==> #[trigger] l.label_at(x, y) == Some(Flag::Flame),
{
    assert forall|x: int, y: int| l.in_range(x, y) implies #[trigger] l.label_at(x, y) == Some(
        Flag::Flame,
    ) by {
        lemma_uniform_reachable(l, x, y);
        assert(l.img.in_bounds(x, y));
    }
}

/// At the start of the scan no label has been counted yet.
proof fn lemma_label_sum_base(l: Labeler, n: int)
    requires
        0 <= n,
        l.x_start <= l.x_end,
    ensures
        l.label_count_sum(n, l.y_start as int, l.x_start as int) == 0,
    decreases n,
{
    if n > 0 {
        lemma_label_sum_base(l, n - 1);
    }
}

/// Wrapping to the next row does not change any count.
proof fn lemma_label_sum_wrap(l: Labeler, n: int, y: int)
    requires
        0 <= n,
        (l.y_start as int) < y,
        l.x_start <= l.x_end,
    ensures
        l.label_count_sum(n, y, l.x_start as int) == l.label_count_sum(
            n,
            y - 1,
            l.x_end as int,
        ),
    decreases n,
{
    if n > 0 {
        lemma_label_sum_wrap(l, n - 1, y);
    }
}

/// Scanning one cell adds one to the summed counts exactly when the cell
/// holds one of the labels: a cell holds at most one label.
proof fn lemma_label_sum_step(l: Labeler, n: int, y: int, x: int)
    requires
        0 <= n <= u32::MAX as int,
        l.y_start as int <= y,
        l.x_start as int <= x < l.x_end as int,
    ensures
        l.label_count_sum(n, y, x + 1) == l.label_count_sum(n, y, x) + (if exists|id: u32|
            (id as int) < n && #[trigger] l.labeled_with(x, y, id) {
            1nat
        } else {
            0nat
        }),
    decreases n,
{
    if n > 0 {
        lemma_label_sum_step(l, n - 1, y, x);
        let last = (n - 1) as u32;
        if l.labeled_with(x, y, last) {
            assert(exists|id: u32| (id as int) < n && #[trigger] l.labeled_with(x, y, id));
            if exists|id: u32| (id as int) < n - 1 && #[trigger] l.labeled_with(x, y, id) {
                let id0 = choose|id: u32| (id as int) < n - 1 && #[trigger] l.labeled_with(x, y, id);
                assert(Some(Flag::Territory(id0)) == Some(Flag::Territory(last)));
                assert(false);
            }
        } else {
            if exists|id: u32| (id as int) < n && #[trigger] l.labeled_with(x, y, id) {
                let id0 = choose|id: u32| (id as int) < n && #[trigger] l.labeled_with(x, y, id);
                assert(id0 != last);
                assert((id0 as int) < n - 1 && l.labeled_with(x, y, id0));
            }
        }
    }
}

/// A label nothing in range carries counts no cell.
proof fn lemma_label_count_zero(l: Labeler, id: u32, y: int, x: int)
    requires
        forall|x2: int, y2: int|
            l.in_range(x2, y2) ==> !(#[trigger] l.label_at(x2, y2) == Some(Flag::Territory(id))),
        l.y_start as int <= y <= l.y_end as int,
        l.x_start as int <= x <= l.x_end as int,
        y == l.y_end as int ==> x == l.x_start as int,
    ensures
        l.label_count_before(id, y, x) == 0,
    decreases y - l.y_start as int, x - l.x_start as int,
{
    if y == l.y_start as int && x == l.x_start as int {
    } else if x == l.x_start as int {
        lemma_label_count_zero(l, id, y - 1, l.x_end as int);
    } else {
        lemma_label_count_zero(l, id, y, x - 1);
        assert(l.in_range(x - 1, y));
    }
}

/// Up to any scan position, the summed per-label counts equal the non-frame
/// count: every non-frame cell of a resolved grid carries exactly one label.
proof fn lemma_label_partition_upto(l: Labeler, y: int, x: int)
    requires
        l.wf(),
        forall|x2: int, y2: int|
            l.in_range(x2, y2) ==> (#[trigger] l.label_at(x2, y2) == Some(Flag::Flame) || exists|
                id: u32,
            |
                (id as int) < CAPACITY as int && #[trigger] l.labeled_with(x2, y2, id)),
        l.y_start as int <= y <= l.y_end as int,
        l.x_start as int <= x <= l.x_end as int,
        y == l.y_end as int ==> x == l.x_start as int,
    ensures
        l.label_count_sum(CAPACITY as int, y, x) == l.nonframe_before(y, x),
    decreases y - l.y_start as int, x - l.x_start as int,
{
    if y == l.y_start as int && x == l.x_start as int {
        lemma_label_sum_base(l, CAPACITY as int);
    } else if x == l.x_start as int {
        lemma_label_partition_upto(l, y - 1, l.x_end as int);
        lemma_label_sum_wrap(l, CAPACITY as int, y);
    } else {
        lemma_label_partition_upto(l, y, x - 1);
        lemma_label_sum_step(l, CAPACITY as int, y, x - 1);
        assert(y < l.y_end as int);
        assert(l.in_range(x - 1, y));
        if l.label_at(x - 1, y) == Some(Flag::Flame) {
            if exists|id: u32|
                (id as int) < CAPACITY as int && #[trigger] l.labeled_with(x - 1, y, id) {
                let id0 = choose|id: u32|
                    (id as int) < CAPACITY as int && #[trigger] l.labeled_with(x - 1, y, id);
                assert(false);
            }
        }
    }
}

/// Law of panel extraction: summing the per-label cell counts over every id
/// yields exactly the number of non-frame cells in the processing range, and
/// an id without a recorded bounding box contributes nothing. Each emitted
/// panel copies exactly the cells of its label (see `get_panels`), so the
/// pixel counts of the emitted panels add up to the non-frame cell count.
pub proof fn lemma_panel_count_partition(l: Labeler)
    requires
        l.wf(),
        l.areas_exact(),
        forall|x2: int, y2: int|
            l.in_range(x2, y2) ==> (#[trigger] l.label_at(x2, y2) == Some(Flag::Flame) || exists|
                id: u32,
            |
                (id as int) < CAPACITY as int && #[trigger] l.labeled_with(x2, y2, id)),
    ensures
        l.label_count_sum(CAPACITY as int, l.y_end as int, l.x_start as int) == l.nonframe_before(
            l.y_end as int,
            l.x_start as int,
        ),
        forall|id: u32|
            (id as int) < CAPACITY as int && l.territories@[id as int] is None
                ==> #[trigger] l.label_count_before(id, l.y_end as int, l.x_start as int) == 0,
{
    lemma_label_partition_upto(l, l.y_end as int, l.x_start as int);
    assert forall|id: u32|
        (id as int) < CAPACITY as int && l.territories@[id as int] is None implies #[trigger] l.label_count_before(
        id,
        l.y_end as int,
        l.x_start as int,
    ) == 0 by {
        assert forall|x2: int, y2: int|
            l.in_range(x2, y2) implies !(#[trigger] l.label_at(x2, y2) == Some(
            Flag::Territory(id),
        )) by {
            if l.label_at(x2, y2) == Some(Flag::Territory(id)) {
                assert(l.cell_labeled(x2, y2, id as int));
                assert(false);
            }
        }
        lemma_label_count_zero(l, id, l.y_end as int, l.x_start as int);
    }
}

/// Once the scan has failed it stays failed at every later position.
proof fn lemma_scan_failed_persists(l: Labeler, y1: int, x1: int, y2: int, x2: int)
    requires
        l.y_start as int <= y1,
        l.x_start as int <= x1 <= l.x_end as int,
        l.x_start as int <= x2 <= l.x_end as int,
        y1 < y2 || (y1 == y2 && x1 <= x2),
        l.scan_at(y1, x1).failed,
    ensures
        l.scan_at(y2, x2).failed,
    decreases y2 - l.y_start as int, x2 - l.x_start as int,
{
    if y1 == y2 && x1 == x2 {
    } else if x2 == l.x_start as int {
        lemma_scan_failed_persists(l, y1, x1, y2 - 1, l.x_end as int);
    } else {
        lemma_scan_failed_persists(l, y1, x1, y2, x2 - 1);
    }
}

/// The scan reads nothing of a cell but whether it is frame: two labelers
/// with the same range that agree on which cells are frame scan alike.
proof fn lemma_scan_congruence(l1: Labeler, l2: Labeler, y: int, x: int)
    requires
        l1.same_config(l2),
        forall|x2: int, y2: int|
            l1.in_range(x2, y2) ==> ((#[trigger] l1.label_at(x2, y2) == Some(Flag::Flame)) <==> (
            l2.label_at(x2, y2) == Some(Flag::Flame))),
        l1.y_start as int <= y,
        l1.x_start as int <= x <= l1.x_end as int,
        y == l1.y_end as int ==> x == l1.x_start as int,
        y <= l1.y_end as int,
    ensures
        l1.scan_at(y, x) == l2.scan_at(y, x),
    decreases y - l1.y_start as int, x - l1.x_start as int,
{
    if y == l1.y_start as int && x == l1.x_start as int {
    } else if x == l1.x_start as int {
        lemma_scan_congruence(l1, l2, y - 1, l1.x_end as int);
    } else {
        lemma_scan_congruence(l1, l2, y, x - 1);
        assert(l1.in_range(x - 1, y));
        assert((l1.label_at(x - 1, y) == Some(Flag::Flame)) <==> (l2.label_at(x - 1, y) == Some(
            Flag::Flame,
        )));
    }
}

/// The raster-scan prefix count of non-frame cells only grows along the scan.
proof fn lemma_nonframe_before_mono(l: Labeler, y1: int, x1: int, y2: int, x2: int)
    requires
        l.y_start as int <= y1,
        l.x_start as int <= x1 <= l.x_end as int,
        l.x_start as int <= x2 <= l.x_end as int,
        y1 < y2 || (y1 == y2 && x1 <= x2),
    ensures
        l.nonframe_before(y1, x1) <= l.nonframe_before(y2, x2),
    decreases y2 - l.y_start as int, x2 - l.x_start as int,
{
    if y1 == y2 && x1 == x2 {
    } else if x2 == l.x_start as int {
        lemma_nonframe_before_mono(l, y1, x1, y2 - 1, l.x_end as int);
    } else {
        lemma_nonframe_before_mono(l, y1, x1, y2, x2 - 1);
    }
}

/// Number of `false` entries of a pending grid.
spec fn count_false(s: Seq<bool>) -> nat
    decreases s.len(),
{
    if s.len() == 0 {
        0
    } else {
        count_false(s.drop_last()) + (if s.last() {
            0nat
        } else {
            1nat
        })
    }
}

/// Flipping one `false` entry to `true` decrements the count.
proof fn lemma_count_false_update(s: Seq<bool>, i: int)
    requires
        0 <= i < s.len(),
        !s[i],
    ensures
        count_false(s.update(i, true)) + 1 == count_false(s),
    decreases s.len(),
{
    let t = s.update(i, true);
    if i == s.len() - 1 {
        assert(t.drop_last() =~= s.drop_last());
        assert(t.last());
        assert(!s.last());
    } else {
        assert(t.drop_last() =~= s.drop_last().update(i, true));
        lemma_count_false_update(s.drop_last(), i);
        assert(t.last() == s.last());
    }
}

/// A coordinate other than the head survives popping the head of the queue.
proof fn lemma_in_queue_remove0(q: Seq<(u32, u32)>, x: int, y: int)
    requires
        q.len() > 0,
        in_queue(q, x, y),
        !(q[0].0 as int == x && q[0].1 as int == y),
    ensures
        in_queue(q.remove(0), x, y),
{
    let i = choose|i: int| 0 <= i < q.len() && (#[trigger] q[i]).0 as int == x && q[i].1 as int
        == y;
    assert(i != 0);
    q.remove_ensures(0);
    assert(q.remove(0)[i - 1] == q[i]);
}

/// State of the raster scan at position `(yy, xx)`: cells before it are
/// labeled (frame kept, everything else holding a region id below `counter`),
/// cells at or after it and cells outside the range still hold what `base`
/// held.
spec fn pass_one_zone(l: Labeler, base: Labeler, counter: u32, yy: int, xx: int) -> bool {
    forall|x2: int, y2: int|
        #![trigger l.label_at(x2, y2)]
        l.img.in_bounds(x2, y2) ==> {
            if !l.in_range(x2, y2) {
                l.label_at(x2, y2) == base.label_at(x2, y2)
            } else if y2 < yy || (y2 == yy && x2 < xx) {
                if base.label_at(x2, y2) == Some(Flag::Flame) {
                    l.label_at(x2, y2) == Some(Flag::Flame)
                } else {
                    exists|id: u32| id < counter && #[trigger] l.labeled_with(x2, y2, id)
                }
            } else {
                l.label_at(x2, y2) == base.label_at(x2, y2)
            }
        }
}

/// The loop state of the first pass agrees with the scan model at position
/// `(yy, xx)`: not failed, same counter and equivalence table, and the model
/// knows exactly the scanned in-range non-frame cells, each carrying in the
/// table the raw id the model drew for it.
spec fn scan_matches(
    l: Labeler,
    base: Labeler,
    counter: u32,
    lookup: Seq<Option<u32>>,
    yy: int,
    xx: int,
) -> bool {
    let st = base.scan_at(yy, xx);
    &&& !st.failed
    &&& st.counter == counter
    &&& st.lookup == lookup
    &&& forall|x2: int, y2: int|
        #![trigger st.labels.contains_key((x2, y2))]
        st.labels.contains_key((x2, y2)) <==> (base.in_range(x2, y2) && (y2 < yy || (y2 == yy && x2
            < xx)) && !(base.label_at(x2, y2) == Some(Flag::Flame)))
    &&& forall|x2: int, y2: int|
        st.labels.contains_key((x2, y2)) ==> l.label_at(x2, y2) == Some(
            Flag::Territory(#[trigger] st.labels[(x2, y2)]),
        )
}

/// The cell is accounted for by the fill: already marked, waiting in the
/// queue, or not matching the reference at all.
spec fn covered(l: Labeler, q: Seq<(u32, u32)>, x: int, y: int) -> bool {
    l.marked(x, y) || in_queue(q, x, y) || !l.matches_ref(x, y)
}

/// Invariant of the flood-fill work loop, apart from the frontier condition.
spec fn fill_core(l: Labeler, base: Labeler, q: Seq<(u32, u32)>, pend: Seq<bool>) -> bool {
    &&& l.wf()
    &&& l.same_config(base)
    &&& l.territories == base.territories
    &&& pend.len() == l.table@.len()
    &&& forall|x: int, y: int|
        #![trigger l.label_at(x, y)]
        l.img.in_bounds(x, y) && l.label_at(x, y) is Some ==> l.label_at(x, y) == Some(Flag::Flame)
            && l.in_range(x, y) && l.matches_ref(x, y) && l.reachable(x, y)
    &&& forall|i: int|
        #![trigger q[i]]
        0 <= i < q.len() ==> {
            &&& l.in_range(q[i].0 as int, q[i].1 as int)
            &&& pend[grid_index(q[i].0 as int, q[i].1 as int, l.img.width as int)]
            &&& (q[i] == l.zero_point || exists|mx: int, my: int|
                l.marked(mx, my) && adjacent((mx, my), (q[i].0 as int, q[i].1 as int)))
        }
    &&& forall|i: int, j: int| #![trigger q[i], q[j]] 0 <= i < j < q.len() ==> q[i] != q[j]
    &&& (l.in_range(l.zero_point.0 as int, l.zero_point.1 as int) && l.matches_ref(
        l.zero_point.0 as int,
        l.zero_point.1 as int,
    ) ==> (l.marked(l.zero_point.0 as int, l.zero_point.1 as int) || in_queue(
        q,
        l.zero_point.0 as int,
        l.zero_point.1 as int,
    )))
    &&& forall|x: int, y: int|
        l.in_range(x, y) && pend[#[trigger] grid_index(x, y, l.img.width as int)] && !in_queue(
            q,
            x,
            y,
        ) ==> l.marked(x, y) || !l.matches_ref(x, y)
}

/// Every matching in-range neighbor of a marked cell other than `(cx, cy)` is
/// covered.
spec fn frontier_except(l: Labeler, q: Seq<(u32, u32)>, cx: int, cy: int) -> bool {
    forall|mx: int, my: int, nx: int, ny: int|
        #![trigger l.marked(mx, my), adjacent((mx, my), (nx, ny))]
        l.marked(mx, my) && !(mx == cx && my == cy) && adjacent((mx, my), (nx, ny)) && l.in_range(
            nx,
            ny,
        ) ==> covered(l, q, nx, ny)
}

impl Labeler {
    /// The cell `(x, y)` holds the region label `id`.
    pub open spec fn cell_labeled(self, x: int, y: int, id: int) -> bool {
        &&& self.img.in_bounds(x, y)
        &&& 0 <= id < CAPACITY as int
        &&& self.label_at(x, y) == Some(Flag::Territory(id as u32))
    }

    /// Every recorded bounding box is exactly the minimal box of the cells
    /// holding its label — it contains them all, and each of its four edges
    /// is witnessed by such a cell. An id without a box labels no cell.
    pub open spec fn areas_exact(self) -> bool {
        &&& self.territories@.len() == CAPACITY as int
        &&& forall|id: int|
            0 <= id < CAPACITY as int ==> match #[trigger] self.territories@[id] {
                Some(a) => {
                    &&& a.wf()
                    &&& (forall|x: int, y: int|
                        #[trigger] self.cell_labeled(x, y, id) ==> a.contains(x, y))
                    &&& (exists|x: int, y: int|
                        #[trigger] self.cell_labeled(x, y, id) && x == a.x_start as int)
                    &&& (exists|x: int, y: int|
                        #[trigger] self.cell_labeled(x, y, id) && x == a.x_end as int - 1)
                    &&& (exists|x: int, y: int|
                        #[trigger] self.cell_labeled(x, y, id) && y == a.y_start as int)
                    &&& (exists|x: int, y: int|
                        #[trigger] self.cell_labeled(x, y, id) && y == a.y_end as int - 1)
                },
                None => forall|x: int, y: int| !#[trigger] self.cell_labeled(x, y, id),
            }
    }

    /// Number of non-frame cells of the processing range that precede the
    /// raster-scan position `(y, x)`: all cells of earlier rows, and the
    /// cells of row `y` left of column `x`.
    pub open spec fn nonframe_before(self, y: int, x: int) -> nat
        decreases y - self.y_start as int, x - self.x_start as int,
        when self.y_start as int <= y && self.x_start as int <= x <= self.x_end as int
    {
        if y == self.y_start as int && x == self.x_start as int {
            0
        } else if x == self.x_start as int {
            self.nonframe_before(y - 1, self.x_end as int)
        } else {
            self.nonframe_before(y, x - 1) + (if self.label_at(x - 1, y) == Some(Flag::Flame) {
                0nat
            } else {
                1nat
            })
        }
    }

    /// The cell `(x, y)` holds exactly the region label `id`.
    pub open spec fn labeled_with(self, x: int, y: int, id: u32) -> bool {
        self.label_at(x, y) == Some(Flag::Territory(id))
    }

    /// Every in-range cell that the fill left unset carries some region id
    /// below `counter`; frame cells and out-of-range cells still hold what
    /// `base` held.
    pub open spec fn labels_partial(self, base: Labeler, counter: u32) -> bool {
        forall|x: int, y: int|
            #![trigger self.label_at(x, y)]
            self.img.in_bounds(x, y) ==> {
                if !self.in_range(x, y) {
                    self.label_at(x, y) == base.label_at(x, y)
                } else if base.label_at(x, y) == Some(Flag::Flame) {
                    self.label_at(x, y) == Some(Flag::Flame)
                } else {
                    exists|id: u32| id < counter && #[trigger] self.labeled_with(x, y, id)
                }
            }
    }

    /// One cell of the first labeling pass, exactly as spec section 4.3
    /// words it: a frame cell is skipped; otherwise the cell looks at the
    /// already-scanned upper and left neighbors, adopts their region where
    /// one exists (the smaller id on a conflict, recording the equivalence
    /// only if the larger id has none recorded yet), and draws a fresh id
    /// from the counter where both are absent or frame — failing once the
    /// counter would outgrow the equivalence table.
    pub open spec fn scan_step(self, st: ScanState, x: int, y: int) -> ScanState {
        if st.failed {
            st
        } else if self.label_at(x, y) == Some(Flag::Flame) {
            st
        } else {
            let up = neighbor_label(st, x, y - 1);
            let bf = neighbor_label(st, x - 1, y);
            match (up, bf) {
                (Option::None, Option::None) => {
                    if st.counter as int >= CAPACITY as int {
                        ScanState { failed: true, ..st }
                    } else {
                        ScanState {
                            labels: st.labels.insert((x, y), st.counter),
                            counter: (st.counter + 1) as u32,
                            ..st
                        }
                    }
                },
                (Option::Some(t), Option::None) => ScanState {
                    labels: st.labels.insert((x, y), t),
                    ..st
                },
                (Option::None, Option::Some(t)) => ScanState {
                    labels: st.labels.insert((x, y), t),
                    ..st
                },
                (Option::Some(t1), Option::Some(t2)) => {
                    if t1 == t2 {
                        ScanState { labels: st.labels.insert((x, y), t1), ..st }
                    } else {
                        let mn = if t1 < t2 {
                            t1
                        } else {
                            t2
                        };
                        let mx = if t1 < t2 {
                            t2
                        } else {
                            t1
                        };
                        ScanState {
                            labels: st.labels.insert((x, y), mn),
                            lookup: if st.lookup[mx as int] is None {
                                st.lookup.update(mx as int, Some(mn))
                            } else {
                                st.lookup
                            },
                            ..st
                        }
                    }
                },
            }
        }
    }

    /// The state of the first pass before the raster position `(y, x)`:
    /// every earlier cell of the range has been scanned.
    pub open spec fn scan_at(self, y: int, x: int) -> ScanState
        decreases y - self.y_start as int, x - self.x_start as int,
        when self.y_start as int <= y && self.x_start as int <= x <= self.x_end as int
    {
        if y == self.y_start as int && x == self.x_start as int {
            ScanState {
                labels: Map::empty(),
                counter: 0,
                lookup: Seq::new(CAPACITY as nat, |i: int| None),
                failed: false,
            }
        } else if x == self.x_start as int {
            self.scan_at(y - 1, self.x_end as int)
        } else {
            self.scan_step(self.scan_at(y, x - 1), x - 1, y)
        }
    }

    /// The first pass run over the whole processing range.
    pub open spec fn scan(self) -> ScanState {
        self.scan_at(self.y_end as int, self.x_start as int)
    }

    /// Number of cells of the processing range holding exactly the label
    /// `id` that precede the raster-scan position `(y, x)`. The pixels a
    /// panel copies are, by `get_panels`, exactly these cells.
    pub open spec fn label_count_before(self, id: u32, y: int, x: int) -> nat
        decreases y - self.y_start as int, x - self.x_start as int,
        when self.y_start as int <= y && self.x_start as int <= x <= self.x_end as int
    {
        if y == self.y_start as int && x == self.x_start as int {
            0
        } else if x == self.x_start as int {
            self.label_count_before(id, y - 1, self.x_end as int)
        } else {
            self.label_count_before(id, y, x - 1) + (if self.labeled_with(x - 1, y, id) {
                1nat
            } else {
                0nat
            })
        }
    }

    /// Sum of the per-label cell counts over all ids below `n`.
    pub open spec fn label_count_sum(self, n: int, y: int, x: int) -> nat
        decreases n,
        when n >= 0
    {
        if n <= 0 {
            0
        } else {
            self.label_count_sum(n - 1, y, x) + self.label_count_before((n - 1) as u32, y, x)
        }
    }

    /// Builds a labeler over `img`, processing the half-open range
    /// `ranges.0..ranges.1` by `ranges.2..ranges.3`, with the reference color
    /// sampled at `zero_point`.
    pub fn new(
        img: PixelBuffer,
        ranges: (u32, u32, u32, u32),
        color_tolerance: u32,
        zero_point: (u32, u32),
    ) -> (r: PanelResult<Labeler>)
        requires
            img.wf(),
        ensures
            match r {
                Ok(l) => {
                    &&& img.in_bounds(zero_point.0 as int, zero_point.1 as int)
                    &&& ranges.0 <= ranges.1 <= img.width
                    &&& ranges.2 <= ranges.3 <= img.height
                    &&& l.wf()
                    &&& l.img == img
                    &&& l.x_start == ranges.0
                    &&& l.x_end == ranges.1
                    &&& l.y_start == ranges.2
                    &&& l.y_end == ranges.3
                    &&& l.zero_point == zero_point
                    &&& l.color_tolerance == color_tolerance
                    &&& l.reference_value == img.pixel_at(
                        zero_point.0 as int,
                        zero_point.1 as int,
                    )
                    &&& forall|i: int| 0 <= i < l.table@.len() ==> l.table@[i] is None
                    &&& l.territories@.len() == 0
                },
                Err(e) => {
                    &&& !(img.in_bounds(zero_point.0 as int, zero_point.1 as int) && ranges.0
                        <= ranges.1 <= img.width && ranges.2 <= ranges.3 <= img.height)
                    &&& e == (if !img.in_bounds(zero_point.0 as int, zero_point.1 as int) {
                        PanelError::RangeError {
                            x: zero_point.0,
                            y: zero_point.1,
                            x_start: 0,
                            x_end: img.width,
                            y_start: 0,
                            y_end: img.height,
                        }
                    } else {
                        PanelError::RangeError {
                            x: ranges.1,
                            y: ranges.3,
                            x_start: 0,
                            x_end: img.width,
                            y_start: 0,
                            y_end: img.height,
                        }
                    })
                },
            },
    {
        if !(zero_point.0 < img.width && zero_point.1 < img.height) {
            return Err(
                PanelError::RangeError {
                    x: zero_point.0,
                    y: zero_point.1,
                    x_start: 0,
                    x_end: img.width,
                    y_start: 0,
                    y_end: img.height,
                },
            );
        }
        if !(ranges.0 <= ranges.1 && ranges.1 <= img.width && ranges.2 <= ranges.3 && ranges.3
            <= img.height) {
            return Err(
                PanelError::RangeError {
                    x: ranges.1,
                    y: ranges.3,
                    x_start: 0,
                    x_end: img.width,
                    y_start: 0,
                    y_end: img.height,
                },
            );
        }
        let reference_value = img.get(zero_point.0, zero_point.1);
        let n: usize = img.data.len();
        let table: Vec<Option<Flag>> = vec![None; n];
        let territories: Vec<Option<Area>> = Vec::new();
        Ok(
            Labeler {
                img,
                x_start: ranges.0,
                x_end: ranges.1,
                y_start: ranges.2,
                y_end: ranges.3,
                zero_point,
                color_tolerance,
                reference_value,
                table,
                territories,
            },
        )
    }

    /// Flat index of a page cell in the label table.
    fn cell_index(&self, x: u32, y: u32) -> (i: usize)
        requires
            self.wf(),
            self.img.in_bounds(x as int, y as int),
        ensures
            i as int == grid_index(x as int, y as int, self.img.width as int),
            i < self.table@.len(),
    {
        proof {
            lemma_grid_index_in_bounds(
                x as int,
                y as int,
                self.img.width as int,
                self.img.height as int,
            );
        }
        // reading the length records that the cell count fits in usize
        let _table_len: usize = self.table.len();
        (y as usize) * (self.img.width as usize) + (x as usize)
    }

    /// Range-checked pixel access: succeeds exactly on coordinates inside the
    /// processing range.
    pub fn get_pixel(&self, x: u32, y: u32) -> (r: PanelResult<Pixel>)
        requires
            self.wf(),
        ensures
            match r {
                Ok(p) => self.in_range(x as int, y as int) && p == self.img.pixel_at(
                    x as int,
                    y as int,
                ),
                Err(e) => !self.in_range(x as int, y as int) && e == (PanelError::RangeError {
                    x,
                    y,
                    x_start: self.x_start,
                    x_end: self.x_end,
                    y_start: self.y_start,
                    y_end: self.y_end,
                }),
            },
    {
        if self.x_start <= x && x < self.x_end && self.y_start <= y && y < self.y_end {
            Ok(self.img.get(x, y))
        } else {
            Err(
                PanelError::RangeError {
                    x,
                    y,
                    x_start: self.x_start,
                    x_end: self.x_end,
                    y_start: self.y_start,
                    y_end: self.y_end,
                },
            )
        }
    }

    /// The color an extracted panel holds at offset `(dx, dy)` from its
    /// area's origin: the source pixel where the cell carries the panel's
    /// label, the default transparent value everywhere else.
    pub open spec fn panel_pixel(self, label: u32, area: Area, dx: int, dy: int) -> Pixel {
        if self.label_at(area.x_start as int + dx, area.y_start as int + dy) == Some(
            Flag::Territory(label),
        ) {
            self.img.pixel_at(area.x_start as int + dx, area.y_start as int + dy)
        } else {
            Pixel::empty_spec()
        }
    }

    /// Extraction: materializes one panel per recorded region, in ascending
    /// id order. Each panel's raster is sized to the region's bounding box
    /// and holds exactly the region's pixels.
    pub fn get_panels(&self) -> (panels: Vec<Panel>)
        requires
            self.wf(),
            self.areas_exact(),
        ensures
            forall|k: int|
                #![trigger panels@[k]]
                0 <= k < panels@.len() ==> {
                    let p = panels@[k];
                    &&& (p.label as int) < CAPACITY as int
                    &&& self.territories@[p.label as int] == Some(p.area)
                    &&& p.area.wf()
                    &&& p.buffer.wf()
                    &&& p.buffer.width as int == p.area.x_end as int - p.area.x_start as int
                    &&& p.buffer.height as int == p.area.y_end as int - p.area.y_start as int
                    &&& forall|dx: int, dy: int|
                        0 <= dx < p.buffer.width as int && 0 <= dy < p.buffer.height as int
                            ==> p.buffer.pixel_at(dx, dy) == self.panel_pixel(
                            p.label,
                            p.area,
                            dx,
                            dy,
                        )
                },
            forall|k1: int, k2: int|
                0 <= k1 < k2 < panels@.len() ==> (#[trigger] panels@[k1]).label < (
                #[trigger] panels@[k2]).label,
            forall|id: int|
                0 <= id < CAPACITY as int && (#[trigger] self.territories@[id]) is Some
                    ==> exists|k: int| 0 <= k < panels@.len() && (#[trigger] panels@[k]).label as int == id,
    {
        let mut panels: Vec<Panel> = Vec::new();
        let mut id: usize = 0;
        while id < CAPACITY
            invariant
                self.wf(),
                self.areas_exact(),
                id <= CAPACITY,
                forall|k: int|
                    #![trigger panels@[k]]
                    0 <= k < panels@.len() ==> {
                        let p = panels@[k];
                        &&& (p.label as int) < id as int
                        &&& self.territories@[p.label as int] == Some(p.area)
                        &&& p.area.wf()
                        &&& p.buffer.wf()
                        &&& p.buffer.width as int == p.area.x_end as int - p.area.x_start as int
                        &&& p.buffer.height as int == p.area.y_end as int - p.area.y_start as int
                        &&& forall|dx: int, dy: int|
                            0 <= dx < p.buffer.width as int && 0 <= dy < p.buffer.height as int
                                ==> p.buffer.pixel_at(dx, dy) == self.panel_pixel(
                                p.label,
                                p.area,
                                dx,
                                dy,
                            )
                    },
                forall|k1: int, k2: int|
                    0 <= k1 < k2 < panels@.len() ==> (#[trigger] panels@[k1]).label < (
                    #[trigger] panels@[k2]).label,
                forall|id2: int|
                    0 <= id2 < id as int && (#[trigger] self.territories@[id2]) is Some
                        ==> exists|k: int|
                        0 <= k < panels@.len() && (#[trigger] panels@[k]).label as int == id2,
            decreases CAPACITY - id,
        {
            let a_opt: Option<Area> = self.territories[id];
            match a_opt {
                Some(area) => {
                    proof {
                        // the box's edge witnesses pin it inside the page
                        let (wx1, wy1) = choose|wx: int, wy: int|
                            #[trigger] self.cell_labeled(wx, wy, id as int) && wx
                                == area.x_end as int - 1;
                        let (wx2, wy2) = choose|wx: int, wy: int|
                            #[trigger] self.cell_labeled(wx, wy, id as int) && wy
                                == area.y_end as int - 1;
                        assert(area.x_end as int <= self.img.width as int);
                        assert(area.y_end as int <= self.img.height as int);
                        assert((area.x_end as int - area.x_start as int) * (area.y_end as int
                            - area.y_start as int) <= self.img.width as int
                            * self.img.height as int) by (nonlinear_arith)
                            requires
                                0 < area.x_end as int - area.x_start as int
                                    <= self.img.width as int,
                                0 < area.y_end as int - area.y_start as int
                                    <= self.img.height as int,
                        ;
                    }
                    // reading the length records that the cell count fits in usize
                    let _table_len: usize = self.table.len();
                    let width = area.x_end - area.x_start;
                    let height = area.y_end - area.y_start;
                    let mut buffer = PixelBuffer::new(width, height, Pixel::empty());
                    let mut dy: u32 = 0;
                    while dy < height
                        invariant
                            self.wf(),
                            area.x_end <= self.img.width,
                            area.y_end <= self.img.height,
                            area.x_start as int + width as int == area.x_end as int,
                            area.y_start as int + height as int == area.y_end as int,
                            dy <= height,
                            id < CAPACITY,
                            buffer.wf(),
                            buffer.width == width,
                            buffer.height == height,
                            forall|dx2: int, dy2: int|
                                0 <= dx2 < width as int && 0 <= dy2 < height as int
                                    ==> buffer.pixel_at(dx2, dy2) == (if dy2 < dy as int {
                                    self.panel_pixel(id as u32, area, dx2, dy2)
                                } else {
                                    Pixel::empty_spec()
                                }),
                        decreases height - dy,
                    {
                        let mut dx: u32 = 0;
                        while dx < width
                            invariant
                                self.wf(),
                                area.x_end <= self.img.width,
                                area.y_end <= self.img.height,
                                area.x_start as int + width as int == area.x_end as int,
                                area.y_start as int + height as int == area.y_end as int,
                                dy < height,
                                dx <= width,
                                id < CAPACITY,
                                buffer.wf(),
                                buffer.width == width,
                                buffer.height == height,
                                forall|dx2: int, dy2: int|
                                    0 <= dx2 < width as int && 0 <= dy2 < height as int
                                        ==> buffer.pixel_at(dx2, dy2) == (if dy2 < dy as int || (
                                        dy2 == dy as int && dx2 < dx as int) {
                                        self.panel_pixel(id as u32, area, dx2, dy2)
                                    } else {
                                        Pixel::empty_spec()
                                    }),
                            decreases width - dx,
                        {
                            let sx = area.x_start + dx;
                            let sy = area.y_start + dy;
                            let li = self.cell_index(sx, sy);
                            let cell: Option<Flag> = self.table[li];
                            let holds_label = match cell {
                                Some(Flag::Territory(t)) => t == id as u32,
                                _ => false,
                            };
                            if holds_label {
                                let px = self.img.get(sx, sy);
                                buffer.set(dx, dy, px);
                            }
                            dx = dx + 1;
                        }
                        dy = dy + 1;
                    }
                    let ghost old_panels = panels@;
                    panels.push(Panel { label: id as u32, area, buffer });
                    proof {
                        assert forall|k: int| #![trigger panels@[k]] 0 <= k < panels@.len() - 1
                            implies panels@[k] == old_panels[k] by {}
                        assert forall|id2: int|
                            0 <= id2 < id as int + 1 && (#[trigger] self.territories@[id2])
                                is Some implies exists|k: int|
                            0 <= k < panels@.len() && (#[trigger] panels@[k]).label as int
                                == id2 by {
                            if id2 == id as int {
                                assert(panels@[panels@.len() - 1].label as int == id2);
                            } else {
                                let k0 = choose|k: int|
                                    0 <= k < old_panels.len() && (#[trigger] old_panels[k]).label as int
                                        == id2;
                                assert(panels@[k0].label as int == id2);
                            }
                        }
                    }
                },
                None => {},
            }
            id = id + 1;
        }
        panels
    }

    /// The label of a cell, or `None` for coordinates outside the processing
    /// range.
    pub fn get_label(&self, x: u32, y: u32) -> (r: Option<Flag>)
        requires
            self.wf(),
        ensures
            r == (if self.in_range(x as int, y as int) {
                self.label_at(x as int, y as int)
            } else {
                None::<Flag>
            }),
    {
        if self.x_start <= x && x < self.x_end && self.y_start <= y && y < self.y_end {
            let i = self.cell_index(x, y);
            self.table[i]
        } else {
            None
        }
    }

    /// Offers one neighbor coordinate to the fill: enqueues it when it lies
    /// in range and was never enqueued before.
    fn fill_push(
        &self,
        queue: &mut Vec<(u32, u32)>,
        pending: &mut Vec<bool>,
        nx: u32,
        ny: u32,
        Ghost(base): Ghost<Labeler>,
        Ghost(c): Ghost<(int, int)>,
    )
        requires
            fill_core(*self, base, old(queue)@, old(pending)@),
            frontier_except(*self, old(queue)@, c.0, c.1),
            self.marked(c.0, c.1),
            adjacent(c, (nx as int, ny as int)),
        ensures
            fill_core(*self, base, final(queue)@, final(pending)@),
            frontier_except(*self, final(queue)@, c.0, c.1),
            self.in_range(nx as int, ny as int) ==> covered(
                *self,
                final(queue)@,
                nx as int,
                ny as int,
            ),
            forall|x: int, y: int|
                covered(*self, old(queue)@, x, y) ==> covered(*self, final(queue)@, x, y),
            2 * count_false(final(pending)@) + final(queue)@.len() <= 2 * count_false(
                old(pending)@,
            ) + old(queue)@.len(),
    {
        let w = self.img.width;
        let ghost q1 = queue@;
        let ghost p1 = pending@;
        if self.x_start <= nx && nx < self.x_end && self.y_start <= ny && ny < self.y_end {
            let ni = self.cell_index(nx, ny);
            if !pending[ni] {
                pending.set(ni, true);
                queue.push((nx, ny));
                proof {
                    let q2 = queue@;
                    let p2 = pending@;
                    lemma_count_false_update(p1, ni as int);
                    // the fresh entry was never in the queue before
                    assert forall|i: int| #![trigger q1[i]] 0 <= i < q1.len() implies q1[i] != (
                    nx,
                    ny,
                    ) by {
                        if q1[i] == (nx, ny) {
                            assert(p1[grid_index(nx as int, ny as int, w as int)]);
                        }
                    }
                    assert forall|i: int| #![trigger q2[i]] 0 <= i < q2.len() implies {
                        &&& self.in_range(q2[i].0 as int, q2[i].1 as int)
                        &&& p2[grid_index(q2[i].0 as int, q2[i].1 as int, w as int)]
                        &&& (q2[i] == self.zero_point || exists|mx: int, my: int|
                            self.marked(mx, my) && adjacent(
                                (mx, my),
                                (q2[i].0 as int, q2[i].1 as int),
                            ))
                    } by {
                        if i < q1.len() {
                            assert(q2[i] == q1[i]);
                            lemma_grid_index_in_bounds(
                                q1[i].0 as int,
                                q1[i].1 as int,
                                w as int,
                                self.img.height as int,
                            );
                            assert(p1[grid_index(q1[i].0 as int, q1[i].1 as int, w as int)]);
                        } else {
                            assert(q2[i] == (nx, ny));
                            assert(p2[ni as int]);
                            assert(self.marked(c.0, c.1) && adjacent(
                                (c.0, c.1),
                                (nx as int, ny as int),
                            ));
                        }
                    }
                    // the queue stays duplicate-free
                    assert forall|i: int, j: int|
                        #![trigger q2[i], q2[j]]
                        0 <= i < j < q2.len() implies q2[i] != q2[j] by {
                        if j < q1.len() {
                            assert(q2[i] == q1[i] && q2[j] == q1[j]);
                        } else {
                            assert(q2[i] == q1[i] && q2[j] == (nx, ny));
                        }
                    }
                    // the seed stays accounted for
                    if in_queue(q1, self.zero_point.0 as int, self.zero_point.1 as int) {
                        let i = choose|i: int|
                            0 <= i < q1.len() && (#[trigger] q1[i]).0 as int
                                == self.zero_point.0 as int && q1[i].1 as int
                                == self.zero_point.1 as int;
                        assert(q2[i] == q1[i]);
                        assert(in_queue(q2, self.zero_point.0 as int, self.zero_point.1 as int));
                    }
                    // coverage is monotone under pushing
                    assert forall|x: int, y: int| covered(*self, q1, x, y) implies covered(
                        *self,
                        q2,
                        x,
                        y,
                    ) by {
                        if in_queue(q1, x, y) {
                            let i = choose|i: int|
                                0 <= i < q1.len() && (#[trigger] q1[i]).0 as int == x
                                    && q1[i].1 as int == y;
                            assert(q2[i] == q1[i]);
                        }
                    }
                    assert(q2[q1.len() as int] == (nx, ny));
                    assert(in_queue(q2, nx as int, ny as int));
                    // pending cells off the queue are still processed cells
                    assert forall|x: int, y: int|
                        self.in_range(x, y) && p2[#[trigger] grid_index(x, y, w as int)]
                            && !in_queue(q2, x, y) implies self.marked(x, y) || !self.matches_ref(
                        x,
                        y,
                    ) by {
                        lemma_grid_index_in_bounds(x, y, w as int, self.img.height as int);
                        if grid_index(x, y, w as int) == ni as int {
                            if !(x == nx as int && y == ny as int) {
                                lemma_grid_index_distinct(x, y, nx as int, ny as int, w as int);
                            }
                            assert(false);
                        } else {
                            assert(p1[grid_index(x, y, w as int)]);
                            if in_queue(q1, x, y) {
                                let i = choose|i: int|
                                    0 <= i < q1.len() && (#[trigger] q1[i]).0 as int == x
                                        && q1[i].1 as int == y;
                                assert(q2[i] == q1[i]);
                                assert(false);
                            }
                        }
                    }
                    assert(fill_core(*self, base, q2, p2));
                }
            } else {
                proof {
                    let ni = grid_index(nx as int, ny as int, w as int);
                    assert(p1[ni]);
                    if !in_queue(q1, nx as int, ny as int) {
                        assert(self.marked(nx as int, ny as int) || !self.matches_ref(
                            nx as int,
                            ny as int,
                        ));
                    }
                    assert(covered(*self, q1, nx as int, ny as int));
                }
            }
        }
    }

    /// Labels the cell `(x, y)` with region `id` and widens (or creates) the
    /// region's bounding box accordingly, keeping every box exactly minimal.
    fn assign_cell(&mut self, x: u32, y: u32, id: u32, Ghost(counter): Ghost<u32>)
        requires
            old(self).wf(),
            old(self).areas_exact(),
            old(self).in_range(x as int, y as int),
            old(self).label_at(x as int, y as int) is None,
            (id as int) < CAPACITY as int,
        ensures
            final(self).wf(),
            final(self).same_config(*old(self)),
            final(self).table@.len() == old(self).table@.len(),
            final(self).areas_exact(),
            forall|x2: int, y2: int|
                #![trigger final(self).label_at(x2, y2)]
                final(self).img.in_bounds(x2, y2) ==> final(self).label_at(x2, y2) == (if x2
                    == x as int && y2 == y as int {
                    Some(Flag::Territory(id))
                } else {
                    old(self).label_at(x2, y2)
                }),
            forall|id2: int|
                0 <= id2 < CAPACITY as int ==> ((#[trigger] final(self).territories@[id2])
                    is Some <==> (old(self).territories@[id2] is Some || id2 == id as int)),
    {
        let ghost l1 = *old(self);
        let w = self.img.width;
        let i = self.cell_index(x, y);
        self.table.set(i, Some(Flag::Territory(id)));
        let a_opt: Option<Area> = self.territories[id as usize];
        match a_opt {
            Some(a) => {
                let mut a2 = a;
                a2.calibrate(x, y);
                self.territories.set(id as usize, Some(a2));
            },
            None => {
                let a2 = Area::unit(x, y);
                self.territories.set(id as usize, Some(a2));
            },
        }
        proof {
            let l2 = *self;
            assert forall|x2: int, y2: int|
                #![trigger l2.label_at(x2, y2)]
                l2.img.in_bounds(x2, y2) implies l2.label_at(x2, y2) == (if x2 == x as int && y2
                == y as int {
                Some(Flag::Territory(id))
            } else {
                l1.label_at(x2, y2)
            }) by {
                lemma_grid_index_in_bounds(x2, y2, w as int, l2.img.height as int);
                if !(x2 == x as int && y2 == y as int) {
                    lemma_grid_index_distinct(x2, y2, x as int, y as int, w as int);
                }
            }
            // each id's labeled-cell set changed only at the assigned cell
            assert forall|x2: int, y2: int, id2: int|
                #![trigger l2.cell_labeled(x2, y2, id2)]
                !(x2 == x as int && y2 == y as int) implies (l2.cell_labeled(x2, y2, id2)
                    <==> l1.cell_labeled(x2, y2, id2)) by {}
            assert forall|id2: int|
                0 <= id2 < CAPACITY as int implies match #[trigger] l2.territories@[id2] {
                Some(a) => {
                    &&& a.wf()
                    &&& (forall|x2: int, y2: int|
                        #[trigger] l2.cell_labeled(x2, y2, id2) ==> a.contains(x2, y2))
                    &&& (exists|x2: int, y2: int|
                        #[trigger] l2.cell_labeled(x2, y2, id2) && x2 == a.x_start as int)
                    &&& (exists|x2: int, y2: int|
                        #[trigger] l2.cell_labeled(x2, y2, id2) && x2 == a.x_end as int - 1)
                    &&& (exists|x2: int, y2: int|
                        #[trigger] l2.cell_labeled(x2, y2, id2) && y2 == a.y_start as int)
                    &&& (exists|x2: int, y2: int|
                        #[trigger] l2.cell_labeled(x2, y2, id2) && y2 == a.y_end as int - 1)
                },
                None => forall|x2: int, y2: int| !#[trigger] l2.cell_labeled(x2, y2, id2),
            } by {
                if id2 == id as int {
                    assert(l2.cell_labeled(x as int, y as int, id2));
                    let a2 = l2.territories@[id2]->Some_0;
                    match a_opt {
                        Some(a) => {
                            // containment: old cells were inside the old box
                            assert forall|x2: int, y2: int|
                                #[trigger] l2.cell_labeled(x2, y2, id2) implies a2.contains(
                                x2,
                                y2,
                            ) by {
                                if !(x2 == x as int && y2 == y as int) {
                                    assert(l1.cell_labeled(x2, y2, id2));
                                    assert(a.contains(x2, y2));
                                }
                            }
                            // each edge of the widened box has a witness
                            if (x as int) < a.x_start as int {
                                assert(l2.cell_labeled(x as int, y as int, id2) && x as int
                                    == a2.x_start as int);
                            } else {
                                let (wx, wy) = choose|wx: int, wy: int|
                                    #[trigger] l1.cell_labeled(wx, wy, id2) && wx
                                        == a.x_start as int;
                                assert(l2.cell_labeled(wx, wy, id2) && wx == a2.x_start as int);
                            }
                            if a.x_end as int <= x as int {
                                assert(l2.cell_labeled(x as int, y as int, id2) && x as int
                                    == a2.x_end as int - 1);
                            } else {
                                let (wx, wy) = choose|wx: int, wy: int|
                                    #[trigger] l1.cell_labeled(wx, wy, id2) && wx == a.x_end as int
                                        - 1;
                                assert(l2.cell_labeled(wx, wy, id2) && wx == a2.x_end as int - 1);
                            }
                            if (y as int) < a.y_start as int {
                                assert(l2.cell_labeled(x as int, y as int, id2) && y as int
                                    == a2.y_start as int);
                            } else {
                                let (wx, wy) = choose|wx: int, wy: int|
                                    #[trigger] l1.cell_labeled(wx, wy, id2) && wy
                                        == a.y_start as int;
                                assert(l2.cell_labeled(wx, wy, id2) && wy == a2.y_start as int);
                            }
                            if a.y_end as int <= y as int {
                                assert(l2.cell_labeled(x as int, y as int, id2) && y as int
                                    == a2.y_end as int - 1);
                            } else {
                                let (wx, wy) = choose|wx: int, wy: int|
                                    #[trigger] l1.cell_labeled(wx, wy, id2) && wy == a.y_end as int
                                        - 1;
                                assert(l2.cell_labeled(wx, wy, id2) && wy == a2.y_end as int - 1);
                            }
                        },
                        None => {
                            // the fresh box holds exactly the assigned cell
                            assert forall|x2: int, y2: int|
                                #[trigger] l2.cell_labeled(x2, y2, id2) implies a2.contains(
                                x2,
                                y2,
                            ) by {
                                if !(x2 == x as int && y2 == y as int) {
                                    assert(l1.cell_labeled(x2, y2, id2));
                                    assert(false);
                                }
                            }
                            assert(l2.cell_labeled(x as int, y as int, id2) && x as int
                                == a2.x_start as int);
                        },
                    }
                } else {
                    // other regions keep their cells and their box
                    assert(l2.territories@[id2] == l1.territories@[id2]);
                    match l1.territories@[id2] {
                        Some(a) => {
                            assert forall|x2: int, y2: int|
                                #[trigger] l2.cell_labeled(x2, y2, id2) implies a.contains(
                                x2,
                                y2,
                            ) by {
                                assert(l1.cell_labeled(x2, y2, id2));
                            }
                            let (wx, wy) = choose|wx: int, wy: int|
                                #[trigger] l1.cell_labeled(wx, wy, id2) && wx == a.x_start as int;
                            assert(l2.cell_labeled(wx, wy, id2));
                            let (wx2, wy2) = choose|wx: int, wy: int|
                                #[trigger] l1.cell_labeled(wx, wy, id2) && wx == a.x_end as int - 1;
                            assert(l2.cell_labeled(wx2, wy2, id2));
                            let (wx3, wy3) = choose|wx: int, wy: int|
                                #[trigger] l1.cell_labeled(wx, wy, id2) && wy == a.y_start as int;
                            assert(l2.cell_labeled(wx3, wy3, id2));
                            let (wx4, wy4) = choose|wx: int, wy: int|
                                #[trigger] l1.cell_labeled(wx, wy, id2) && wy == a.y_end as int - 1;
                            assert(l2.cell_labeled(wx4, wy4, id2));
                        },
                        None => {
                            assert forall|x2: int, y2: int| !#[trigger] l2.cell_labeled(
                                x2,
                                y2,
                                id2,
                            ) by {
                                if l2.cell_labeled(x2, y2, id2) {
                                    if !(x2 == x as int && y2 == y as int) {
                                        assert(l1.cell_labeled(x2, y2, id2));
                                    }
                                    assert(false);
                                }
                            }
                        },
                    }
                }
            }
        }
    }

    /// Two-pass connected-component labeling over the processing range.
    /// The first pass scans in raster order: a non-frame cell adopts the
    /// region of its upper or left neighbor where one exists (preferring the
    /// smaller id on a conflict and recording the equivalence, if not
    /// already recorded), or draws a fresh id from a monotonically
    /// increasing counter. The second pass resolves the recorded
    /// equivalences from the highest id down. On success every in-range
    /// non-frame cell holds a region id whose bounding box is exactly
    /// minimal; frame cells and cells outside the range are untouched. The
    /// pass fails with `CapacityExceeded` exactly when the scan would draw a
    /// fresh id past the equivalence table's capacity. The resulting table is
    /// pinned down completely: every non-frame cell holds the canonical label
    /// `resolved_label` computes from the raw id the scan model (`scan`)
    /// assigns it.
    pub fn labelling(&mut self) -> (r: PanelResult<()>)
        requires
            old(self).wf(),
            forall|x: int, y: int|
                #![trigger old(self).label_at(x, y)]
                old(self).img.in_bounds(x, y) ==> (old(self).label_at(x, y) is None || old(
                    self,
                ).label_at(x, y) == Some(Flag::Flame)),
        ensures
            final(self).wf(),
            final(self).same_config(*old(self)),
            match r {
                Ok(()) => {
                    &&& !old(self).scan().failed
                    &&& final(self).areas_exact()
                    &&& forall|x: int, y: int|
                        #![trigger final(self).label_at(x, y)]
                        final(self).img.in_bounds(x, y) ==> {
                            if !final(self).in_range(x, y) {
                                final(self).label_at(x, y) == old(self).label_at(x, y)
                            } else if old(self).label_at(x, y) == Some(Flag::Flame) {
                                final(self).label_at(x, y) == Some(Flag::Flame)
                            } else {
                                exists|id: int| final(self).cell_labeled(x, y, id)
                            }
                        }
                    &&& forall|x: int, y: int|
                        #![trigger final(self).label_at(x, y)]
                        final(self).in_range(x, y) && !(old(self).label_at(x, y) == Some(
                            Flag::Flame,
                        )) ==> final(self).label_at(x, y) == Some(
                            Flag::Territory(
                                resolved_label(
                                    old(self).scan().lookup,
                                    old(self).scan().labels[(x, y)],
                                ),
                            ),
                        )
                },
                Err(e) => {
                    &&& e == PanelError::CapacityExceeded
                    &&& old(self).scan().failed
                    &&& old(self).nonframe_before(
                        old(self).y_end as int,
                        old(self).x_start as int,
                    ) > CAPACITY as nat
                    &&& final(self).areas_exact()
                    &&& forall|x: int, y: int|
                        #![trigger final(self).label_at(x, y)]
                        final(self).img.in_bounds(x, y) ==> ((final(self).label_at(x, y) == Some(
                            Flag::Flame,
                        )) <==> (old(self).label_at(x, y) == Some(Flag::Flame)))
                    &&& forall|x: int, y: int|
                        #![trigger final(self).label_at(x, y)]
                        final(self).img.in_bounds(x, y) && !final(self).in_range(x, y)
                            ==> final(self).label_at(x, y) == old(self).label_at(x, y)
                },
            },
    {
        let ghost base = *self;
        let w = self.img.width;
        self.territories = vec![None; CAPACITY];
        let mut lookup: Vec<Option<u32>> = vec![None; CAPACITY];
        let mut counter: u32 = 0;
        proof {
            // the scan model starts empty, like the loop state
            let st0 = base.scan_at(base.y_start as int, base.x_start as int);
            assert(st0.lookup =~= lookup@);
            assert forall|x2: int, y2: int|
                #![trigger st0.labels.contains_key((x2, y2))]
                !st0.labels.contains_key((x2, y2)) by {}
            assert(scan_matches(
                *self,
                base,
                counter,
                lookup@,
                base.y_start as int,
                base.x_start as int,
            ));
        }
        let mut y = self.y_start;
        while y < self.y_end
            invariant
                base == *old(self),
                self.wf(),
                self.same_config(base),
                w == self.img.width,
                self.territories@.len() == CAPACITY as int,
                lookup@.len() == CAPACITY as int,
                self.y_start <= y <= self.y_end,
                counter as int <= CAPACITY as int,
                counter as nat <= base.nonframe_before(y as int, self.x_start as int),
                forall|x2: int, y2: int|
                    #![trigger base.label_at(x2, y2)]
                    base.img.in_bounds(x2, y2) ==> (base.label_at(x2, y2) is None || base.label_at(
                        x2,
                        y2,
                    ) == Some(Flag::Flame)),
                forall|i2: int|
                    0 <= i2 < CAPACITY as int ==> (#[trigger] lookup@[i2] matches Some(j) ==> 0
                        <= j < i2 && i2 < counter as int),
                pass_one_zone(*self, base, counter, y as int, self.x_start as int),
                scan_matches(*self, base, counter, lookup@, y as int, self.x_start as int),
                forall|id2: int|
                    0 <= id2 < CAPACITY as int ==> ((#[trigger] self.territories@[id2]) is Some
                        <==> id2 < counter as int),
                self.areas_exact(),
            decreases self.y_end - y,
        {
            let mut x = self.x_start;
            while x < self.x_end
                invariant
                    base == *old(self),
                    self.wf(),
                    self.same_config(base),
                    w == self.img.width,
                    self.territories@.len() == CAPACITY as int,
                    lookup@.len() == CAPACITY as int,
                    self.y_start <= y < self.y_end,
                    self.x_start <= x <= self.x_end,
                    counter as int <= CAPACITY as int,
                    counter as nat <= base.nonframe_before(y as int, x as int),
                    forall|x2: int, y2: int|
                        #![trigger base.label_at(x2, y2)]
                        base.img.in_bounds(x2, y2) ==> (base.label_at(x2, y2) is None
                            || base.label_at(x2, y2) == Some(Flag::Flame)),
                    forall|i2: int|
                        0 <= i2 < CAPACITY as int ==> (#[trigger] lookup@[i2] matches Some(j) ==> 0
                            <= j < i2 && i2 < counter as int),
                    pass_one_zone(*self, base, counter, y as int, x as int),
                    scan_matches(*self, base, counter, lookup@, y as int, x as int),
                    forall|id2: int|
                        0 <= id2 < CAPACITY as int ==> ((#[trigger] self.territories@[id2]) is Some
                            <==> id2 < counter as int),
                    self.areas_exact(),
                decreases self.x_end - x,
            {
                let i = self.cell_index(x, y);
                let cur: Option<Flag> = self.table[i];
                let ghost st = base.scan_at(y as int, x as int);
                let ghost st2 = base.scan_at(y as int, x as int + 1);
                proof {
                    assert(cur == self.label_at(x as int, y as int));
                    assert(self.label_at(x as int, y as int) == base.label_at(x as int, y as int));
                    assert(st2 == base.scan_step(st, x as int, y as int));
                }
                let is_flame = match cur {
                    Some(Flag::Flame) => true,
                    _ => false,
                };
                if !is_flame {
                    proof {
                        assert(base.label_at(x as int, y as int) is None);
                    }
                    let upper: Option<Flag> = if y >= 1 {
                        self.get_label(x, y - 1)
                    } else {
                        None
                    };
                    let before: Option<Flag> = if x >= 1 {
                        self.get_label(x - 1, y)
                    } else {
                        None
                    };
                    let up_id: Option<u32> = match upper {
                        Some(Flag::Territory(t)) => Some(t),
                        _ => None,
                    };
                    let bf_id: Option<u32> = match before {
                        Some(Flag::Territory(t)) => Some(t),
                        _ => None,
                    };
                    proof {
                        // a neighbor's region id was assigned by the scan
                        if up_id is Some {
                            assert(self.in_range(x as int, y as int - 1));
                            assert(self.label_at(x as int, y as int - 1) == Some(
                                Flag::Territory(up_id->0),
                            ));
                            let t0 = choose|id: u32|
                                id < counter && #[trigger] self.labeled_with(
                                    x as int,
                                    y as int - 1,
                                    id,
                                );
                            assert(up_id->0 == t0);
                        }
                        if bf_id is Some {
                            assert(self.in_range(x as int - 1, y as int));
                            assert(self.label_at(x as int - 1, y as int) == Some(
                                Flag::Territory(bf_id->0),
                            ));
                            let t1 = choose|id: u32|
                                id < counter && #[trigger] self.labeled_with(
                                    x as int - 1,
                                    y as int,
                                    id,
                                );
                            assert(bf_id->0 == t1);
                        }
                        // the loop reads its neighbors as the scan model does
                        assert(up_id == neighbor_label(st, x as int, y as int - 1)) by {
                            if st.labels.contains_key((x as int, y as int - 1)) {
                                assert(self.in_range(x as int, y as int - 1));
                                assert(self.label_at(x as int, y as int - 1) == Some(
                                    Flag::Territory(st.labels[(x as int, y as int - 1)]),
                                ));
                            } else {
                                if y >= 1 && self.in_range(x as int, y as int - 1) {
                                    assert(base.label_at(x as int, y as int - 1) == Some(
                                        Flag::Flame,
                                    ));
                                    assert(self.label_at(x as int, y as int - 1) == Some(
                                        Flag::Flame,
                                    ));
                                }
                            }
                        }
                        assert(bf_id == neighbor_label(st, x as int - 1, y as int)) by {
                            if st.labels.contains_key((x as int - 1, y as int)) {
                                assert(self.in_range(x as int - 1, y as int));
                                assert(self.label_at(x as int - 1, y as int) == Some(
                                    Flag::Territory(st.labels[(x as int - 1, y as int)]),
                                ));
                            } else {
                                if x >= 1 && self.in_range(x as int - 1, y as int) {
                                    assert(base.label_at(x as int - 1, y as int) == Some(
                                        Flag::Flame,
                                    ));
                                    assert(self.label_at(x as int - 1, y as int) == Some(
                                        Flag::Flame,
                                    ));
                                }
                            }
                        }
                    }
                    let id: u32 = match (up_id, bf_id) {
                        (None, None) => {
                            if counter as usize >= CAPACITY {
                                proof {
                                    assert(counter as int == CAPACITY as int);
                                    assert(base.nonframe_before(y as int, x as int + 1)
                                        == base.nonframe_before(y as int, x as int) + 1);
                                    lemma_nonframe_before_mono(
                                        base,
                                        y as int,
                                        x as int + 1,
                                        base.y_end as int,
                                        base.x_start as int,
                                    );
                                    assert forall|x2: int, y2: int|
                                        #![trigger self.label_at(x2, y2)]
                                        self.img.in_bounds(x2, y2) implies ((self.label_at(x2, y2)
                                            == Some(Flag::Flame)) <==> (base.label_at(x2, y2)
                                            == Some(Flag::Flame))) by {
                                        if self.in_range(x2, y2) && (y2 < y as int || (y2
                                            == y as int && x2 < x as int)) && !(base.label_at(
                                            x2,
                                            y2,
                                        ) == Some(Flag::Flame)) {
                                            let id0 = choose|id: u32|
                                                id < counter && #[trigger] self.labeled_with(
                                                    x2,
                                                    y2,
                                                    id,
                                                );
                                            assert(self.label_at(x2, y2) == Some(
                                                Flag::Territory(id0),
                                            ));
                                        }
                                    }
                                    // the scan model fails at this very cell
                                    assert(st2.failed);
                                    lemma_scan_failed_persists(
                                        base,
                                        y as int,
                                        x as int + 1,
                                        base.y_end as int,
                                        base.x_start as int,
                                    );
                                    assert(base.scan().failed);
                                    assert forall|x2: int, y2: int|
                                        #![trigger self.label_at(x2, y2)]
                                        self.img.in_bounds(x2, y2) && !self.in_range(
                                            x2,
                                            y2,
                                        ) implies self.label_at(x2, y2) == base.label_at(
                                        x2,
                                        y2,
                                    ) by {}
                                }
                                return Err(PanelError::CapacityExceeded);
                            }
                            let fresh = counter;
                            counter = counter + 1;
                            fresh
                        },
                        (Some(t), None) => t,
                        (None, Some(t)) => t,
                        (Some(t1), Some(t2)) => {
                            if t1 == t2 {
                                t1
                            } else {
                                let mn = if t1 < t2 {
                                    t1
                                } else {
                                    t2
                                };
                                let mx = if t1 < t2 {
                                    t2
                                } else {
                                    t1
                                };
                                if lookup[mx as usize].is_none() {
                                    lookup.set(mx as usize, Some(mn));
                                }
                                mn
                            }
                        },
                    };
                    proof {
                        assert(id < counter);
                        assert((id as int) < CAPACITY as int);
                    }
                    let ghost l_pre = *self;
                    self.assign_cell(x, y, id, Ghost(counter));
                    proof {
                        // the zone boundary advances by the freshly labeled cell
                        assert(self.labeled_with(x as int, y as int, id));
                        assert forall|x2: int, y2: int|
                            #![trigger self.label_at(x2, y2)]
                            self.img.in_bounds(x2, y2) && !(x2 == x as int && y2 == y as int)
                                implies self.label_at(x2, y2) == l_pre.label_at(x2, y2) by {}
                        assert(base.nonframe_before(y as int, x as int + 1)
                            == base.nonframe_before(y as int, x as int) + 1);
                        assert forall|x2: int, y2: int|
                            #![trigger self.label_at(x2, y2)]
                            self.img.in_bounds(x2, y2) implies {
                            if !self.in_range(x2, y2) {
                                self.label_at(x2, y2) == base.label_at(x2, y2)
                            } else if y2 < y as int || (y2 == y as int && x2 < x as int + 1) {
                                if base.label_at(x2, y2) == Some(Flag::Flame) {
                                    self.label_at(x2, y2) == Some(Flag::Flame)
                                } else {
                                    exists|id2: u32|
                                        id2 < counter && #[trigger] self.labeled_with(x2, y2, id2)
                                }
                            } else {
                                self.label_at(x2, y2) == base.label_at(x2, y2)
                            }
                        } by {
                            if x2 == x as int && y2 == y as int {
                                assert(id < counter && self.labeled_with(x2, y2, id));
                            } else {
                                assert(self.label_at(x2, y2) == l_pre.label_at(x2, y2));
                                if self.in_range(x2, y2) && (y2 < y as int || (y2 == y as int && x2
                                    < x as int)) && !(base.label_at(x2, y2) == Some(Flag::Flame)) {
                                    let id2 = choose|id2: u32|
                                        id2 < counter && #[trigger] l_pre.labeled_with(x2, y2, id2);
                                    assert(self.labeled_with(x2, y2, id2));
                                }
                            }
                        }
                        assert(pass_one_zone(*self, base, counter, y as int, x as int + 1));
                        // the scan model took the same step as the loop
                        assert(!st2.failed && st2.counter == counter && st2.lookup == lookup@);
                        assert(st2.labels == st.labels.insert((x as int, y as int), id));
                        assert forall|x2: int, y2: int|
                            #![trigger st2.labels.contains_key((x2, y2))]
                            st2.labels.contains_key((x2, y2)) <==> (base.in_range(x2, y2) && (y2
                                < y as int || (y2 == y as int && x2 < x as int + 1)) && !(
                            base.label_at(x2, y2) == Some(Flag::Flame))) by {
                            if !(x2 == x as int && y2 == y as int) {
                                assert(st2.labels.contains_key((x2, y2)) == st.labels.contains_key(
                                    (x2, y2),
                                ));
                            }
                        }
                        assert forall|x2: int, y2: int|
                            st2.labels.contains_key((x2, y2)) implies self.label_at(x2, y2)
                            == Some(Flag::Territory(#[trigger] st2.labels[(x2, y2)])) by {
                            if x2 == x as int && y2 == y as int {
                                assert(st2.labels[(x2, y2)] == id);
                            } else {
                                assert(st2.labels[(x2, y2)] == st.labels[(x2, y2)]);
                                assert(st.labels.contains_key((x2, y2)));
                                assert(self.label_at(x2, y2) == l_pre.label_at(x2, y2));
                            }
                        }
                        assert(scan_matches(*self, base, counter, lookup@, y as int, x as int + 1));
                    }
                } else {
                    proof {
                        assert(base.nonframe_before(y as int, x as int + 1)
                            == base.nonframe_before(y as int, x as int));
                        assert(pass_one_zone(*self, base, counter, y as int, x as int + 1));
                        // a frame cell leaves the scan model unchanged
                        assert(st2 == st);
                        assert forall|x2: int, y2: int|
                            #![trigger st2.labels.contains_key((x2, y2))]
                            st2.labels.contains_key((x2, y2)) <==> (base.in_range(x2, y2) && (y2
                                < y as int || (y2 == y as int && x2 < x as int + 1)) && !(
                            base.label_at(x2, y2) == Some(Flag::Flame))) by {}
                        assert(scan_matches(*self, base, counter, lookup@, y as int, x as int + 1));
                    }
                }
                x = x + 1;
            }
            proof {
                assert(base.nonframe_before(y as int + 1, base.x_start as int)
                    == base.nonframe_before(y as int, base.x_end as int));
                assert(pass_one_zone(*self, base, counter, y as int + 1, self.x_start as int));
                // wrapping to the next row keeps the scan model in step
                let stw = base.scan_at(y as int + 1, base.x_start as int);
                assert(stw == base.scan_at(y as int, base.x_end as int));
                assert forall|x2: int, y2: int|
                    #![trigger stw.labels.contains_key((x2, y2))]
                    stw.labels.contains_key((x2, y2)) <==> (base.in_range(x2, y2) && (y2 < y as int
                        + 1 || (y2 == y as int + 1 && x2 < base.x_start as int)) && !(
                    base.label_at(x2, y2) == Some(Flag::Flame))) by {
                    if base.in_range(x2, y2) {
                        assert(x2 < base.x_end as int);
                        assert(x2 >= base.x_start as int);
                    }
                }
                assert(scan_matches(*self, base, counter, lookup@, y as int + 1, self.x_start as int));
            }
            y = y + 1;
        }
        proof {
            // the whole range is scanned: the partial-label shape holds
            assert forall|x2: int, y2: int|
                #![trigger self.label_at(x2, y2)]
                self.img.in_bounds(x2, y2) implies {
                if !self.in_range(x2, y2) {
                    self.label_at(x2, y2) == base.label_at(x2, y2)
                } else if base.label_at(x2, y2) == Some(Flag::Flame) {
                    self.label_at(x2, y2) == Some(Flag::Flame)
                } else {
                    exists|id: u32| id < counter && #[trigger] self.labeled_with(x2, y2, id)
                }
            } by {
                if self.in_range(x2, y2) {
                    assert(y2 < y as int);
                }
            }
            assert(self.labels_partial(base, counter));
            // hand the scan model's raw labels to the resolution pass
            let stf = base.scan();
            assert(stf == base.scan_at(y as int, base.x_start as int));
            assert(!stf.failed);
            assert(stf.lookup == lookup@);
            assert forall|x2: int, y2: int|
                #![trigger base.label_at(x2, y2)]
                self.in_range(x2, y2) && !(base.label_at(x2, y2) == Some(Flag::Flame))
                    implies self.label_at(x2, y2) == Some(
                Flag::Territory(stf.labels[(x2, y2)]),
            ) by {
                assert(stf.labels.contains_key((x2, y2)));
                assert(self.label_at(x2, y2) == Some(Flag::Territory(stf.labels[(x2, y2)])));
            }
        }
        self.resolve(&lookup, Ghost(base), Ghost(counter), Ghost(base.scan().labels));
        proof {
            assert(base.scan().lookup == lookup@);
            assert forall|x2: int, y2: int|
                #![trigger self.label_at(x2, y2)]
                self.img.in_bounds(x2, y2) implies {
                if !self.in_range(x2, y2) {
                    self.label_at(x2, y2) == base.label_at(x2, y2)
                } else if base.label_at(x2, y2) == Some(Flag::Flame) {
                    self.label_at(x2, y2) == Some(Flag::Flame)
                } else {
                    exists|id: int| self.cell_labeled(x2, y2, id)
                }
            } by {
                if self.in_range(x2, y2) && !(base.label_at(x2, y2) == Some(Flag::Flame)) {
                    let id0 = choose|id: u32|
                        id < counter && #[trigger] self.labeled_with(x2, y2, id);
                    assert(self.cell_labeled(x2, y2, id0 as int));
                }
            }
        }
        Ok(())
    }

    /// Equivalence resolution: walks the lookup table from the highest id
    /// down; each recorded entry merges its bounding box into its root's box
    /// and rewrites its cells to the root.
    fn resolve(
        &mut self,
        lookup: &Vec<Option<u32>>,
        Ghost(base): Ghost<Labeler>,
        Ghost(counter): Ghost<u32>,
        Ghost(raw): Ghost<Map<(int, int), u32>>,
    )
        requires
            forall|x2: int, y2: int|
                #![trigger base.label_at(x2, y2)]
                old(self).in_range(x2, y2) && !(base.label_at(x2, y2) == Some(Flag::Flame))
                    ==> old(self).label_at(x2, y2) == Some(Flag::Territory(raw[(x2, y2)])),
            old(self).wf(),
            old(self).same_config(base),
            lookup@.len() == CAPACITY as int,
            forall|i2: int|
                0 <= i2 < CAPACITY as int ==> (#[trigger] lookup@[i2] matches Some(j) ==> 0 <= j
                    < i2 && i2 < counter as int),
            counter as int <= CAPACITY as int,
            old(self).areas_exact(),
            old(self).labels_partial(base, counter),
            forall|x2: int, y2: int|
                #![trigger base.label_at(x2, y2)]
                base.img.in_bounds(x2, y2) ==> (base.label_at(x2, y2) is None || base.label_at(
                    x2,
                    y2,
                ) == Some(Flag::Flame)),
            forall|id2: int|
                0 <= id2 < CAPACITY as int ==> ((#[trigger] old(self).territories@[id2]) is Some
                    <==> id2 < counter as int),
        ensures
            final(self).wf(),
            final(self).same_config(base),
            final(self).areas_exact(),
            final(self).labels_partial(base, counter),
            forall|x2: int, y2: int|
                #![trigger final(self).label_at(x2, y2)]
                final(self).in_range(x2, y2) && !(base.label_at(x2, y2) == Some(Flag::Flame))
                    ==> final(self).label_at(x2, y2) == Some(
                    Flag::Territory(resolved_label(lookup@, raw[(x2, y2)])),
                ),
    {
        let mut i: usize = CAPACITY;
        while i > 0
            invariant
                self.wf(),
                self.same_config(base),
                lookup@.len() == CAPACITY as int,
                forall|i2: int|
                    0 <= i2 < CAPACITY as int ==> (#[trigger] lookup@[i2] matches Some(j) ==> 0
                        <= j < i2 && i2 < counter as int),
                counter as int <= CAPACITY as int,
                i <= CAPACITY,
                self.areas_exact(),
                self.labels_partial(base, counter),
                forall|x2: int, y2: int|
                    #![trigger base.label_at(x2, y2)]
                    base.img.in_bounds(x2, y2) ==> (base.label_at(x2, y2) is None || base.label_at(
                        x2,
                        y2,
                    ) == Some(Flag::Flame)),
                forall|id2: int|
                    0 <= id2 < counter as int && id2 < i as int ==> (
                    #[trigger] self.territories@[id2]) is Some,
                forall|x2: int, y2: int|
                    #![trigger self.label_at(x2, y2)]
                    self.in_range(x2, y2) && !(base.label_at(x2, y2) == Some(Flag::Flame))
                        ==> self.label_at(x2, y2) == Some(
                        Flag::Territory(
                            resolve_partial(lookup@, CAPACITY as int - 1, i as int, raw[(x2, y2)]),
                        ),
                    ),
            decreases i,
        {
            i = i - 1;
            let ghost i_prev = i as int + 1;
            let entry: Option<u32> = lookup[i];
            if entry.is_none() {
                proof {
                    // the step at this index rewrites nothing
                    assert forall|x2: int, y2: int|
                        #![trigger self.label_at(x2, y2)]
                        self.in_range(x2, y2) && !(base.label_at(x2, y2) == Some(Flag::Flame))
                            implies self.label_at(x2, y2) == Some(
                        Flag::Territory(
                            resolve_partial(lookup@, CAPACITY as int - 1, i as int, raw[(x2, y2)]),
                        ),
                    ) by {
                        lemma_resolve_peel(lookup@, CAPACITY as int - 1, i as int, raw[(x2, y2)]);
                    }
                }
            }
            if let Some(root) = entry {
                proof {
                    assert(lookup@[i as int] matches Some(j) ==> 0 <= j < i as int && (i as int)
                        < counter as int);
                    assert(0 <= root as int && (root as int) < i as int && (i as int)
                        < counter as int);
                    assert(self.territories@[i as int] is Some);
                    assert(self.territories@[root as int] is Some);
                }
                let ghost l0 = *self;
                let a_i: Option<Area> = self.territories[i];
                let a_r: Option<Area> = self.territories[root as usize];
                let ar = a_r.unwrap();
                let ai = a_i.unwrap();
                let merged = ar.merge(ai);
                self.territories.set(root as usize, Some(merged));
                self.territories.set(i, None);
                let ghost l_mid = *self;
                self.relabel(i as u32, root);
                proof {
                    let l2 = *self;
                    let gi = i as int;
                    let gr = root as int;
                    // table was untouched while the boxes were merged
                    assert forall|x2: int, y2: int|
                        #![trigger l_mid.label_at(x2, y2)]
                        true implies l_mid.label_at(x2, y2) == l0.label_at(x2, y2) by {}
                    // the rewrite and its effect on each labeled-cell set
                    assert forall|x2: int, y2: int|
                        #![trigger l2.label_at(x2, y2)]
                        l2.img.in_bounds(x2, y2) implies l2.label_at(x2, y2) == (if l0.in_range(
                        x2,
                        y2,
                    ) && l0.label_at(x2, y2) == Some(Flag::Territory(i as u32)) {
                        Some(Flag::Territory(root))
                    } else {
                        l0.label_at(x2, y2)
                    }) by {}
                    // the rewrite is exactly the resolution step at this index
                    assert forall|x2: int, y2: int|
                        #![trigger l2.label_at(x2, y2)]
                        l2.in_range(x2, y2) && !(base.label_at(x2, y2) == Some(Flag::Flame))
                            implies l2.label_at(x2, y2) == Some(
                        Flag::Territory(
                            resolve_partial(lookup@, CAPACITY as int - 1, gi, raw[(x2, y2)]),
                        ),
                    ) by {
                        lemma_resolve_peel(lookup@, CAPACITY as int - 1, gi, raw[(x2, y2)]);
                        let p = resolve_partial(
                            lookup@,
                            CAPACITY as int - 1,
                            gi + 1,
                            raw[(x2, y2)],
                        );
                        assert(l0.label_at(x2, y2) == Some(Flag::Territory(p)));
                        assert(lookup@[gi] == Some(root));
                        if p as int == gi {
                            assert(l2.label_at(x2, y2) == Some(Flag::Territory(root)));
                        } else {
                            assert(l2.label_at(x2, y2) == Some(Flag::Territory(p)));
                        }
                    }
                    // out-of-range cells never hold a region label
                    assert forall|x2: int, y2: int, id2: int|
                        #![trigger l0.cell_labeled(x2, y2, id2)]
                        l0.cell_labeled(x2, y2, id2) implies l0.in_range(x2, y2) by {
                        if !l0.in_range(x2, y2) {
                            assert(l0.label_at(x2, y2) == base.label_at(x2, y2));
                        }
                    }
                    // labels stay resolved below the counter
                    assert forall|x2: int, y2: int|
                        #![trigger l2.label_at(x2, y2)]
                        l2.img.in_bounds(x2, y2) implies {
                        if !l2.in_range(x2, y2) {
                            l2.label_at(x2, y2) == base.label_at(x2, y2)
                        } else if base.label_at(x2, y2) == Some(Flag::Flame) {
                            l2.label_at(x2, y2) == Some(Flag::Flame)
                        } else {
                            exists|id: u32| id < counter && #[trigger] l2.labeled_with(x2, y2, id)
                        }
                    } by {
                        if l2.in_range(x2, y2) && !(base.label_at(x2, y2) == Some(Flag::Flame)) {
                            let id0 = choose|id: u32|
                                id < counter && #[trigger] l0.labeled_with(x2, y2, id);
                            if id0 == i as u32 {
                                assert(root < counter && l2.labeled_with(x2, y2, root));
                            } else {
                                assert(id0 < counter && l2.labeled_with(x2, y2, id0));
                            }
                        }
                    }
                    // the merged box is exactly minimal again
                    assert forall|id2: int|
                        0 <= id2 < CAPACITY as int implies match #[trigger] l2.territories@[id2] {
                        Some(a) => {
                            &&& a.wf()
                            &&& (forall|x2: int, y2: int|
                                #[trigger] l2.cell_labeled(x2, y2, id2) ==> a.contains(x2, y2))
                            &&& (exists|x2: int, y2: int|
                                #[trigger] l2.cell_labeled(x2, y2, id2) && x2 == a.x_start as int)
                            &&& (exists|x2: int, y2: int|
                                #[trigger] l2.cell_labeled(x2, y2, id2) && x2 == a.x_end as int
                                    - 1)
                            &&& (exists|x2: int, y2: int|
                                #[trigger] l2.cell_labeled(x2, y2, id2) && y2 == a.y_start as int)
                            &&& (exists|x2: int, y2: int|
                                #[trigger] l2.cell_labeled(x2, y2, id2) && y2 == a.y_end as int
                                    - 1)
                        },
                        None => forall|x2: int, y2: int| !#[trigger] l2.cell_labeled(x2, y2, id2),
                    } by {
                        if id2 == gi {
                            assert forall|x2: int, y2: int| !#[trigger] l2.cell_labeled(
                                x2,
                                y2,
                                id2,
                            ) by {
                                if l2.cell_labeled(x2, y2, id2) {
                                    if l0.in_range(x2, y2) && l0.label_at(x2, y2) == Some(
                                        Flag::Territory(i as u32),
                                    ) {
                                        assert(l2.label_at(x2, y2) == Some(Flag::Territory(root)));
                                    } else {
                                        assert(l0.cell_labeled(x2, y2, gi));
                                        assert(l0.in_range(x2, y2));
                                    }
                                    assert(false);
                                }
                            }
                        } else if id2 == gr {
                            let a = merged;
                            assert(l2.territories@[id2] == Some(a));
                            assert forall|x2: int, y2: int|
                                #[trigger] l2.cell_labeled(x2, y2, id2) implies a.contains(
                                x2,
                                y2,
                            ) by {
                                if l0.in_range(x2, y2) && l0.label_at(x2, y2) == Some(
                                    Flag::Territory(i as u32),
                                ) {
                                    assert(l0.cell_labeled(x2, y2, gi));
                                    assert(ai.contains(x2, y2));
                                } else {
                                    assert(l0.cell_labeled(x2, y2, gr));
                                    assert(ar.contains(x2, y2));
                                }
                            }
                            // witness for each edge of the merged box
                            if ar.x_start <= ai.x_start {
                                let (wx, wy) = choose|wx: int, wy: int|
                                    #[trigger] l0.cell_labeled(wx, wy, gr) && wx
                                        == ar.x_start as int;
                                assert(l2.cell_labeled(wx, wy, gr) && wx == a.x_start as int);
                            } else {
                                let (wx, wy) = choose|wx: int, wy: int|
                                    #[trigger] l0.cell_labeled(wx, wy, gi) && wx
                                        == ai.x_start as int;
                                assert(l0.in_range(wx, wy));
                                assert(l2.cell_labeled(wx, wy, gr) && wx == a.x_start as int);
                            }
                            if ar.x_end >= ai.x_end {
                                let (wx, wy) = choose|wx: int, wy: int|
                                    #[trigger] l0.cell_labeled(wx, wy, gr) && wx == ar.x_end as int
                                        - 1;
                                assert(l2.cell_labeled(wx, wy, gr) && wx == a.x_end as int - 1);
                            } else {
                                let (wx, wy) = choose|wx: int, wy: int|
                                    #[trigger] l0.cell_labeled(wx, wy, gi) && wx == ai.x_end as int
                                        - 1;
                                assert(l0.in_range(wx, wy));
                                assert(l2.cell_labeled(wx, wy, gr) && wx == a.x_end as int - 1);
                            }
                            if ar.y_start <= ai.y_start {
                                let (wx, wy) = choose|wx: int, wy: int|
                                    #[trigger] l0.cell_labeled(wx, wy, gr) && wy
                                        == ar.y_start as int;
                                assert(l2.cell_labeled(wx, wy, gr) && wy == a.y_start as int);
                            } else {
                                let (wx, wy) = choose|wx: int, wy: int|
                                    #[trigger] l0.cell_labeled(wx, wy, gi) && wy
                                        == ai.y_start as int;
                                assert(l0.in_range(wx, wy));
                                assert(l2.cell_labeled(wx, wy, gr) && wy == a.y_start as int);
                            }
                            if ar.y_end >= ai.y_end {
                                let (wx, wy) = choose|wx: int, wy: int|
                                    #[trigger] l0.cell_labeled(wx, wy, gr) && wy == ar.y_end as int
                                        - 1;
                                assert(l2.cell_labeled(wx, wy, gr) && wy == a.y_end as int - 1);
                            } else {
                                let (wx, wy) = choose|wx: int, wy: int|
                                    #[trigger] l0.cell_labeled(wx, wy, gi) && wy == ai.y_end as int
                                        - 1;
                                assert(l0.in_range(wx, wy));
                                assert(l2.cell_labeled(wx, wy, gr) && wy == a.y_end as int - 1);
                            }
                        } else {
                            assert(l2.territories@[id2] == l0.territories@[id2]);
                            assert forall|x2: int, y2: int|
                                #![trigger l2.cell_labeled(x2, y2, id2)]
                                true implies (l2.cell_labeled(x2, y2, id2) <==> l0.cell_labeled(
                                x2,
                                y2,
                                id2,
                            )) by {
                                if l2.img.in_bounds(x2, y2) {
                                    assert(l2.label_at(x2, y2) == (if l0.in_range(x2, y2)
                                        && l0.label_at(x2, y2) == Some(Flag::Territory(i as u32)) {
                                        Some(Flag::Territory(root))
                                    } else {
                                        l0.label_at(x2, y2)
                                    }));
                                }
                            }
                            match l0.territories@[id2] {
                                Some(a) => {
                                    let (wx, wy) = choose|wx: int, wy: int|
                                        #[trigger] l0.cell_labeled(wx, wy, id2) && wx
                                            == a.x_start as int;
                                    assert(l2.cell_labeled(wx, wy, id2));
                                    let (wx2, wy2) = choose|wx: int, wy: int|
                                        #[trigger] l0.cell_labeled(wx, wy, id2) && wx
                                            == a.x_end as int - 1;
                                    assert(l2.cell_labeled(wx2, wy2, id2));
                                    let (wx3, wy3) = choose|wx: int, wy: int|
                                        #[trigger] l0.cell_labeled(wx, wy, id2) && wy
                                            == a.y_start as int;
                                    assert(l2.cell_labeled(wx3, wy3, id2));
                                    let (wx4, wy4) = choose|wx: int, wy: int|
                                        #[trigger] l0.cell_labeled(wx, wy, id2) && wy
                                            == a.y_end as int - 1;
                                    assert(l2.cell_labeled(wx4, wy4, id2));
                                },
                                None => {},
                            }
                        }
                    }
                    assert(l2.areas_exact());
                }
            }
        }
    }

    /// Rewrites every in-range cell labeled `from_id` to `to_id`.
    fn relabel(&mut self, from_id: u32, to_id: u32)
        requires
            old(self).wf(),
        ensures
            final(self).wf(),
            final(self).same_config(*old(self)),
            final(self).territories == old(self).territories,
            final(self).table@.len() == old(self).table@.len(),
            forall|x2: int, y2: int|
                #![trigger final(self).label_at(x2, y2)]
                final(self).img.in_bounds(x2, y2) ==> final(self).label_at(x2, y2) == (if old(
                    self,
                ).in_range(x2, y2) && old(self).label_at(x2, y2) == Some(
                    Flag::Territory(from_id),
                ) {
                    Some(Flag::Territory(to_id))
                } else {
                    old(self).label_at(x2, y2)
                }),
    {
        let ghost l0 = *self;
        let w = self.img.width;
        let mut y = self.y_start;
        while y < self.y_end
            invariant
                self.wf(),
                self.same_config(l0),
                self.territories == l0.territories,
                self.table@.len() == l0.table@.len(),
                w == self.img.width,
                self.y_start <= y <= self.y_end,
                forall|x2: int, y2: int|
                    #![trigger self.label_at(x2, y2)]
                    self.img.in_bounds(x2, y2) ==> self.label_at(x2, y2) == (if l0.in_range(
                        x2,
                        y2,
                    ) && y2 < y as int && l0.label_at(x2, y2) == Some(Flag::Territory(from_id)) {
                        Some(Flag::Territory(to_id))
                    } else {
                        l0.label_at(x2, y2)
                    }),
            decreases self.y_end - y,
        {
            let mut x = self.x_start;
            while x < self.x_end
                invariant
                    self.wf(),
                    self.same_config(l0),
                    self.territories == l0.territories,
                    self.table@.len() == l0.table@.len(),
                    w == self.img.width,
                    self.y_start <= y < self.y_end,
                    self.x_start <= x <= self.x_end,
                    forall|x2: int, y2: int|
                        #![trigger self.label_at(x2, y2)]
                        self.img.in_bounds(x2, y2) ==> self.label_at(x2, y2) == (if l0.in_range(
                            x2,
                            y2,
                        ) && (y2 < y as int || (y2 == y as int && x2 < x as int)) && l0.label_at(
                            x2,
                            y2,
                        ) == Some(Flag::Territory(from_id)) {
                            Some(Flag::Territory(to_id))
                        } else {
                            l0.label_at(x2, y2)
                        }),
                decreases self.x_end - x,
            {
                let ghost l_pre = *self;
                let i = self.cell_index(x, y);
                let cur: Option<Flag> = self.table[i];
                let is_from = match cur {
                    Some(Flag::Territory(t)) => t == from_id,
                    _ => false,
                };
                if is_from {
                    self.table.set(i, Some(Flag::Territory(to_id)));
                    proof {
                        assert forall|x2: int, y2: int|
                            #![trigger self.label_at(x2, y2)]
                            self.img.in_bounds(x2, y2) implies self.label_at(x2, y2) == (if x2
                            == x as int && y2 == y as int {
                            Some(Flag::Territory(to_id))
                        } else {
                            l_pre.label_at(x2, y2)
                        }) by {
                            lemma_grid_index_in_bounds(x2, y2, w as int, self.img.height as int);
                            if !(x2 == x as int && y2 == y as int) {
                                lemma_grid_index_distinct(x2, y2, x as int, y as int, w as int);
                            }
                        }
                    }
                }
                x = x + 1;
            }
            y = y + 1;
        }
    }

    /// The color `output_map` paints at `(x, y)`: red over frame cells, a
    /// palette color cycled by region id over labeled cells, and the source
    /// pixel where no marking exists.
    pub open spec fn map_color(self, x: int, y: int) -> Pixel {
        match self.label_at(x, y) {
            Some(Flag::Flame) => Pixel { r: 255, g: 0, b: 0, a: 255 },
            Some(Flag::Territory(t)) => palette_spec(t as int % 6),
            None => self.img.pixel_at(x, y),
        }
    }

    /// Renders the label table over a copy of the page: frame cells red,
    /// each region in a palette color cycled by its id, unmarked cells kept.
    pub fn output_map(&self) -> (r: PixelBuffer)
        requires
            self.wf(),
        ensures
            r.wf(),
            r.width == self.img.width,
            r.height == self.img.height,
            forall|x: int, y: int|
                r.in_bounds(x, y) ==> #[trigger] r.pixel_at(x, y) == self.map_color(x, y),
    {
        let w = self.img.width;
        let h = self.img.height;
        // reading the length records that the cell count fits in usize
        let _table_len: usize = self.table.len();
        let mut map = PixelBuffer::new(w, h, Pixel::empty());
        let mut y: u32 = 0;
        while y < h
            invariant
                self.wf(),
                w == self.img.width,
                h == self.img.height,
                y <= h,
                map.wf(),
                map.width == w,
                map.height == h,
                forall|x2: int, y2: int|
                    map.in_bounds(x2, y2) && y2 < y as int ==> #[trigger] map.pixel_at(x2, y2)
                        == self.map_color(x2, y2),
            decreases h - y,
        {
            let mut x: u32 = 0;
            while x < w
                invariant
                    self.wf(),
                    w == self.img.width,
                    h == self.img.height,
                    y < h,
                    x <= w,
                    map.wf(),
                    map.width == w,
                    map.height == h,
                    forall|x2: int, y2: int|
                        map.in_bounds(x2, y2) && (y2 < y as int || (y2 == y as int && x2
                            < x as int)) ==> #[trigger] map.pixel_at(x2, y2) == self.map_color(
                            x2,
                            y2,
                        ),
                decreases w - x,
            {
                let li = self.cell_index(x, y);
                let cell: Option<Flag> = self.table[li];
                let color = match cell {
                    Some(Flag::Flame) => Pixel::new(255, 0, 0, 255),
                    Some(Flag::Territory(t)) => palette(t),
                    None => self.img.get(x, y),
                };
                map.set(x, y, color);
                x = x + 1;
            }
            y = y + 1;
        }
        map
    }

    /// Runs the whole engine: frame detection, labeling, extraction. On
    /// success the table is pinned down completely — the frame is exactly the
    /// reachable set, and every other in-range cell holds the canonical label
    /// the scan model assigns it — and the panels follow from the table.
    pub fn run(&mut self) -> (r: PanelResult<Vec<Panel>>)
        requires
            old(self).wf(),
            forall|i: int| 0 <= i < old(self).table@.len() ==> old(self).table@[i] is None,
        ensures
            final(self).wf(),
            final(self).same_config(*old(self)),
            match r {
                Ok(panels) => {
                    &&& old(self).in_range(
                        old(self).zero_point.0 as int,
                        old(self).zero_point.1 as int,
                    )
                    &&& forall|x: int, y: int|
                        #![trigger final(self).label_at(x, y)]
                        final(self).img.in_bounds(x, y) ==> ((final(self).label_at(x, y) == Some(
                            Flag::Flame,
                        )) <==> final(self).reachable(x, y))
                    &&& forall|x: int, y: int|
                        #![trigger final(self).label_at(x, y)]
                        final(self).img.in_bounds(x, y) ==> {
                            if !final(self).in_range(x, y) {
                                final(self).label_at(x, y) is None
                            } else if !final(self).reachable(x, y) {
                                exists|id: int| final(self).cell_labeled(x, y, id)
                            } else {
                                final(self).label_at(x, y) == Some(Flag::Flame)
                            }
                        }
                    &&& final(self).areas_exact()
                    &&& !final(self).scan().failed
                    &&& forall|x: int, y: int|
                        #![trigger final(self).label_at(x, y)]
                        final(self).in_range(x, y) && !final(self).reachable(x, y)
                            ==> final(self).label_at(x, y) == Some(
                            Flag::Territory(
                                resolved_label(
                                    final(self).scan().lookup,
                                    final(self).scan().labels[(x, y)],
                                ),
                            ),
                        )
                    &&& forall|k: int|
                        #![trigger panels@[k]]
                        0 <= k < panels@.len() ==> {
                            let p = panels@[k];
                            &&& (p.label as int) < CAPACITY as int
                            &&& final(self).territories@[p.label as int] == Some(p.area)
                            &&& p.area.wf()
                            &&& p.buffer.wf()
                            &&& p.buffer.width as int == p.area.x_end as int
                                - p.area.x_start as int
                            &&& p.buffer.height as int == p.area.y_end as int
                                - p.area.y_start as int
                            &&& forall|dx: int, dy: int|
                                0 <= dx < p.buffer.width as int && 0 <= dy < p.buffer.height as int
                                    ==> p.buffer.pixel_at(dx, dy) == final(self).panel_pixel(
                                    p.label,
                                    p.area,
                                    dx,
                                    dy,
                                )
                        }
                    &&& forall|k1: int, k2: int|
                        0 <= k1 < k2 < panels@.len() ==> (#[trigger] panels@[k1]).label < (
                        #[trigger] panels@[k2]).label
                    &&& forall|id: int|
                        0 <= id < CAPACITY as int && (#[trigger] final(self).territories@[id])
                            is Some ==> exists|k: int|
                            0 <= k < panels@.len() && (#[trigger] panels@[k]).label as int == id
                },
                Err(e) => match e {
                    PanelError::RangeError { .. } => {
                        &&& !old(self).in_range(
                            old(self).zero_point.0 as int,
                            old(self).zero_point.1 as int,
                        )
                        &&& e == (PanelError::RangeError {
                            x: old(self).zero_point.0,
                            y: old(self).zero_point.1,
                            x_start: old(self).x_start,
                            x_end: old(self).x_end,
                            y_start: old(self).y_start,
                            y_end: old(self).y_end,
                        })
                        &&& *final(self) == *old(self)
                    },
                    PanelError::CapacityExceeded => {
                        &&& old(self).in_range(
                            old(self).zero_point.0 as int,
                            old(self).zero_point.1 as int,
                        )
                        &&& final(self).scan().failed
                        &&& final(self).areas_exact()
                        &&& forall|x: int, y: int|
                            #![trigger final(self).label_at(x, y)]
                            final(self).img.in_bounds(x, y) ==> ((final(self).label_at(x, y)
                                == Some(Flag::Flame)) <==> final(self).reachable(x, y))
                        &&& forall|x: int, y: int|
                            #![trigger final(self).label_at(x, y)]
                            final(self).img.in_bounds(x, y) && !final(self).in_range(x, y)
                                ==> final(self).label_at(x, y) == old(self).label_at(x, y)
                    },
                },
            },
    {
        let ghost l_start = *self;
        match self.flood_fill() {
            Ok(()) => {},
            Err(e) => {
                return Err(e);
            },
        }
        let ghost l_fill = *self;
        proof {
            assert forall|x: int, y: int|
                #![trigger l_fill.label_at(x, y)]
                l_fill.img.in_bounds(x, y) implies (l_fill.label_at(x, y) is None
                || l_fill.label_at(x, y) == Some(Flag::Flame)) by {}
        }
        match self.labelling() {
            Ok(()) => {},
            Err(e) => {
                proof {
                    assert forall|x: int, y: int|
                        #![trigger self.label_at(x, y)]
                        self.img.in_bounds(x, y) implies ((self.label_at(x, y) == Some(
                        Flag::Flame,
                    )) <==> self.reachable(x, y)) by {
                        if l_fill.reachable(x, y) {
                            lemma_reachable_config(l_fill, *self, x, y);
                        }
                        if self.reachable(x, y) {
                            lemma_reachable_config(*self, l_fill, x, y);
                        }
                    }
                    // the failed scan carries over to the final table
                    lemma_scan_congruence(
                        l_fill,
                        *self,
                        l_fill.y_end as int,
                        l_fill.x_start as int,
                    );
                    assert(self.scan().failed);
                    // untouched cells outside the range were never filled
                    assert forall|x: int, y: int|
                        #![trigger self.label_at(x, y)]
                        self.img.in_bounds(x, y) && !self.in_range(x, y) implies self.label_at(
                        x,
                        y,
                    ) == old(self).label_at(x, y) by {
                        assert(self.label_at(x, y) == l_fill.label_at(x, y));
                        assert(!l_fill.reachable(x, y));
                        lemma_grid_index_in_bounds(
                            x,
                            y,
                            self.img.width as int,
                            self.img.height as int,
                        );
                        assert(old(self).label_at(x, y) is None);
                    }
                }
                return Err(e);
            },
        }
        proof {
            // the frame set carried through labeling is still the reachable set
            assert forall|x: int, y: int|
                #![trigger self.label_at(x, y)]
                self.img.in_bounds(x, y) implies ((self.label_at(x, y) == Some(Flag::Flame))
                <==> self.reachable(x, y)) by {
                if l_fill.reachable(x, y) {
                    lemma_reachable_config(l_fill, *self, x, y);
                }
                if self.reachable(x, y) {
                    lemma_reachable_config(*self, l_fill, x, y);
                }
            }
        }
        proof {
            // the final table scans exactly as the post-fill table did
            lemma_scan_congruence(l_fill, *self, l_fill.y_end as int, l_fill.x_start as int);
            assert(!self.scan().failed);
            assert forall|x: int, y: int|
                #![trigger self.label_at(x, y)]
                self.in_range(x, y) && !self.reachable(x, y) implies self.label_at(x, y) == Some(
                Flag::Territory(
                    resolved_label(self.scan().lookup, self.scan().labels[(x, y)]),
                ),
            ) by {
                if l_fill.reachable(x, y) {
                    lemma_reachable_config(l_fill, *self, x, y);
                }
                assert(!(l_fill.label_at(x, y) == Some(Flag::Flame)));
            }
        }
        let panels = self.get_panels();
        proof {
            assert forall|x: int, y: int|
                #![trigger self.label_at(x, y)]
                self.img.in_bounds(x, y) implies {
                if !self.in_range(x, y) {
                    self.label_at(x, y) is None
                } else if !self.reachable(x, y) {
                    exists|id: int| self.cell_labeled(x, y, id)
                } else {
                    self.label_at(x, y) == Some(Flag::Flame)
                }
            } by {
                if !self.in_range(x, y) {
                    assert(self.label_at(x, y) == l_fill.label_at(x, y));
                    if l_fill.reachable(x, y) {
                        lemma_reachable_config(l_fill, *self, x, y);
                    }
                } else if !self.reachable(x, y) {
                    if l_fill.reachable(x, y) {
                        lemma_reachable_config(l_fill, *self, x, y);
                    }
                    assert(!(l_fill.label_at(x, y) == Some(Flag::Flame)));
                }
            }
        }
        Ok(panels)
    }

    /// Frame detection: a breadth-first flood fill from the seed over
    /// 4-connected in-range cells that match the reference color. On success
    /// the table holds `Flame` on exactly the reachable cells and remains
    /// unset everywhere else; a seed outside the processing range fails
    /// before any mutation.
    pub fn flood_fill(&mut self) -> (r: PanelResult<()>)
        requires
            old(self).wf(),
            forall|i: int| 0 <= i < old(self).table@.len() ==> old(self).table@[i] is None,
        ensures
            final(self).wf(),
            final(self).same_config(*old(self)),
            final(self).territories == old(self).territories,
            match r {
                Ok(()) => {
                    &&& old(self).in_range(
                        old(self).zero_point.0 as int,
                        old(self).zero_point.1 as int,
                    )
                    &&& forall|x: int, y: int|
                        #![trigger final(self).label_at(x, y)]
                        final(self).img.in_bounds(x, y) ==> final(self).label_at(x, y) == (
                        if final(self).reachable(x, y) {
                            Some(Flag::Flame)
                        } else {
                            None::<Flag>
                        })
                },
                Err(e) => {
                    &&& !old(self).in_range(
                        old(self).zero_point.0 as int,
                        old(self).zero_point.1 as int,
                    )
                    &&& e == (PanelError::RangeError {
                        x: old(self).zero_point.0,
                        y: old(self).zero_point.1,
                        x_start: old(self).x_start,
                        x_end: old(self).x_end,
                        y_start: old(self).y_start,
                        y_end: old(self).y_end,
                    })
                    &&& *final(self) == *old(self)
                },
            },
    {
        let zx = self.zero_point.0;
        let zy = self.zero_point.1;
        if !(self.x_start <= zx && zx < self.x_end && self.y_start <= zy && zy < self.y_end) {
            return Err(
                PanelError::RangeError {
                    x: zx,
                    y: zy,
                    x_start: self.x_start,
                    x_end: self.x_end,
                    y_start: self.y_start,
                    y_end: self.y_end,
                },
            );
        }
        let ghost base = *self;
        let w = self.img.width;
        let n: usize = self.table.len();
        let mut pending: Vec<bool> = vec![false; n];
        let mut queue: Vec<(u32, u32)> = Vec::new();
        let zi = self.cell_index(zx, zy);
        pending.set(zi, true);
        queue.push((zx, zy));
        proof {
            // all cells unset, the seed pending and enqueued
            assert forall|x: int, y: int|
                #![trigger self.label_at(x, y)]
                self.img.in_bounds(x, y) implies self.label_at(x, y) is None by {
                lemma_grid_index_in_bounds(x, y, w as int, self.img.height as int);
            }
            assert(queue@[0] == (zx, zy));
            assert(in_queue(queue@, zx as int, zy as int));
            assert forall|x: int, y: int|
                self.in_range(x, y) && pending@[#[trigger] grid_index(x, y, w as int)]
                    && !in_queue(queue@, x, y) implies self.marked(x, y) || !self.matches_ref(
                x,
                y,
            ) by {
                lemma_grid_index_in_bounds(x, y, w as int, self.img.height as int);
                if grid_index(x, y, w as int) == zi as int {
                    if !(x == zx as int && y == zy as int) {
                        lemma_grid_index_distinct(x, y, zx as int, zy as int, w as int);
                    }
                    assert(in_queue(queue@, x, y));
                }
                assert(false);
            }
            assert(fill_core(*self, base, queue@, pending@));
            assert forall|mx: int, my: int, nx: int, ny: int|
                #![trigger self.marked(mx, my), adjacent((mx, my), (nx, ny))]
                self.marked(mx, my) && !(mx == -1 && my == -1) && adjacent((mx, my), (nx, ny))
                    && self.in_range(nx, ny) implies covered(*self, queue@, nx, ny) by {
                assert(self.label_at(mx, my) is Some);
                assert(false);
            }
            assert(frontier_except(*self, queue@, -1, -1));
        }
        while queue.len() != 0
            invariant
                w == self.img.width,
                fill_core(*self, base, queue@, pending@),
                frontier_except(*self, queue@, -1, -1),
            decreases 2 * count_false(pending@) + queue@.len(),
        {
            let ghost q_pre = queue@;
            let ghost l_pre = *self;
            let c = queue.remove(0);
            let cx = c.0;
            let cy = c.1;
            proof {
                q_pre.remove_ensures(0);
                assert(q_pre[0] == c);
                assert(self.in_range(cx as int, cy as int));
            }
            let idx = self.cell_index(cx, cy);
            let cur: Option<Flag> = self.table[idx];
            proof {
                assert(cur == self.label_at(cx as int, cy as int));
            }
            let mut did_mark = false;
            if cur.is_none() {
                let p = self.img.get(cx, cy);
                let reference = self.reference_value;
                if judge(&p, &reference, self.color_tolerance) {
                    did_mark = true;
                    self.table.set(idx, Some(Flag::Flame));
                    proof {
                        let l2 = *self;
                        // the update touches exactly the popped cell
                        assert forall|x: int, y: int|
                            #![trigger l2.label_at(x, y)]
                            l2.img.in_bounds(x, y) implies l2.label_at(x, y) == (if x == cx as int
                            && y == cy as int {
                            Some(Flag::Flame)
                        } else {
                            l_pre.label_at(x, y)
                        }) by {
                            lemma_grid_index_in_bounds(x, y, w as int, l2.img.height as int);
                            if !(x == cx as int && y == cy as int) {
                                lemma_grid_index_distinct(x, y, cx as int, cy as int, w as int);
                            }
                        }
                        // the popped cell is reachable
                        if c == self.zero_point {
                            lemma_seed_reachable(l2);
                        } else {
                            let (mx, my) = choose|mx: int, my: int|
                                l_pre.marked(mx, my) && adjacent(
                                    (mx, my),
                                    (cx as int, cy as int),
                                );
                            assert(l_pre.reachable(mx, my));
                            lemma_reachable_config(l_pre, l2, mx, my);
                            lemma_reach_step(l2, mx, my, cx as int, cy as int);
                        }
                        assert(l2.reachable(cx as int, cy as int));
                        // marked cells stay reachable
                        assert forall|x: int, y: int|
                            #![trigger l2.label_at(x, y)]
                            l2.img.in_bounds(x, y) && l2.label_at(x, y) is Some implies l2.label_at(
                            x,
                            y,
                        ) == Some(Flag::Flame) && l2.in_range(x, y) && l2.matches_ref(x, y)
                            && l2.reachable(x, y) by {
                            if !(x == cx as int && y == cy as int) {
                                assert(l_pre.label_at(x, y) is Some);
                                lemma_reachable_config(l_pre, l2, x, y);
                            }
                        }
                        // queue entries keep their facts under the removal
                        assert forall|i: int| #![trigger queue@[i]] 0 <= i < queue@.len() implies {
                            &&& l2.in_range(queue@[i].0 as int, queue@[i].1 as int)
                            &&& pending@[grid_index(
                                queue@[i].0 as int,
                                queue@[i].1 as int,
                                w as int,
                            )]
                            &&& (queue@[i] == l2.zero_point || exists|mx: int, my: int|
                                l2.marked(mx, my) && adjacent(
                                    (mx, my),
                                    (queue@[i].0 as int, queue@[i].1 as int),
                                ))
                        } by {
                            assert(queue@[i] == q_pre[i + 1]);
                            if q_pre[i + 1] != l2.zero_point {
                                let (mx, my) = choose|mx: int, my: int|
                                    l_pre.marked(mx, my) && adjacent(
                                        (mx, my),
                                        (q_pre[i + 1].0 as int, q_pre[i + 1].1 as int),
                                    );
                                assert(l2.marked(mx, my));
                            }
                        }
                        assert forall|i: int, j: int|
                            #![trigger queue@[i], queue@[j]]
                            0 <= i < j < queue@.len() implies queue@[i] != queue@[j] by {
                            assert(queue@[i] == q_pre[i + 1] && queue@[j] == q_pre[j + 1]);
                        }
                        // the seed stays accounted for
                        if l2.in_range(l2.zero_point.0 as int, l2.zero_point.1 as int)
                            && l2.matches_ref(l2.zero_point.0 as int, l2.zero_point.1 as int) {
                            if c == l2.zero_point {
                                assert(l2.marked(l2.zero_point.0 as int, l2.zero_point.1 as int));
                            } else if !l_pre.marked(
                                l2.zero_point.0 as int,
                                l2.zero_point.1 as int,
                            ) {
                                lemma_in_queue_remove0(
                                    q_pre,
                                    l2.zero_point.0 as int,
                                    l2.zero_point.1 as int,
                                );
                            }
                        }
                        // pending cells off the queue are processed
                        assert forall|x: int, y: int|
                            l2.in_range(x, y) && pending@[#[trigger] grid_index(x, y, w as int)]
                                && !in_queue(queue@, x, y) implies l2.marked(x, y)
                            || !l2.matches_ref(x, y) by {
                            lemma_grid_index_in_bounds(x, y, w as int, l2.img.height as int);
                            if x == cx as int && y == cy as int {
                                assert(l2.marked(x, y));
                            } else if in_queue(q_pre, x, y) {
                                lemma_in_queue_remove0(q_pre, x, y);
                                assert(false);
                            } else {
                                assert(l_pre.marked(x, y) || !l_pre.matches_ref(x, y));
                            }
                        }
                        assert(fill_core(l2, base, queue@, pending@));
                        // every marked cell except the popped one keeps its
                        // frontier coverage
                        assert forall|mx: int, my: int, nx2: int, ny2: int|
                            #![trigger l2.marked(mx, my), adjacent((mx, my), (nx2, ny2))]
                            l2.marked(mx, my) && !(mx == cx as int && my == cy as int) && adjacent(
                                (mx, my),
                                (nx2, ny2),
                            ) && l2.in_range(nx2, ny2) implies covered(
                            l2,
                            queue@,
                            nx2,
                            ny2,
                        ) by {
                            assert(l_pre.marked(mx, my));
                            assert(covered(l_pre, q_pre, nx2, ny2));
                            if !l_pre.marked(nx2, ny2) && l_pre.matches_ref(nx2, ny2) {
                                if nx2 == cx as int && ny2 == cy as int {
                                    assert(l2.marked(nx2, ny2));
                                } else {
                                    lemma_in_queue_remove0(q_pre, nx2, ny2);
                                }
                            }
                        }
                        assert(frontier_except(l2, queue@, cx as int, cy as int));
                    }
                    let ghost cg = (cx as int, cy as int);
                    self.fill_push(&mut queue, &mut pending, cx, cy + 1, Ghost(base), Ghost(cg));
                    if cx > 0 {
                        self.fill_push(
                            &mut queue,
                            &mut pending,
                            cx - 1,
                            cy,
                            Ghost(base),
                            Ghost(cg),
                        );
                    }
                    if cy > 0 {
                        self.fill_push(
                            &mut queue,
                            &mut pending,
                            cx,
                            cy - 1,
                            Ghost(base),
                            Ghost(cg),
                        );
                    }
                    self.fill_push(&mut queue, &mut pending, cx + 1, cy, Ghost(base), Ghost(cg));
                    proof {
                        // the popped cell's own neighbors are now covered too
                        assert forall|mx: int, my: int, nx2: int, ny2: int|
                            #![trigger self.marked(mx, my), adjacent((mx, my), (nx2, ny2))]
                            self.marked(mx, my) && adjacent((mx, my), (nx2, ny2)) && self.in_range(
                                nx2,
                                ny2,
                            ) implies covered(*self, queue@, nx2, ny2) by {
                            if mx == cx as int && my == cy as int {
                                assert((nx2 == cx as int && ny2 == cy as int + 1) || (nx2
                                    == cx as int - 1 && ny2 == cy as int) || (nx2 == cx as int && ny2
                                    == cy as int - 1) || (nx2 == cx as int + 1 && ny2
                                    == cy as int));
                            }
                        }
                        assert(frontier_except(*self, queue@, -1, -1));
                    }
                }
            }
            if !did_mark {
                proof {
                    let l2 = *self;
                    assert(l2 == l_pre);
                    // the popped cell is already marked or does not match
                    assert(l2.marked(cx as int, cy as int) || !l2.matches_ref(cx as int, cy as int));
                    assert forall|i: int| #![trigger queue@[i]] 0 <= i < queue@.len() implies {
                        &&& l2.in_range(queue@[i].0 as int, queue@[i].1 as int)
                        &&& pending@[grid_index(
                            queue@[i].0 as int,
                            queue@[i].1 as int,
                            w as int,
                        )]
                        &&& (queue@[i] == l2.zero_point || exists|mx: int, my: int|
                            l2.marked(mx, my) && adjacent(
                                (mx, my),
                                (queue@[i].0 as int, queue@[i].1 as int),
                            ))
                    } by {
                        assert(queue@[i] == q_pre[i + 1]);
                    }
                    assert forall|i: int, j: int|
                        #![trigger queue@[i], queue@[j]]
                        0 <= i < j < queue@.len() implies queue@[i] != queue@[j] by {
                        assert(queue@[i] == q_pre[i + 1] && queue@[j] == q_pre[j + 1]);
                    }
                    if l2.in_range(l2.zero_point.0 as int, l2.zero_point.1 as int)
                        && l2.matches_ref(l2.zero_point.0 as int, l2.zero_point.1 as int) && !l2.marked(
                        l2.zero_point.0 as int,
                        l2.zero_point.1 as int,
                    ) {
                        assert(!(c == l2.zero_point));
                        lemma_in_queue_remove0(
                            q_pre,
                            l2.zero_point.0 as int,
                            l2.zero_point.1 as int,
                        );
                    }
                    assert forall|x: int, y: int|
                        l2.in_range(x, y) && pending@[#[trigger] grid_index(x, y, w as int)]
                            && !in_queue(queue@, x, y) implies l2.marked(x, y) || !l2.matches_ref(
                        x,
                        y,
                    ) by {
                        lemma_grid_index_in_bounds(x, y, w as int, l2.img.height as int);
                        if x == cx as int && y == cy as int {
                        } else if in_queue(q_pre, x, y) {
                            lemma_in_queue_remove0(q_pre, x, y);
                            assert(false);
                        }
                    }
                    assert(fill_core(l2, base, queue@, pending@));
                    assert forall|mx: int, my: int, nx2: int, ny2: int|
                        #![trigger l2.marked(mx, my), adjacent((mx, my), (nx2, ny2))]
                        l2.marked(mx, my) && adjacent((mx, my), (nx2, ny2)) && l2.in_range(
                            nx2,
                            ny2,
                        ) implies covered(l2, queue@, nx2, ny2) by {
                        assert(covered(l_pre, q_pre, nx2, ny2));
                        if !l_pre.marked(nx2, ny2) && l_pre.matches_ref(nx2, ny2) {
                            if nx2 == cx as int && ny2 == cy as int {
                            } else {
                                lemma_in_queue_remove0(q_pre, nx2, ny2);
                            }
                        }
                    }
                    assert(frontier_except(l2, queue@, -1, -1));
                }
            }
        }
        proof {
            // the queue is empty: the frame is closed under expansion
            assert(queue@.len() == 0);
            assert forall|mx: int, my: int, nx: int, ny: int|
                #![trigger self.marked(mx, my), self.marked(nx, ny)]
                self.marked(mx, my) && adjacent((mx, my), (nx, ny)) && self.in_range(nx, ny)
                    && self.matches_ref(nx, ny) implies self.marked(nx, ny) by {
                assert(covered(*self, queue@, nx, ny));
            }
            assert(self.frame_closed());
            assert forall|x: int, y: int|
                #![trigger self.label_at(x, y)]
                self.img.in_bounds(x, y) implies self.label_at(x, y) == (if self.reachable(x, y) {
                Some(Flag::Flame)
            } else {
                None::<Flag>
            }) by {
                if self.reachable(x, y) {
                    let p = choose|p: Seq<(int, int)>| self.fill_path(p) && p.last() == (x, y);
                    assert(self.in_range(p[0].0, p[0].1) && self.matches_ref(p[0].0, p[0].1));
                    assert(self.marked(self.zero_point.0 as int, self.zero_point.1 as int));
                    lemma_path_marked(*self, p);
                    assert(p.last() == (x, y));
                } else {
                    if self.label_at(x, y) is Some {
                        assert(self.reachable(x, y));
                    }
                }
            }
        }
        Ok(())
    }
}

} // verus!
