use vstd::prelude::*;

use crate::{GRID_SIZE, GRID_WIDTH};

verus! {

/// The grid after every cell with a count below `min` has been zeroed.
pub open spec fn filtered(data: Seq<u32>, min: u32) -> Seq<u32> {
    Seq::new(data.len(), |i: int| if data[i] < min { 0u32 } else { data[i] })
}

/// Number of cells with a positive count.
pub open spec fn active_count(data: Seq<u32>) -> nat
    decreases data.len(),
{
    if data.len() == 0 {
        0
    } else {
        active_count(data.drop_last()) + if data.last() > 0 { 1nat } else { 0nat }
    }
}

/// Per-cell activation counts over the 128 x 128 retina, row-major.
#[derive(Clone, Debug, PartialEq)]
pub struct Density {
    pub data: [u32; 16384],
}

impl Density {
    /// A grid holding a copy of `vec`, which must have one count per cell.
    pub fn new(vec: &[u32]) -> (r: Self)
        requires
            vec@.len() == GRID_SIZE,
        ensures
            r.data@ == vec@,
    {
        let mut data = [0u32; 16384];
        let mut i: usize = 0;
        while i < GRID_SIZE
            invariant
                i <= GRID_SIZE,
                vec@.len() == GRID_SIZE,
                forall|j: int| 0 <= j < i ==> data@[j] == vec@[j],
            decreases GRID_SIZE - i,
        {
            data[i] = vec[i];
            i = i + 1;
        }
        proof {
            assert(data@ =~= vec@);
        }
        Density { data }
    }

    /// Replaces every count by those of `vec`.
    pub fn set_data(&mut self, vec: &[u32; 16384])
        ensures
            final(self).data@ == vec@,
    {
        self.data = *vec;
    }

    /// The current counts.
    pub fn get_data(&self) -> (r: &[u32; 16384])
        ensures
            r@ == self.data@,
    {
        &self.data
    }

    /// Zeroes every cell whose count is strictly below `min`.
    pub fn filter_points_min(&mut self, min: u32)
        ensures
            final(self).data@ == filtered(old(self).data@, min),
    {
        let mut i: usize = 0;
        while i < GRID_SIZE
            invariant
                i <= GRID_SIZE,
                self.data@.len() == GRID_SIZE,
                forall|j: int|
                    0 <= j < i ==> self.data@[j] == filtered(old(self).data@, min)[j],
                forall|j: int| i <= j < GRID_SIZE ==> self.data@[j] == old(self).data@[j],
            decreases GRID_SIZE - i,
        {
            if self.data[i] < min {
                self.data[i] = 0;
            }
            i = i + 1;
        }
        proof {
            assert(self.data@ =~= filtered(old(self).data@, min));
        }
    }
}

/// The grid coordinates (row, column) of cell `i` in the row-major layout.
pub open spec fn cell_point(i: int) -> (u32, u32) {
    ((i / GRID_WIDTH as int) as u32, (i % GRID_WIDTH as int) as u32)
}

/// The row-major index of the cell at `p`.
pub open spec fn point_cell(p: (u32, u32)) -> int {
    p.0 as int * GRID_WIDTH as int + p.1 as int
}

/// The point cloud of a grid: the coordinates of every cell with a positive count,
/// in increasing cell order.
pub open spec fn cloud(data: Seq<u32>) -> Seq<(u32, u32)>
    decreases data.len(),
{
    if data.len() == 0 {
        Seq::empty()
    } else if data.last() > 0 {
        cloud(data.drop_last()).push(cell_point(data.len() - 1))
    } else {
        cloud(data.drop_last())
    }
}

/// `p` lies on the grid.
pub open spec fn on_grid(p: (u32, u32)) -> bool {
    (p.0 as int) < GRID_WIDTH as int && (p.1 as int) < GRID_WIDTH as int
}

/// `a` and `b` are closer than `window` along both axes.
pub open spec fn within_window(a: (u32, u32), b: (u32, u32), window: u32) -> bool {
    let dr = a.0 as int - b.0 as int;
    let dc = a.1 as int - b.1 as int;
    -(window as int) < dr < window as int && -(window as int) < dc < window as int
}

/// Cell `c` is an active cell of the cloud within `window` of one of the peak cells.
pub open spec fn near_peak(
    data: Seq<u32>,
    points: Seq<(u32, u32)>,
    peaks: Seq<usize>,
    window: u32,
    c: int,
) -> bool {
    exists|j: int, k: int|
        0 <= j < points.len() && 0 <= k < peaks.len() && point_cell(points[j]) == c
            && within_window(points[j], cell_point(peaks[k] as int), window) && data[c] > 0
}

/// The entries of `s` increase strictly.
pub open spec fn strictly_increasing(s: Seq<usize>) -> bool {
    forall|i: int, j: int| 0 <= i < j < s.len() ==> s[i] < s[j]
}

/// Why the kernel density pipeline cannot go on.
#[derive(Clone, Copy, Debug, PartialEq, Eq, Structural)]
pub enum KdeError {
    /// No cell is active: the point cloud has nothing to bound.
    EmptyInput,
    /// The point cloud has no extent along one axis, so the kernel radius would be zero.
    ZeroExtent,
}

/// The integer stages of the kernel density pipeline over a grid: the point cloud,
/// its bounding box and the set of densest cells.
#[derive(Clone, Debug, PartialEq)]
pub struct Kde {
    pub data: [u32; 16384],
    pub points: Vec<(u32, u32)>,
    pub densest_points: Vec<usize>,
    pub x_min: u32,
    pub x_max: u32,
    pub y_min: u32,
    pub y_max: u32,
}

impl Kde {
    /// Every point lies on the grid and the densest cells are listed once each, in order.
    pub open spec fn wf(&self) -> bool {
        &&& forall|j: int| 0 <= j < self.points@.len() ==> on_grid(#[trigger] self.points@[j])
        &&& strictly_increasing(self.densest_points@)
        &&& forall|i: int|
            0 <= i < self.densest_points@.len() ==> (#[trigger] self.densest_points@[i] as int)
                < GRID_SIZE as int
    }

    /// A pipeline over a copy of `vec` with an empty cloud and no densest cells.
    pub fn new(vec: &[u32; 16384]) -> (r: Kde)
        ensures
            r.wf(),
            r.data@ == vec@,
            r.points@.len() == 0,
            r.densest_points@.len() == 0,
            r.x_min == 0 && r.x_max == 0 && r.y_min == 0 && r.y_max == 0,
    {
        Kde {
            data: *vec,
            points: Vec::new(),
            densest_points: Vec::new(),
            x_min: 0,
            x_max: 0,
            y_min: 0,
            y_max: 0,
        }
    }

    /// Forgets the cloud, the bounding box and the densest cells; the counts stay.
    pub fn clear(&mut self)
        ensures
            final(self).wf(),
            final(self).data@ == old(self).data@,
            final(self).points@.len() == 0,
            final(self).densest_points@.len() == 0,
            final(self).x_min == 0 && final(self).x_max == 0,
            final(self).y_min == 0 && final(self).y_max == 0,
    {
        self.points = Vec::new();
        self.densest_points = Vec::new();
        self.x_min = 0;
        self.x_max = 0;
        self.y_min = 0;
        self.y_max = 0;
    }

    /// Appends to the cloud the coordinates of every cell with a positive count, in
    /// increasing cell order.
    pub fn build_points(&mut self)
        requires
            old(self).wf(),
        ensures
            final(self).wf(),
            final(self).data@ == old(self).data@,
            final(self).points@ == old(self).points@ + cloud(old(self).data@),
            final(self).densest_points@ == old(self).densest_points@,
            final(self).x_min == old(self).x_min && final(self).x_max == old(self).x_max,
            final(self).y_min == old(self).y_min && final(self).y_max == old(self).y_max,
    {
        let mut i: usize = 0;
        while i < GRID_SIZE
            invariant
                i <= GRID_SIZE,
                self.wf(),
                self.data@ == old(self).data@,
                self.points@ == old(self).points@ + cloud(self.data@.take(i as int)),
                self.densest_points@ == old(self).densest_points@,
                self.x_min == old(self).x_min && self.x_max == old(self).x_max,
                self.y_min == old(self).y_min && self.y_max == old(self).y_max,
            decreases GRID_SIZE - i,
        {
            assert(self.data@.take(i as int + 1).drop_last() =~= self.data@.take(i as int));
            if self.data[i] > 0 {
                let p: (u32, u32) = ((i / GRID_WIDTH) as u32, (i % GRID_WIDTH) as u32);
                self.points.push(p);
            }
            i = i + 1;
        }
        assert(self.data@.take(GRID_SIZE as int) =~= self.data@);
    }

    /// Records the bounding box of the cloud and returns its smaller side, from which
    /// the kernel radius is derived. Fails on an empty cloud, and on a cloud with no
    /// extent along one axis.
    pub fn determine_kde_params(&mut self) -> (r: Result<u32, KdeError>)
        requires
            old(self).wf(),
        ensures
            final(self).wf(),
            final(self).data@ == old(self).data@,
            final(self).points@ == old(self).points@,
            final(self).densest_points@ == old(self).densest_points@,
            old(self).points@.len() == 0 ==> r == Err::<u32, KdeError>(KdeError::EmptyInput)
                && final(self).x_min == old(self).x_min && final(self).x_max == old(self).x_max
                && final(self).y_min == old(self).y_min && final(self).y_max == old(self).y_max,
            old(self).points@.len() > 0 ==> bounds_of(
                old(self).points@,
                final(self).x_min,
                final(self).x_max,
                final(self).y_min,
                final(self).y_max,
            ) && r == extent_result(
                final(self).x_min,
                final(self).x_max,
                final(self).y_min,
                final(self).y_max,
            ),
    {
        let n = self.points.len();
        if n == 0 {
            return Err(KdeError::EmptyInput);
        }
        let first = self.points[0];
        let mut x_min = first.0;
        let mut x_max = first.0;
        let mut y_min = first.1;
        let mut y_max = first.1;
        let mut j: usize = 1;
        assert(self.points@.take(1)[0] == first);
        while j < n
            invariant
                n == self.points@.len(),
                1 <= j <= n,
                bounds_of(self.points@.take(j as int), x_min, x_max, y_min, y_max),
            decreases n - j,
        {
            let p = self.points[j];
            if p.0 < x_min {
                x_min = p.0;
            }
            if p.0 > x_max {
                x_max = p.0;
            }
            if p.1 < y_min {
                y_min = p.1;
            }
            if p.1 > y_max {
                y_max = p.1;
            }
            proof {
                let prev = self.points@.take(j as int);
                let next = self.points@.take(j as int + 1);
                assert forall|w: int| 0 <= w < prev.len() implies next[w] == prev[w] by {}
                assert(next[j as int] == p);
            }
            j = j + 1;
        }
        assert(self.points@.take(n as int) =~= self.points@);
        self.x_min = x_min;
        self.x_max = x_max;
        self.y_min = y_min;
        self.y_max = y_max;
        let dx = x_max - x_min;
        let dy = y_max - y_min;
        let extent = if dx < dy { dx } else { dy };
        if extent == 0 {
            Err(KdeError::ZeroExtent)
        } else {
            Ok(extent)
        }
    }

    /// Adds to the densest cells every active cell of the cloud that lies within
    /// `window` of one of the `peaks`, given as cell indices of the density surface.
    pub fn determine_densest_points(&mut self, peaks: &[usize], window: u32)
        requires
            old(self).wf(),
            forall|k: int| 0 <= k < peaks@.len() ==> (peaks@[k] as int) < GRID_SIZE as int,
        ensures
            final(self).wf(),
            final(self).data@ == old(self).data@,
            final(self).points@ == old(self).points@,
            final(self).x_min == old(self).x_min && final(self).x_max == old(self).x_max,
            final(self).y_min == old(self).y_min && final(self).y_max == old(self).y_max,
            forall|c: usize|
                #![trigger final(self).densest_points@.contains(c)]
                final(self).densest_points@.contains(c) <==> (old(self).densest_points@.contains(c)
                    || near_peak(old(self).data@, old(self).points@, peaks@, window, c as int)),
    {
        let mut marks = [false; 16384];
        let d = self.densest_points.len();
        let mut i: usize = 0;
        while i < d
            invariant
                self.wf(),
                d == self.densest_points@.len(),
                i <= d,
                forall|c: int|
                    0 <= c < GRID_SIZE ==> (marks@[c] <==> self.densest_points@.take(
                        i as int,
                    ).contains(c as usize)),
            decreases d - i,
        {
            let c = self.densest_points[i];
            marks[c] = true;
            proof {
                let prev = self.densest_points@.take(i as int);
                let next = self.densest_points@.take(i as int + 1);
                assert(next =~= prev.push(c));
                assert forall|e: int| 0 <= e < GRID_SIZE implies (marks@[e]
                    <==> next.contains(e as usize)) by {
                    if prev.contains(e as usize) {
                        let w = choose|w: int| 0 <= w < prev.len() && prev[w] == e as usize;
                        assert(next[w] == prev[w]);
                    }
                    if next.contains(e as usize) && e != c as int {
                        let w = choose|w: int| 0 <= w < next.len() && next[w] == e as usize;
                        assert(w < prev.len());
                        assert(prev[w] == next[w]);
                    }
                    if e == c as int {
                        assert(next[i as int] == c);
                    }
                }
            }
            i = i + 1;
        }
        assert(self.densest_points@.take(d as int) =~= self.densest_points@);
        let n = self.points.len();
        let mut j: usize = 0;
        while j < n
            invariant
                self.wf(),
                n == self.points@.len(),
                j <= n,
                forall|k: int| 0 <= k < peaks@.len() ==> (peaks@[k] as int) < GRID_SIZE as int,
                forall|c: int|
                    0 <= c < GRID_SIZE ==> (marks@[c] <==> (self.densest_points@.contains(
                        c as usize,
                    ) || near_peak(self.data@, self.points@.take(j as int), peaks@, window, c))),
            decreases n - j,
        {
            let p = self.points[j];
            let idx = p.0 as usize * GRID_WIDTH + p.1 as usize;
            let near = near_any_peak(p, peaks, window);
            if near && self.data[idx] > 0 {
                marks[idx] = true;
            }
            proof {
                let prev = self.points@.take(j as int);
                let next = self.points@.take(j as int + 1);
                assert(next[j as int] == p);
                assert(point_cell(p) == idx as int);
                assert forall|c: int| 0 <= c < GRID_SIZE implies (marks@[c] <==> (
                self.densest_points@.contains(c as usize) || near_peak(
                    self.data@,
                    next,
                    peaks@,
                    window,
                    c,
                ))) by {
                    if near_peak(self.data@, prev, peaks@, window, c) {
                        let (w, k) = choose|w: int, k: int|
                            0 <= w < prev.len() && 0 <= k < peaks@.len() && point_cell(prev[w])
                                == c && within_window(prev[w], cell_point(peaks@[k] as int), window)
                                && self.data@[c] > 0;
                        assert(next[w] == prev[w]);
                    }
                    if near_peak(self.data@, next, peaks@, window, c) && !near_peak(
                        self.data@,
                        prev,
                        peaks@,
                        window,
                        c,
                    ) {
                        let (w, k) = choose|w: int, k: int|
                            0 <= w < next.len() && 0 <= k < peaks@.len() && point_cell(next[w])
                                == c && within_window(next[w], cell_point(peaks@[k] as int), window)
                                && self.data@[c] > 0;
                        if w < j {
                            assert(prev[w] == next[w]);
                        }
                        assert(w == j);
                        assert(near);
                    }
                    if c == idx as int && near && self.data@[c] > 0 {
                        let k = choose|k: int|
                            0 <= k < peaks@.len() && within_window(
                                p,
                                cell_point(peaks@[k] as int),
                                window,
                            );
                        assert(near_peak(self.data@, next, peaks@, window, c));
                    }
                }
            }
            j = j + 1;
        }
        assert(self.points@.take(n as int) =~= self.points@);
        let mut out: Vec<usize> = Vec::new();
        let mut c: usize = 0;
        while c < GRID_SIZE
            invariant
                c <= GRID_SIZE,
                strictly_increasing(out@),
                forall|i: int| 0 <= i < out@.len() ==> (#[trigger] out@[i] as int) < c as int,
                forall|e: usize| #[trigger]
                    out@.contains(e) <==> ((e as int) < c as int && marks@[e as int]),
            decreases GRID_SIZE - c,
        {
            if marks[c] {
                proof {
                    assert forall|e: usize| #[trigger] out@.push(c).contains(e) <==> (
                    (e as int) < c as int + 1 && marks@[e as int]) by {
                        if out@.contains(e) {
                            let w = choose|w: int| 0 <= w < out@.len() && out@[w] == e;
                            assert(out@.push(c)[w] == e);
                        }
                        if out@.push(c).contains(e) && e != c {
                            let w = choose|w: int| 0 <= w < out@.len() + 1 && out@.push(c)[w] == e;
                            assert(out@[w] == e);
                        }
                        if e == c {
                            assert(out@.push(c)[out@.len() as int] == c);
                        }
                    }
                }
                out.push(c);
            }
            c = c + 1;
        }
        self.densest_points = out;
    }
}

/// Some peak cell lies within `window` of `p` along both axes.
fn near_any_peak(p: (u32, u32), peaks: &[usize], window: u32) -> (r: bool)
    requires
        forall|k: int| 0 <= k < peaks@.len() ==> (peaks@[k] as int) < GRID_SIZE as int,
    ensures
        r == exists|k: int|
            0 <= k < peaks@.len() && within_window(p, cell_point(peaks@[k] as int), window),
{
    let n = peaks.len();
    let mut k: usize = 0;
    while k < n
        invariant
            n == peaks@.len(),
            k <= n,
            forall|k: int| 0 <= k < peaks@.len() ==> (peaks@[k] as int) < GRID_SIZE as int,
            forall|w: int|
                0 <= w < k ==> !within_window(p, cell_point(#[trigger] peaks@[w] as int), window),
        decreases n - k,
    {
        let peak = peaks[k];
        let row = (peak / GRID_WIDTH) as i64;
        let col = (peak % GRID_WIDTH) as i64;
        let dr = p.0 as i64 - row;
        let dc = p.1 as i64 - col;
        let w = window as i64;
        if -w < dr && dr < w && -w < dc && dc < w {
            assert(within_window(p, cell_point(peaks@[k as int] as int), window));
            return true;
        }
        k = k + 1;
    }
    false
}

/// The bounding box `[x_min, x_max] x [y_min, y_max]` is the tightest one around `points`.
pub open spec fn bounds_of(points: Seq<(u32, u32)>, x_min: u32, x_max: u32, y_min: u32, y_max: u32) -> bool {
    &&& forall|j: int|
        0 <= j < points.len() ==> x_min <= (#[trigger] points[j]).0 <= x_max && y_min <= points[j].1
            <= y_max
    &&& exists|j: int| 0 <= j < points.len() && points[j].0 == x_min
    &&& exists|j: int| 0 <= j < points.len() && points[j].0 == x_max
    &&& exists|j: int| 0 <= j < points.len() && points[j].1 == y_min
    &&& exists|j: int| 0 <= j < points.len() && points[j].1 == y_max
}

/// The smaller side of the bounding box, or the error for a box without extent.
pub open spec fn extent_result(x_min: u32, x_max: u32, y_min: u32, y_max: u32) -> Result<u32, KdeError> {
    let dx = x_max - x_min;
    let dy = y_max - y_min;
    let extent = if dx < dy { dx } else { dy };
    if extent == 0 {
        Err(KdeError::ZeroExtent)
    } else {
        Ok(extent as u32)
    }
}

/// A cloud of one point has a bounding box without extent, so the pipeline stops
/// before it computes any surface.
pub proof fn lemma_single_point_has_no_extent(
    points: Seq<(u32, u32)>,
    x_min: u32,
    x_max: u32,
    y_min: u32,
    y_max: u32,
)
    requires
        points.len() == 1,
        bounds_of(points, x_min, x_max, y_min, y_max),
    ensures
        extent_result(x_min, x_max, y_min, y_max) == Err::<u32, KdeError>(KdeError::ZeroExtent),
{
}

/// Filtering with threshold zero changes nothing: no count is below zero.
pub proof fn lemma_filter_zero(data: Seq<u32>)
    ensures
        filtered(data, 0) == data,
{
    assert(filtered(data, 0) =~= data);
}

/// Filtering again with the same or a lower threshold changes nothing.
pub proof fn lemma_filter_idempotent(data: Seq<u32>, min: u32, again: u32)
    requires
        again <= min,
    ensures
        filtered(filtered(data, min), again) == filtered(data, min),
{
    assert(filtered(filtered(data, min), again) =~= filtered(data, min));
}

/// A cell that survives a higher threshold survives every lower one.
pub proof fn lemma_filter_monotonic_cells(data: Seq<u32>, low: u32, high: u32, i: int)
    requires
        low <= high,
        0 <= i < data.len(),
        filtered(data, high)[i] > 0,
    ensures
        filtered(data, low)[i] > 0,
{
}

/// A higher threshold never leaves more active cells than a lower one.
pub proof fn lemma_filter_monotonic(data: Seq<u32>, low: u32, high: u32)
    requires
        low <= high,
    ensures
        active_count(filtered(data, high)) <= active_count(filtered(data, low)),
    decreases data.len(),
{
    if data.len() > 0 {
        let rest = data.drop_last();
        assert(filtered(data, high).drop_last() =~= filtered(rest, high));
        assert(filtered(data, low).drop_last() =~= filtered(rest, low));
        lemma_filter_monotonic(rest, low, high);
    }
}

} // verus!
