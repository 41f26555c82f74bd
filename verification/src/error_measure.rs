use vstd::prelude::*;

use crate::cell::{Cell, GridPoint};
use crate::keyed::{CellIndex, CellSet, PointSet};

verus! {

/// How the error of a rendered cell is measured.
#[derive(Debug, Clone, Copy, PartialEq, Eq, Structural)]
pub enum ErrorMeasurementMethod {
    /// Measures geodesic distance from cell centroid to nearest ground truth point.
    Geodesic,
    /// measures distance in terms of horizontal cell distance + vertical cell distance (i.e. an adjacent cell would have distance 1, while a diagonally adjacent cell would have distance 2)
    CellTaxicab,
}

/// How a vessel's movement is drawn onto the grid.
#[derive(Debug, Clone, Copy, PartialEq, Eq, Structural)]
pub enum RenderingModel {
    /// Model ship movement as a linestring
    Linestring,
    /// Model ship movement as a moving polygon (i.e. linestring with width)
    TwoDimensional { a: u16, b: u16, c: u16, d: u16 },
}

/// Settings for measuring how far rendered cells lie from a vessel's reported positions.
#[derive(Debug, Clone, Copy, PartialEq, Eq, Structural)]
pub struct ErrorMeasurementConf {
    method: ErrorMeasurementMethod,
    zoom: u8,
    sampling: Option<u8>,
}

/// Horizontal plus vertical cell distance.
pub open spec fn taxicab(a: GridPoint, b: GridPoint) -> int {
    let dx = a.x - b.x;
    let dy = a.y - b.y;
    (if dx < 0 { -dx } else { dx }) + (if dy < 0 { -dy } else { dy })
}

/// The taxicab distance from `p` to the nearest of `gt`, or 0 when `gt` is empty.
pub open spec fn nearest_taxicab(gt: Seq<GridPoint>, p: GridPoint) -> int
    decreases gt.len(),
{
    if gt.len() == 0 {
        0
    } else if gt.len() == 1 {
        taxicab(gt[0], p)
    } else {
        let rest = nearest_taxicab(gt.drop_last(), p);
        let last = taxicab(gt.last(), p);
        if last < rest {
            last
        } else {
            rest
        }
    }
}

/// Every distance from `p` to a point of `gt` fits in an `i32`.
pub open spec fn taxicab_fits(gt: Seq<GridPoint>, p: GridPoint) -> bool {
    forall|i: int| 0 <= i < gt.len() ==> #[trigger] taxicab(gt[i], p) <= i32::MAX
}

/// The cell of the ground truth position `p` at zoom `zoom`.
pub open spec fn gt_cell(p: GridPoint, zoom: u8) -> Cell {
    Cell { coord: p, z: zoom as u32 }
}

/// The taxicab distance from `p` to the nearer of the end points `f` and `s`.
pub open spec fn nearest_end(f: GridPoint, s: GridPoint, p: GridPoint) -> int {
    if taxicab(s, p) < taxicab(f, p) {
        taxicab(s, p)
    } else {
        taxicab(f, p)
    }
}

/// The set of cells holding the ground truth positions.
pub open spec fn ground_truth_set(gt: Seq<GridPoint>, zoom: u8) -> Set<Cell> {
    Set::new(|c: Cell| exists|i: int| 0 <= i < gt.len() && c == #[trigger] gt_cell(gt[i], zoom))
}

/// The cells of `cells` that lie on one of the two end points.
pub open spec fn at_endpoints(cells: Seq<Cell>, f: GridPoint, s: GridPoint) -> Seq<Cell> {
    cells.filter(|c: Cell| c.coord == f || c.coord == s)
}

pub fn taxicab_distance(a: GridPoint, b: GridPoint) -> (d: i32)
    requires
        taxicab(a, b) <= i32::MAX,
    ensures
        d == taxicab(a, b),
{
    let dx = a.x as i64 - b.x as i64;
    let dy = a.y as i64 - b.y as i64;
    let ax: i64 = if dx < 0 { -dx } else { dx };
    let ay: i64 = if dy < 0 { -dy } else { dy };
    (ax + ay) as i32
}

proof fn lemma_nearest_bounds(gt: Seq<GridPoint>, p: GridPoint)
    ensures
        nearest_taxicab(gt, p) >= 0,
        gt.len() > 0 ==> exists|i: int| 0 <= i < gt.len() && nearest_taxicab(gt, p) == #[trigger] taxicab(gt[i], p),
        forall|i: int| 0 <= i < gt.len() ==> nearest_taxicab(gt, p) <= #[trigger] taxicab(gt[i], p),
    decreases gt.len(),
{
    if gt.len() > 1 {
        let d = gt.drop_last();
        lemma_nearest_bounds(d, p);
        assert forall|i: int| 0 <= i < gt.len() implies nearest_taxicab(gt, p) <= #[trigger] taxicab(gt[i], p) by {
            if i < gt.len() - 1 {
                assert(d[i] == gt[i]);
                assert(nearest_taxicab(d, p) <= taxicab(d[i], p));
            }
        }
        if taxicab(gt.last(), p) >= nearest_taxicab(d, p) {
            let i = choose|i: int| 0 <= i < d.len() && nearest_taxicab(d, p) == #[trigger] taxicab(d[i], p);
            assert(d[i] == gt[i]);
        } else {
            assert(nearest_taxicab(gt, p) == taxicab(gt[gt.len() - 1], p));
        }
    } else if gt.len() == 1 {
        assert(nearest_taxicab(gt, p) == taxicab(gt[0], p));
    }
}

/// Taxicab distance from `p` to the nearest of `gt`, or 0 when `gt` is empty.
fn nearest_point_taxicab(gt: &Vec<GridPoint>, p: GridPoint) -> (d: i32)
    requires
        taxicab_fits(gt@, p),
    ensures
        d == nearest_taxicab(gt@, p),
{
    if gt.len() == 0 {
        return 0;
    }
    let mut best = taxicab_distance(gt[0], p);
    let mut i: usize = 1;
    proof {
        assert(gt@.take(1).drop_last() =~= Seq::<GridPoint>::empty());
        assert(nearest_taxicab(gt@.take(1), p) == taxicab(gt@[0], p));
    }
    while i < gt.len()
        invariant
            1 <= i <= gt@.len(),
            taxicab_fits(gt@, p),
            best == nearest_taxicab(gt@.take(i as int), p),
        decreases gt@.len() - i,
    {
        let d = taxicab_distance(gt[i], p);
        proof {
            assert(gt@.take(i + 1).drop_last() =~= gt@.take(i as int));
            assert(gt@.take(i + 1).last() == gt@[i as int]);
        }
        if d < best {
            best = d;
        }
        i = i + 1;
    }
    proof {
        assert(gt@.take(gt@.len() as int) =~= gt@);
    }
    best
}

/// The cells of `v` as a hash set.
fn cell_set_of(v: &Vec<Cell>) -> (s: CellSet)
    ensures
        s.view() == v@.to_set(),
{
    let mut s = CellSet::new();
    let mut i: usize = 0;
    while i < v.len()
        invariant
            0 <= i <= v@.len(),
            s.view() == v@.take(i as int).to_set(),
        decreases v@.len() - i,
    {
        s.insert(v[i]);
        proof {
            assert(v@.take(i + 1) =~= v@.take(i as int).push(v@[i as int]));
            v@.take(i as int).lemma_push_to_set_commute(v@[i as int]);
        }
        i = i + 1;
    }
    proof {
        assert(v@.take(v@.len() as int) =~= v@);
    }
    s
}

/// The grid points of `v` as a hash set.
fn point_set_of(v: &Vec<GridPoint>) -> (s: PointSet)
    ensures
        s.view() == v@.to_set(),
{
    let mut s = PointSet::new();
    let mut i: usize = 0;
    while i < v.len()
        invariant
            0 <= i <= v@.len(),
            s.view() == v@.take(i as int).to_set(),
        decreases v@.len() - i,
    {
        s.insert(v[i]);
        proof {
            assert(v@.take(i + 1) =~= v@.take(i as int).push(v@[i as int]));
            v@.take(i as int).lemma_push_to_set_commute(v@[i as int]);
        }
        i = i + 1;
    }
    proof {
        assert(v@.take(v@.len() as int) =~= v@);
    }
    s
}

proof fn lemma_ground_truth_set_step(gt: Seq<GridPoint>, zoom: u8, i: int)
    requires
        0 <= i < gt.len(),
    ensures
        ground_truth_set(gt.take(i + 1), zoom) == ground_truth_set(gt.take(i), zoom).insert(
            gt_cell(gt[i], zoom),
        ),
{
    let a = ground_truth_set(gt.take(i + 1), zoom);
    let b = ground_truth_set(gt.take(i), zoom).insert(gt_cell(gt[i], zoom));
    assert forall|x: Cell| a.contains(x) == b.contains(x) by {
        if a.contains(x) {
            let k = choose|k: int| 0 <= k < i + 1 && x == #[trigger] gt_cell(gt.take(i + 1)[k], zoom);
            if k < i {
                assert(gt.take(i + 1)[k] == gt.take(i)[k]);
            }
        }
        if b.contains(x) && x != gt_cell(gt[i], zoom) {
            let k = choose|k: int| 0 <= k < i && x == #[trigger] gt_cell(gt.take(i)[k], zoom);
            assert(gt.take(i + 1)[k] == gt.take(i)[k]);
        }
        if x == gt_cell(gt[i], zoom) {
            assert(gt.take(i + 1)[i] == gt[i]);
        }
    }
    assert(a =~= b);
}

impl ErrorMeasurementConf {
    pub closed spec fn spec_method(self) -> ErrorMeasurementMethod {
        self.method
    }

    pub closed spec fn spec_zoom(self) -> u8 {
        self.zoom
    }

    pub closed spec fn spec_sampling(self) -> Option<u8> {
        self.sampling
    }

    pub fn new(method: ErrorMeasurementMethod, zoom: u8, sampling: Option<u8>) -> (conf: Self)
        ensures
            conf.spec_method() == method,
            conf.spec_zoom() == zoom,
            conf.spec_sampling() == sampling,
    {
        ErrorMeasurementConf { method, zoom, sampling }
    }

    pub fn method(&self) -> (m: ErrorMeasurementMethod)
        ensures
            m == self.spec_method(),
    {
        self.method
    }

    pub fn zoom(&self) -> (z: u8)
        ensures
            z == self.spec_zoom(),
    {
        self.zoom
    }

    pub fn sampling(&self) -> (s: Option<u8>)
        ensures
            s == self.spec_sampling(),
    {
        self.sampling
    }

    /// The zoom level that lines are sampled at: the sampling level when one is
    /// set, else the zoom level.
    pub open spec fn spec_sampling_zoom(self) -> u8 {
        match self.spec_sampling() {
            Some(s) => s,
            None => self.spec_zoom(),
        }
    }

    /// The zoom level that lines are sampled at: the sampling level when one is
    /// set, else the zoom level.
    pub fn sampling_zoom(&self) -> (z: u8)
        ensures
            z == self.spec_sampling_zoom(),
    {
        match self.sampling {
            Some(s) => s,
            None => self.zoom,
        }
    }

    /// The cells at the configured zoom that hold the ground truth positions,
    /// each once.
    pub fn ground_truth_cells(&self, gt: &Vec<GridPoint>) -> (cells: Vec<Cell>)
        ensures
            cells@.no_duplicates(),
            cells@.to_set() == ground_truth_set(gt@, self.spec_zoom()),
    {
        let mut cells: Vec<Cell> = Vec::new();
        let mut seen = CellSet::new();
        let mut i: usize = 0;
        while i < gt.len()
            invariant
                0 <= i <= gt@.len(),
                cells@.no_duplicates(),
                seen.view() == cells@.to_set(),
                cells@.to_set() == ground_truth_set(gt@.take(i as int), self.zoom),
            decreases gt@.len() - i,
        {
            let c = Cell { coord: gt[i], z: self.zoom as u32 };
            proof {
                assert(c == gt_cell(gt@[i as int], self.zoom));
            }
            let ghost before = cells@;
            if !seen.contains(c) {
                proof {
                    assert(!before.contains(c)) by {
                        if before.contains(c) {
                            assert(before.to_set().contains(c));
                        }
                    }
                }
                cells.push(c);
                seen.insert(c);
                proof {
                    before.lemma_push_to_set_commute(c);
                }
            } else {
                assert(before.to_set().insert(c) =~= before.to_set());
            }
            proof {
                lemma_ground_truth_set_step(gt@, self.zoom, i as int);
            }
            i = i + 1;
        }
        proof {
            assert(gt@.take(gt@.len() as int) =~= gt@);
        }
        cells
    }

    /// The rendered cells that hold no ground truth position, each once.
    pub fn cells_off_ground_truth(&self, rendered: &Vec<Cell>, gt: &Vec<GridPoint>) -> (cells: Vec<
        Cell,
    >)
        ensures
            cells@.no_duplicates(),
            cells@.to_set() == rendered@.to_set().difference(
                ground_truth_set(gt@, self.spec_zoom()),
            ),
    {
        let gt_cells = self.ground_truth_cells(gt);
        let gt_set = cell_set_of(&gt_cells);
        let ghost gts = ground_truth_set(gt@, self.zoom);
        let mut cells: Vec<Cell> = Vec::new();
        let mut seen = CellSet::new();
        let mut i: usize = 0;
        while i < rendered.len()
            invariant
                0 <= i <= rendered@.len(),
                gt_set.view() == gts,
                seen.view() == cells@.to_set(),
                cells@.no_duplicates(),
                cells@.to_set() == rendered@.take(i as int).to_set().difference(gts),
            decreases rendered@.len() - i,
        {
            let c = rendered[i];
            let ghost before = cells@;
            proof {
                assert(rendered@.take(i + 1) =~= rendered@.take(i as int).push(c));
                rendered@.take(i as int).lemma_push_to_set_commute(c);
                assert(before.contains(c) == before.to_set().contains(c));
            }
            if !gt_set.contains(c) && !seen.contains(c) {
                cells.push(c);
                seen.insert(c);
                proof {
                    before.lemma_push_to_set_commute(c);
                }
            }
            proof {
                assert(cells@.to_set() =~= rendered@.take(i + 1).to_set().difference(gts));
            }
            i = i + 1;
        }
        proof {
            assert(rendered@.take(rendered@.len() as int) =~= rendered@);
        }
        cells
    }

    /// The cells, in order, that lie on one of the two end points of a line.
    pub fn cells_at_endpoints(&self, ends: (GridPoint, GridPoint), cells: &Vec<Cell>) -> (out: Vec<
        Cell,
    >)
        ensures
            out@ == at_endpoints(cells@, ends.0, ends.1),
    {
        let (f, s) = ends;
        let mut out: Vec<Cell> = Vec::new();
        let mut i: usize = 0;
        while i < cells.len()
            invariant
                0 <= i <= cells@.len(),
                out@ == at_endpoints(cells@.take(i as int), f, s),
            decreases cells@.len() - i,
        {
            let c = cells[i];
            proof {
                reveal(Seq::filter);
                assert(cells@.take(i + 1).drop_last() =~= cells@.take(i as int));
                assert(cells@.take(i + 1).last() == c);
            }
            if c.coord == f || c.coord == s {
                out.push(c);
            }
            i = i + 1;
        }
        proof {
            assert(cells@.take(cells@.len() as int) =~= cells@);
        }
        out
    }

    /// Taxicab distance from a cell to the nearer of the two end points of a line.
    pub fn cell_to_nearest_ground_truth_taxicab(
        &self,
        ends: (GridPoint, GridPoint),
        gp: &Cell,
    ) -> (d: i32)
        requires
            taxicab(ends.0, gp.coord) <= i32::MAX,
            taxicab(ends.1, gp.coord) <= i32::MAX,
        ensures
            d == nearest_end(ends.0, ends.1, gp.coord),
    {
        let (f, s) = ends;
        let gp_to_fc = taxicab_distance(s, gp.coord);
        let gp_to_sc = taxicab_distance(f, gp.coord);
        if gp_to_fc < gp_to_sc {
            gp_to_fc
        } else {
            gp_to_sc
        }
    }

    /// Taxicab distance from a cell to the nearest ground truth position, or 0
    /// when there is none.
    pub fn cell_to_nearest_point_taxicab(&self, gt: &Vec<GridPoint>, gp: &Cell) -> (d: i32)
        requires
            taxicab_fits(gt@, gp.coord),
        ensures
            d == nearest_taxicab(gt@, gp.coord),
    {
        nearest_point_taxicab(gt, gp.coord)
    }

    /// Every cell paired with its taxicab distance to the nearest ground truth position.
    pub fn calculate_error_taxicab(&self, gt: &Vec<GridPoint>, cells: &Vec<Cell>) -> (out: Vec<
        (Cell, i32),
    >)
        requires
            forall|i: int| 0 <= i < cells@.len() ==> taxicab_fits(gt@, #[trigger] cells@[i].coord),
        ensures
            out@.len() == cells@.len(),
            forall|i: int|
                0 <= i < cells@.len() ==> #[trigger] out@[i] == (cells@[i], nearest_taxicab(
                    gt@,
                    cells@[i].coord,
                ) as i32),
    {
        let mut out: Vec<(Cell, i32)> = Vec::new();
        let mut i: usize = 0;
        while i < cells.len()
            invariant
                0 <= i <= cells@.len(),
                forall|j: int| 0 <= j < cells@.len() ==> taxicab_fits(gt@, #[trigger] cells@[j].coord),
                out@.len() == i,
                forall|j: int|
                    0 <= j < i ==> #[trigger] out@[j] == (cells@[j], nearest_taxicab(
                        gt@,
                        cells@[j].coord,
                    ) as i32),
            decreases cells@.len() - i,
        {
            let c = cells[i];
            let d = nearest_point_taxicab(gt, c.coord);
            out.push((c, d));
            i = i + 1;
        }
        out
    }
}

/// The smallest error that `s` gives the cell `c`, if it gives it any.
pub open spec fn min_error(s: Seq<(Cell, u64)>, c: Cell) -> Option<u64>
    decreases s.len(),
{
    if s.len() == 0 {
        None
    } else {
        let r = min_error(s.drop_last(), c);
        let (d, e) = s.last();
        if d != c {
            r
        } else {
            match r {
                None => Some(e),
                Some(m) => Some(if e < m { e } else { m }),
            }
        }
    }
}

/// No cell occurs twice in `s`.
pub open spec fn distinct_cells(s: Seq<(Cell, u64)>) -> bool {
    forall|i: int, j: int| 0 <= i < j < s.len() ==> #[trigger] s[i].0 != #[trigger] s[j].0
}

/// `out` names each cell that `cells` gives an error once, with the least
/// error that `cells` gives it, and names no other cell.
pub open spec fn merges_cells(cells: Seq<(Cell, u64)>, out: Seq<(Cell, u64)>) -> bool {
    &&& distinct_cells(out)
    &&& forall|j: int| 0 <= j < out.len() ==> min_error(cells, #[trigger] out[j].0) == Some(out[j].1)
    &&& forall|c: Cell| min_error(cells, c) is Some ==> exists|j: int| 0 <= j < out.len() && #[trigger] out[j].0 == c
}

/// `m` gives the position in `v` of every cell that `v` names.
spec fn indexes(m: Map<Cell, usize>, v: Seq<(Cell, u64)>) -> bool {
    &&& forall|c: Cell| #[trigger] m.contains_key(c) ==> m[c] < v.len() && v[m[c] as int].0 == c
    &&& forall|j: int| 0 <= j < v.len() ==> m.contains_key(#[trigger] v[j].0)
}

/// Position of the entry for `c` in `v`, if there is one.
fn find_cell(index: &CellIndex, v: &Vec<(Cell, u64)>, c: Cell) -> (r: Option<usize>)
    requires
        indexes(index.view(), v@),
    ensures
        match r {
            Some(k) => k < v@.len() && v@[k as int].0 == c,
            None => forall|j: int| 0 <= j < v@.len() ==> #[trigger] v@[j].0 != c,
        },
{
    index.get(c)
}

proof fn lemma_min_error_some(s: Seq<(Cell, u64)>, q: int)
    requires
        0 <= q < s.len(),
    ensures
        min_error(s, s[q].0) is Some,
    decreases s.len(),
{
    if q < s.len() - 1 {
        lemma_min_error_some(s.drop_last(), q);
        assert(s.drop_last()[q] == s[q]);
    }
}

/// Deduplicates a list of cells with their errors by picking, for each cell,
/// the minimum error value. Errors are given as keys that order like the error
/// values (such as the bits of non-negative floats).
pub fn merge_cells(cells: &Vec<(Cell, u64)>) -> (out: Vec<(Cell, u64)>)
    ensures
        merges_cells(cells@, out@),
        forall|q: int| #![trigger cells@[q]] 0 <= q < cells@.len() ==> exists|j: int| 0 <= j < out@.len() && #[trigger] out@[j].0 == cells@[q].0,
{
    let mut out: Vec<(Cell, u64)> = Vec::new();
    let mut index = CellIndex::new();
    let mut i: usize = 0;
    while i < cells.len()
        invariant
            0 <= i <= cells@.len(),
            indexes(index.view(), out@),
            distinct_cells(out@),
            forall|j: int| 0 <= j < out@.len() ==> min_error(cells@.take(i as int), #[trigger] out@[j].0) == Some(out@[j].1),
            forall|c: Cell| min_error(cells@.take(i as int), c) is Some ==> exists|j: int| 0 <= j < out@.len() && #[trigger] out@[j].0 == c,
        decreases cells@.len() - i,
    {
        let (c, e) = cells[i];
        let ghost before = out@;
        let ghost t = cells@.take(i + 1);
        proof {
            assert(t.drop_last() =~= cells@.take(i as int));
            assert(t.last() == (c, e));
        }
        match find_cell(&index, &out, c) {
            Some(k) => {
                let m = out[k].1;
                let v = if e < m { e } else { m };
                out.set(k, (c, v));
                proof {
                    assert forall|j: int| 0 <= j < out@.len() implies index.view().contains_key(#[trigger] out@[j].0) by {
                        assert(out@[j].0 == before[j].0);
                    }
                    assert forall|x: Cell| #[trigger] index.view().contains_key(x) implies index.view()[x] < out@.len()
                        && out@[index.view()[x] as int].0 == x by {
                        assert(before[index.view()[x] as int].0 == x);
                    }
                    assert forall|j: int| 0 <= j < out@.len() implies min_error(t, #[trigger] out@[j].0) == Some(out@[j].1) by {
                        if j != k {
                            assert(before[j].0 != c);
                        }
                    }
                    assert forall|x: Cell| min_error(t, x) is Some implies exists|j: int| 0 <= j < out@.len() && #[trigger] out@[j].0 == x by {
                        if x == c {
                            assert(out@[k as int].0 == x);
                        } else {
                            assert(min_error(t, x) == min_error(cells@.take(i as int), x));
                            let j = choose|j: int| 0 <= j < before.len() && #[trigger] before[j].0 == x;
                            assert(out@[j].0 == before[j].0);
                        }
                    }
                }
            },
            None => {
                proof {
                    if min_error(cells@.take(i as int), c) is Some {
                        let j = choose|j: int| 0 <= j < before.len() && #[trigger] before[j].0 == c;
                        assert(false);
                    }
                }
                let ghost old_index = index.view();
                index.insert(c, out.len());
                out.push((c, e));
                proof {
                    assert forall|j: int| 0 <= j < out@.len() implies index.view().contains_key(#[trigger] out@[j].0) by {
                        if j < before.len() {
                            assert(out@[j] == before[j]);
                            assert(old_index.contains_key(before[j].0));
                        }
                    }
                    assert forall|x: Cell| #[trigger] index.view().contains_key(x) implies index.view()[x] < out@.len()
                        && out@[index.view()[x] as int].0 == x by {
                        if x != c {
                            assert(old_index.contains_key(x));
                            assert(out@[old_index[x] as int] == before[old_index[x] as int]);
                        }
                    }
                }
                proof {
                    assert forall|j: int| 0 <= j < out@.len() implies min_error(t, #[trigger] out@[j].0) == Some(out@[j].1) by {
                        if j < before.len() {
                            assert(out@[j] == before[j]);
                            assert(before[j].0 != c);
                        }
                    }
                    assert forall|x: Cell| min_error(t, x) is Some implies exists|j: int| 0 <= j < out@.len() && #[trigger] out@[j].0 == x by {
                        if x == c {
                            assert(out@[before.len() as int].0 == x);
                        } else {
                            assert(min_error(t, x) == min_error(cells@.take(i as int), x));
                            let j = choose|j: int| 0 <= j < before.len() && #[trigger] before[j].0 == x;
                            assert(out@[j] == before[j]);
                        }
                    }
                }
            },
        }
        i = i + 1;
    }
    proof {
        assert(cells@.take(cells@.len() as int) =~= cells@);
        assert forall|q: int| #![trigger cells@[q]] 0 <= q < cells@.len() implies exists|j: int| 0 <= j < out@.len() && #[trigger] out@[j].0 == cells@[q].0 by {
            lemma_min_error_some(cells@, q);
        }
    }
    out
}

/// Every rendered cell that is no ground truth cell, each once, paired with its
/// taxicab distance to the nearest ground truth cell (0 when there is none).
pub fn line_error_from_ground_truth(rendered: &Vec<GridPoint>, gt: &Vec<GridPoint>) -> (out: Vec<
    (GridPoint, i32),
>)
    requires
        forall|i: int| 0 <= i < rendered@.len() ==> taxicab_fits(gt@, #[trigger] rendered@[i]),
    ensures
        forall|i: int, j: int| 0 <= i < j < out@.len() ==> #[trigger] out@[i].0 != #[trigger] out@[j].0,
        forall|p: GridPoint|
            (exists|j: int| 0 <= j < out@.len() && #[trigger] out@[j].0 == p) <==> (rendered@.contains(p)
                && !gt@.contains(p)),
        forall|j: int| 0 <= j < out@.len() ==> #[trigger] out@[j].1 == nearest_taxicab(gt@, out@[j].0),
{
    let mut out: Vec<(GridPoint, i32)> = Vec::new();
    let mut seen: Vec<GridPoint> = Vec::new();
    let gt_set = point_set_of(gt);
    let mut seen_set = PointSet::new();
    let mut i: usize = 0;
    while i < rendered.len()
        invariant
            0 <= i <= rendered@.len(),
            gt_set.view() == gt@.to_set(),
            seen_set.view() == seen@.to_set(),
            forall|k: int| 0 <= k < rendered@.len() ==> taxicab_fits(gt@, #[trigger] rendered@[k]),
            seen@.len() == out@.len(),
            forall|j: int| 0 <= j < out@.len() ==> #[trigger] out@[j].0 == seen@[j],
            seen@.no_duplicates(),
            forall|p: GridPoint|
                seen@.contains(p) <==> (rendered@.take(i as int).contains(p) && !gt@.contains(p)),
            forall|j: int| 0 <= j < out@.len() ==> #[trigger] out@[j].1 == nearest_taxicab(gt@, out@[j].0),
        decreases rendered@.len() - i,
    {
        let p = rendered[i];
        let ghost before = seen@;
        proof {
            assert(rendered@.take(i + 1) =~= rendered@.take(i as int).push(p));
        }
        proof {
            assert(gt@.contains(p) == gt@.to_set().contains(p));
            assert(seen@.contains(p) == seen@.to_set().contains(p));
        }
        if !gt_set.contains(p) && !seen_set.contains(p) {
            let d = nearest_point_taxicab(gt, p);
            proof {
                seen@.lemma_push_to_set_commute(p);
            }
            seen.push(p);
            seen_set.insert(p);
            out.push((p, d));
            proof {
                assert forall|q: GridPoint| seen@.contains(q) <==> (rendered@.take(i + 1).contains(q)
                    && !gt@.contains(q)) by {
                    if q == p {
                        assert(seen@[seen@.len() - 1] == p);
                        assert(seen@.contains(p));
                        assert(rendered@.take(i + 1)[i as int] == p);
                        assert(rendered@.take(i + 1).contains(p));
                    } else {
                        if seen@.contains(q) {
                            let k = choose|k: int| 0 <= k < seen@.len() && #[trigger] seen@[k] == q;
                            assert(before[k] == q);
                            assert(before.contains(q));
                            let m = choose|m: int| 0 <= m < i && #[trigger] rendered@.take(i as int)[m] == q;
                            assert(rendered@.take(i + 1)[m] == q);
                        }
                        if rendered@.take(i + 1).contains(q) && !gt@.contains(q) {
                            let k = choose|k: int| 0 <= k < i + 1 && #[trigger] rendered@.take(i + 1)[k] == q;
                            assert(rendered@.take(i as int)[k] == q);
                            assert(rendered@.take(i as int).contains(q));
                            assert(before.contains(q));
                            let m = choose|m: int| 0 <= m < before.len() && #[trigger] before[m] == q;
                            assert(seen@[m] == q);
                        }
                    }
                }
            }
        } else {
            proof {
                assert forall|q: GridPoint| seen@.contains(q) <==> (rendered@.take(i + 1).contains(q)
                    && !gt@.contains(q)) by {
                    if rendered@.take(i + 1).contains(q) && q != p {
                        let k = choose|k: int| 0 <= k < i + 1 && #[trigger] rendered@.take(i + 1)[k] == q;
                        assert(rendered@.take(i as int)[k] == q);
                    }
                    if seen@.contains(q) {
                        assert(rendered@.take(i as int).contains(q));
                        let k = choose|k: int| 0 <= k < i && #[trigger] rendered@.take(i as int)[k] == q;
                        assert(rendered@.take(i + 1)[k] == q);
                    }
                }
            }
        }
        i = i + 1;
    }
    proof {
        assert(rendered@.take(rendered@.len() as int) =~= rendered@);
        assert forall|a: int, b: int| 0 <= a < b < out@.len() implies #[trigger] out@[a].0 != #[trigger] out@[b].0 by {
            assert(seen@[a] != seen@[b]);
        }
        assert forall|q: GridPoint|
            (exists|j: int| 0 <= j < out@.len() && #[trigger] out@[j].0 == q) <==> (rendered@.contains(q)
                && !gt@.contains(q)) by {
            if exists|j: int| 0 <= j < out@.len() && #[trigger] out@[j].0 == q {
                let j = choose|j: int| 0 <= j < out@.len() && #[trigger] out@[j].0 == q;
                assert(seen@[j] == q);
            }
            if seen@.contains(q) {
                let j = choose|j: int| 0 <= j < seen@.len() && #[trigger] seen@[j] == q;
                assert(out@[j].0 == q);
            }
        }
    }
    out
}

/// A cell that holds no ground truth position has a positive taxicab error,
/// as long as there is a ground truth position and the cell is at the zoom level
/// of the ground truth cells.
pub proof fn lemma_off_ground_truth_error_positive(gt: Seq<GridPoint>, zoom: u8, c: Cell)
    requires
        gt.len() > 0,
        c.z == zoom as u32,
        !ground_truth_set(gt, zoom).contains(c),
    ensures
        nearest_taxicab(gt, c.coord) > 0,
{
    lemma_nearest_bounds(gt, c.coord);
    let i = choose|i: int| 0 <= i < gt.len() && nearest_taxicab(gt, c.coord) == #[trigger] taxicab(gt[i], c.coord);
    if nearest_taxicab(gt, c.coord) <= 0 {
        assert(gt[i] == c.coord);
        assert(c == gt_cell(gt[i], zoom));
        assert(ground_truth_set(gt, zoom).contains(c));
    }
}

/// A grid point away from every ground truth point has a positive taxicab
/// distance to the nearest one, as long as there is one.
pub proof fn lemma_off_ground_truth_point_error_positive(gt: Seq<GridPoint>, p: GridPoint)
    requires
        gt.len() > 0,
        !gt.contains(p),
    ensures
        nearest_taxicab(gt, p) > 0,
{
    lemma_nearest_bounds(gt, p);
    let i = choose|i: int| 0 <= i < gt.len() && nearest_taxicab(gt, p) == #[trigger] taxicab(gt[i], p);
    if nearest_taxicab(gt, p) <= 0 {
        assert(gt[i] == p);
    }
}

/// What `min_error` gives, stated without reference to the order of `s`.
proof fn lemma_min_error_char(s: Seq<(Cell, u64)>, c: Cell)
    ensures
        min_error(s, c) is None <==> forall|i: int| 0 <= i < s.len() ==> #[trigger] s[i].0 != c,
        min_error(s, c) is Some ==> s.contains((c, min_error(s, c)->0)),
        min_error(s, c) is Some ==> forall|i: int|
            0 <= i < s.len() && #[trigger] s[i].0 == c ==> min_error(s, c)->0 <= s[i].1,
    decreases s.len(),
{
    if s.len() > 0 {
        let d = s.drop_last();
        lemma_min_error_char(d, c);
        let n = s.len() - 1;
        assert forall|i: int| 0 <= i < n implies #[trigger] s[i] == d[i] by {}
        if min_error(d, c) is Some {
            let k = choose|k: int| 0 <= k < d.len() && d[k] == (c, min_error(d, c)->0);
            assert(s[k] == d[k]);
        }
        if s[n].0 == c {
            assert(s[n] == (c, s[n].1));
        }
        if min_error(s, c) is None {
            assert forall|i: int| 0 <= i < s.len() implies #[trigger] s[i].0 != c by {
                if i < n {
                    assert(d[i].0 != c);
                }
            }
        }
    }
}

/// Two lists that hold the same entries, in any order, give every cell the
/// same least error.
proof fn lemma_min_error_order_free(s: Seq<(Cell, u64)>, t: Seq<(Cell, u64)>, c: Cell)
    requires
        s.to_multiset() == t.to_multiset(),
    ensures
        min_error(s, c) == min_error(t, c),
{
    s.to_multiset_ensures();
    t.to_multiset_ensures();
    lemma_min_error_char(s, c);
    lemma_min_error_char(t, c);
    assert forall|x: (Cell, u64)| s.contains(x) <==> t.contains(x) by {
        assert(s.contains(x) <==> s.to_multiset().count(x) > 0);
        assert(t.contains(x) <==> t.to_multiset().count(x) > 0);
    }
    if min_error(s, c) is None && min_error(t, c) is Some {
        let m = min_error(t, c)->0;
        assert(t.contains((c, m)));
        assert(s.contains((c, m)));
        let i = choose|i: int| 0 <= i < s.len() && s[i] == (c, m);
        assert(s[i].0 != c);
    }
    if min_error(t, c) is None && min_error(s, c) is Some {
        let m = min_error(s, c)->0;
        assert(s.contains((c, m)));
        assert(t.contains((c, m)));
        let i = choose|i: int| 0 <= i < t.len() && t[i] == (c, m);
        assert(t[i].0 != c);
    }
    if min_error(s, c) is Some && min_error(t, c) is Some {
        let a = min_error(s, c)->0;
        let b = min_error(t, c)->0;
        assert(s.contains((c, a)) && t.contains((c, a)));
        assert(s.contains((c, b)) && t.contains((c, b)));
        let i = choose|i: int| 0 <= i < t.len() && t[i] == (c, a);
        assert(t[i].0 == c);
        let k = choose|k: int| 0 <= k < s.len() && s[k] == (c, b);
        assert(s[k].0 == c);
    }
}

/// Two merges of lists that give every cell the same least error hold the same entries.
proof fn lemma_merges_same_errors(s: Seq<(Cell, u64)>, t: Seq<(Cell, u64)>, o: Seq<(Cell, u64)>, p: Seq<(Cell, u64)>)
    requires
        merges_cells(s, o),
        merges_cells(t, p),
        forall|c: Cell| #[trigger] min_error(s, c) == min_error(t, c),
    ensures
        o.to_multiset() == p.to_multiset(),
{
    assert forall|x: (Cell, u64)| o.contains(x) implies p.contains(x) by {
        let j = choose|j: int| 0 <= j < o.len() && o[j] == x;
        assert(min_error(s, o[j].0) == Some(o[j].1));
        assert(min_error(t, x.0) == Some(x.1));
        let k = choose|k: int| 0 <= k < p.len() && #[trigger] p[k].0 == x.0;
        assert(min_error(t, p[k].0) == Some(p[k].1));
        assert(p[k] == x);
    }
    assert forall|x: (Cell, u64)| p.contains(x) implies o.contains(x) by {
        let j = choose|j: int| 0 <= j < p.len() && p[j] == x;
        assert(min_error(t, p[j].0) == Some(p[j].1));
        assert(min_error(s, x.0) == Some(x.1));
        let k = choose|k: int| 0 <= k < o.len() && #[trigger] o[k].0 == x.0;
        assert(min_error(s, o[k].0) == Some(o[k].1));
        assert(o[k] == x);
    }
    assert(o.no_duplicates()) by {
        assert forall|i: int, j: int| 0 <= i < o.len() && 0 <= j < o.len() && i != j implies o[i] != o[j] by {
            if i < j {
                assert(o[i].0 != o[j].0);
            } else {
                assert(o[j].0 != o[i].0);
            }
        }
    }
    assert(p.no_duplicates()) by {
        assert forall|i: int, j: int| 0 <= i < p.len() && 0 <= j < p.len() && i != j implies p[i] != p[j] by {
            if i < j {
                assert(p[i].0 != p[j].0);
            } else {
                assert(p[j].0 != p[i].0);
            }
        }
    }
    o.lemma_multiset_has_no_duplicates();
    p.lemma_multiset_has_no_duplicates();
    o.to_multiset_ensures();
    p.to_multiset_ensures();
    assert forall|x: (Cell, u64)| o.to_multiset().count(x) == p.to_multiset().count(x) by {
        if o.contains(x) {
            assert(o.to_multiset().contains(x));
            assert(p.to_multiset().contains(x));
        }
    }
    assert(o.to_multiset() =~= p.to_multiset());
}

/// Merging cells does not depend on the order of its input: inputs that hold the
/// same entries give merges that hold the same entries.
pub proof fn lemma_merge_cells_order_free(
    xs: Seq<(Cell, u64)>,
    ys: Seq<(Cell, u64)>,
    mx: Seq<(Cell, u64)>,
    my: Seq<(Cell, u64)>,
)
    requires
        ys.to_multiset() == xs.to_multiset(),
        merges_cells(xs, mx),
        merges_cells(ys, my),
    ensures
        mx.to_multiset() == my.to_multiset(),
{
    assert forall|c: Cell| #[trigger] min_error(xs, c) == min_error(ys, c) by {
        lemma_min_error_order_free(xs, ys, c);
    }
    lemma_merges_same_errors(xs, ys, mx, my);
}

/// Merging the result of a merge changes nothing.
pub proof fn lemma_merge_cells_idempotent(xs: Seq<(Cell, u64)>, mx: Seq<(Cell, u64)>, mm: Seq<(Cell, u64)>)
    requires
        merges_cells(xs, mx),
        merges_cells(mx, mm),
    ensures
        mm.to_multiset() == mx.to_multiset(),
{
    assert forall|c: Cell| #[trigger] min_error(mx, c) == min_error(xs, c) by {
        lemma_min_error_char(mx, c);
        lemma_min_error_char(xs, c);
        if min_error(xs, c) is Some {
            let j = choose|j: int| 0 <= j < mx.len() && #[trigger] mx[j].0 == c;
            assert(min_error(xs, mx[j].0) == Some(mx[j].1));
            assert(min_error(mx, c) is Some);
            let m = min_error(mx, c)->0;
            let k = choose|k: int| 0 <= k < mx.len() && mx[k] == (c, m);
            if k != j {
                if k < j {
                    assert(mx[k].0 != mx[j].0);
                } else {
                    assert(mx[j].0 != mx[k].0);
                }
            }
        } else {
            assert forall|i: int| 0 <= i < mx.len() implies #[trigger] mx[i].0 != c by {
                assert(min_error(xs, mx[i].0) == Some(mx[i].1));
            }
        }
    }
    lemma_merges_same_errors(mx, xs, mm, mx);
}

/// The distance from a cell to the nearer end of a line does not depend on
/// which end comes first: it is the smaller of the two distances, and never
/// negative.
pub proof fn lemma_nearest_end_symmetric(f: GridPoint, s: GridPoint, p: GridPoint)
    ensures
        nearest_end(f, s, p) == nearest_end(s, f, p),
        nearest_end(f, s, p) >= 0,
        nearest_end(f, s, p) <= taxicab(f, p),
        nearest_end(f, s, p) <= taxicab(s, p),
        nearest_end(f, s, p) == taxicab(f, p) || nearest_end(f, s, p) == taxicab(s, p),
{
}

/// Sampling at the zoom level itself samples as setting no sampling level does:
/// the two settings hand the renderer the same zoom and sampling zoom.
pub proof fn lemma_sampling_at_zoom_is_default(a: ErrorMeasurementConf, b: ErrorMeasurementConf)
    requires
        a.spec_zoom() == b.spec_zoom(),
        a.spec_sampling() == Some(a.spec_zoom()),
        b.spec_sampling() is None,
    ensures
        a.spec_sampling_zoom() == b.spec_sampling_zoom(),
        a.spec_sampling_zoom() == a.spec_zoom(),
{
}

/// The cells that `cells_off_ground_truth` keeps hold no ground truth position.
pub proof fn lemma_off_ground_truth_holds_no_ground_truth(
    rendered: Seq<Cell>,
    gt: Seq<GridPoint>,
    zoom: u8,
    out: Seq<Cell>,
)
    requires
        out.to_set() == rendered.to_set().difference(ground_truth_set(gt, zoom)),
    ensures
        forall|j: int| 0 <= j < out.len() ==> !#[trigger] ground_truth_set(gt, zoom).contains(out[j]),
        forall|j: int, i: int|
            0 <= j < out.len() && 0 <= i < gt.len() ==> #[trigger] out[j] != #[trigger] gt_cell(gt[i], zoom),
{
    assert forall|j: int| 0 <= j < out.len() implies !#[trigger] ground_truth_set(gt, zoom).contains(out[j]) by {
        assert(out.to_set().contains(out[j]));
    }
    assert forall|j: int, i: int|
        0 <= j < out.len() && 0 <= i < gt.len() implies #[trigger] out[j] != #[trigger] gt_cell(gt[i], zoom) by {
        assert(out.to_set().contains(out[j]));
        assert(ground_truth_set(gt, zoom).contains(gt_cell(gt[i], zoom)));
    }
}

/// The value that the bits of a float stand for in sign-magnitude form: the
/// top bit is the sign, the other bits the magnitude. For floats that are not
/// NaN this orders as the floats do, with `-0.0` and `0.0` both at zero.
pub open spec fn sign_magnitude(bits: u64) -> int {
    if bits >= 0x8000_0000_0000_0000 {
        -(bits - 0x8000_0000_0000_0000)
    } else {
        bits as int
    }
}

/// An unsigned key for sign-magnitude bits: negative values reversed below
/// `2^63`, non-negative ones moved up by `2^63`.
pub open spec fn order_key_spec(bits: u64) -> u64 {
    if bits >= 0x8000_0000_0000_0000 {
        (u64::MAX - bits) as u64
    } else {
        (bits + 0x8000_0000_0000_0000) as u64
    }
}

/// The key by which cell errors are compared and merged, from the bits of an
/// error: keys order as the sign-magnitude values of the bits do.
pub fn error_order_key(bits: u64) -> (k: u64)
    ensures
        k == order_key_spec(bits),
{
    if bits >= 0x8000_0000_0000_0000 {
        u64::MAX - bits
    } else {
        bits + 0x8000_0000_0000_0000
    }
}

/// The bits of an error back from its key.
pub fn error_bits_from_order_key(k: u64) -> (bits: u64)
    ensures
        order_key_spec(bits) == k,
{
    if k >= 0x8000_0000_0000_0000 {
        k - 0x8000_0000_0000_0000
    } else {
        u64::MAX - k
    }
}

/// Keys order as the sign-magnitude values of the bits: a smaller value has a
/// smaller key, and different bits have different keys, so taking the bits
/// back from a key gives the bits the key was made from.
pub proof fn lemma_order_key_preserves_order(a: u64, b: u64)
    ensures
        sign_magnitude(a) < sign_magnitude(b) ==> order_key_spec(a) < order_key_spec(b),
        order_key_spec(a) < order_key_spec(b) ==> sign_magnitude(a) <= sign_magnitude(b),
        order_key_spec(a) == order_key_spec(b) ==> a == b,
{
}

/// The cells kept at the end points are exactly the input's cells that lie on
/// one of the two end points, each as often as the input holds it: every kept
/// cell lies on an end point, and no cell on an end point is lost.
pub proof fn lemma_at_endpoints_keeps_end_cells(cells: Seq<Cell>, f: GridPoint, s: GridPoint)
    ensures
        forall|j: int|
            0 <= j < at_endpoints(cells, f, s).len() ==> #[trigger] at_endpoints(cells, f, s)[j].coord == f
                || at_endpoints(cells, f, s)[j].coord == s,
        forall|x: Cell|
            #[trigger] at_endpoints(cells, f, s).to_multiset().count(x) == (if x.coord == f || x.coord == s {
                cells.to_multiset().count(x)
            } else {
                0
            }),
        forall|i: int|
            0 <= i < cells.len() && (cells[i].coord == f || cells[i].coord == s) ==> at_endpoints(
                cells,
                f,
                s,
            ).contains(#[trigger] cells[i]),
    decreases cells.len(),
{
    reveal(Seq::filter);
    let out = at_endpoints(cells, f, s);
    if cells.len() == 0 {
        assert(out =~= Seq::<Cell>::empty());
        out.to_multiset_ensures();
        cells.to_multiset_ensures();
        assert forall|x: Cell| #[trigger] out.to_multiset().count(x) == 0 && cells.to_multiset().count(x) == 0 by {
            assert(!out.contains(x));
            assert(!cells.contains(x));
        }
    } else {
        let d = cells.drop_last();
        let c = cells.last();
        lemma_at_endpoints_keeps_end_cells(d, f, s);
        let r = at_endpoints(d, f, s);
        assert(cells =~= d.push(c));
        d.to_multiset_ensures();
        r.to_multiset_ensures();
        assert(cells.to_multiset() =~= d.to_multiset().insert(c));
        if c.coord == f || c.coord == s {
            assert(out == r.push(c));
            assert(out.to_multiset() =~= r.to_multiset().insert(c));
            assert forall|j: int| 0 <= j < out.len() implies #[trigger] out[j].coord == f || out[j].coord == s by {
                if j < r.len() {
                    assert(out[j] == r[j]);
                }
            }
            assert forall|i: int|
                0 <= i < cells.len() && (cells[i].coord == f || cells[i].coord == s) implies out.contains(
                #[trigger] cells[i]) by {
                if i < d.len() {
                    assert(cells[i] == d[i]);
                    assert(r.contains(d[i]));
                    let k = choose|k: int| 0 <= k < r.len() && r[k] == d[i];
                    assert(out[k] == r[k]);
                } else {
                    assert(out[r.len() as int] == c);
                }
            }
        } else {
            assert(out == r);
            assert forall|i: int|
                0 <= i < cells.len() && (cells[i].coord == f || cells[i].coord == s) implies out.contains(
                #[trigger] cells[i]) by {
                assert(i < d.len());
                assert(cells[i] == d[i]);
                assert(r.contains(d[i]));
            }
        }
    }
}

/// The nearest taxicab distance is the least of the distances to the ground
/// truth positions: no position is nearer, and one is that near.
pub proof fn lemma_nearest_taxicab_is_least(gt: Seq<GridPoint>, p: GridPoint)
    requires
        gt.len() > 0,
    ensures
        forall|i: int| 0 <= i < gt.len() ==> nearest_taxicab(gt, p) <= #[trigger] taxicab(gt[i], p),
        exists|i: int| 0 <= i < gt.len() && nearest_taxicab(gt, p) == #[trigger] taxicab(gt[i], p),
{
    lemma_nearest_bounds(gt, p);
}

/// Taxicab distance is a distance on the grid: it is symmetric, zero exactly
/// between equal points, never longer than a detour, one between side
/// neighbours and two between diagonal neighbours.
pub proof fn lemma_taxicab_is_grid_distance(a: GridPoint, b: GridPoint, c: GridPoint)
    ensures
        taxicab(a, b) == taxicab(b, a),
        taxicab(a, b) >= 0,
        taxicab(a, b) == 0 <==> a == b,
        taxicab(a, b) <= taxicab(a, c) + taxicab(c, b),
        (a.x - b.x == 1 || b.x - a.x == 1) && a.y == b.y ==> taxicab(a, b) == 1,
        (a.y - b.y == 1 || b.y - a.y == 1) && a.x == b.x ==> taxicab(a, b) == 1,
        (a.x - b.x == 1 || b.x - a.x == 1) && (a.y - b.y == 1 || b.y - a.y == 1) ==> taxicab(a, b) == 2,
{
}

/// A cell holds a ground truth position exactly when it is at the zoom level
/// and its grid point is one of the positions.
pub proof fn lemma_ground_truth_set_members(gt: Seq<GridPoint>, zoom: u8, c: Cell)
    ensures
        ground_truth_set(gt, zoom).contains(c) <==> c.z == zoom as u32 && gt.contains(c.coord),
{
    if c.z == zoom as u32 && gt.contains(c.coord) {
        let i = choose|i: int| 0 <= i < gt.len() && gt[i] == c.coord;
        assert(c == gt_cell(gt[i], zoom));
    }
}

/// The error that a list gives a cell is the least error it lists for the
/// cell, and there is none exactly when the cell is not listed.
pub proof fn lemma_min_error_is_least(s: Seq<(Cell, u64)>, c: Cell)
    ensures
        min_error(s, c) is None <==> forall|i: int| 0 <= i < s.len() ==> #[trigger] s[i].0 != c,
        min_error(s, c) is Some ==> s.contains((c, min_error(s, c)->0)),
        min_error(s, c) is Some ==> forall|i: int|
            0 <= i < s.len() && #[trigger] s[i].0 == c ==> min_error(s, c)->0 <= s[i].1,
{
    lemma_min_error_char(s, c);
}

} // verus!
