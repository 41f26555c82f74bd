use vstd::prelude::*;
use vstd::arithmetic::power::pow;

use crate::cell::GridPoint;

verus! {

/// A tile `(x, y, z)` that rendering is restricted to.
#[derive(Copy, Clone, Debug)]
pub struct FilterTile(pub i32, pub i32, pub i32);

/// `v` held to the range of `i32`.
pub open spec fn clamp_i32(v: int) -> int {
    if v < i32::MIN {
        i32::MIN as int
    } else if v > i32::MAX {
        i32::MAX as int
    } else {
        v
    }
}

/// `base` to the power `e` is `|base|` to the power `e`, negated when `base`
/// is negative and `e` is odd.
proof fn lemma_pow_sign(base: int, e: nat)
    ensures
        pow(base, e) == (if base < 0 && e % 2 == 1 {
            -pow(-base, e)
        } else if base < 0 {
            pow(-base, e)
        } else {
            pow(base, e)
        }),
    decreases e,
{
    reveal(pow);
    if e > 0 {
        lemma_pow_sign(base, (e - 1) as nat);
        let p = pow(-base, (e - 1) as nat);
        if base < 0 {
            assert(pow(-base, e) == -base * p);
            if e % 2 == 1 {
                assert(pow(base, (e - 1) as nat) == p);
                assert(base * p == -(-base * p)) by (nonlinear_arith);
            } else {
                assert(pow(base, (e - 1) as nat) == -p);
                assert(base * -p == -base * p) by (nonlinear_arith);
            }
        }
    }
}

/// `base` to the power `exp`, held to the range of `i32`: what std's
/// `i32::saturating_pow` computes.
fn saturating_pow_i32(base: i32, exp: u32) -> (r: i32)
    ensures
        r == clamp_i32(pow(base as int, exp as nat)),
{
    let neg = base < 0 && exp % 2 == 1;
    let m: i64 = if base < 0 { -(base as i64) } else { base as i64 };
    proof {
        lemma_pow_sign(base as int, exp as nat);
        reveal(pow);
    }
    if m <= 1 {
        proof {
            vstd::arithmetic::power::lemma1_pow(exp as nat);
            if exp > 0 {
                vstd::arithmetic::power::lemma0_pow(exp as nat);
            }
        }
        if m == 0 {
            return if exp == 0 { 1 } else { 0 };
        }
        return if neg { -1 } else { 1 };
    }
    let mut acc: i64 = 1;
    let mut i: u32 = 0;
    while i < exp
        invariant
            0 <= i <= exp,
            0 <= m <= 0x8000_0000,
            0 <= acc <= i32::MAX,
            acc == pow(m as int, i as nat),
            pow(base as int, exp as nat) == (if neg {
                -pow(m as int, exp as nat)
            } else {
                pow(m as int, exp as nat)
            }),
        decreases exp - i,
    {
        assert(acc * m <= 0x7fff_ffff * 0x8000_0000) by (nonlinear_arith)
            requires
                0 <= acc <= 0x7fff_ffff,
                0 <= m <= 0x8000_0000,
        ;
        assert(0 <= acc * m) by (nonlinear_arith)
            requires
                0 <= acc,
                0 <= m,
        ;
        let next = acc * m;
        proof {
            reveal(pow);
            assert(pow(m as int, (i + 1) as nat) == m * pow(m as int, i as nat));
            assert(m * acc == acc * m) by (nonlinear_arith);
            assert(pow(m as int, (i + 1) as nat) == next);
        }
        if next > 0x7fff_ffff {
            proof {
                assert(m > 0);
                vstd::arithmetic::power::lemma_pow_increases(m as nat, (i + 1) as nat, exp as nat);
            }
            if neg {
                return i32::MIN;
            } else {
                return i32::MAX;
            }
        }
        acc = next;
        i = i + 1;
    }
    if neg {
        -(acc as i32)
    } else {
        acc as i32
    }
}

/// The saturated power that `min_max_bb` takes of a coordinate.
pub open spec fn sat_pow(base: int, diff: int) -> int {
    clamp_i32(pow(base, (diff as u32) as nat))
}

impl FilterTile {
    /// Bounding box `(x_min, y_min, x_max, y_max)` computed from the tile's
    /// coordinates raised to the power of the zoom difference.
    pub fn min_max_bb(&self, sampling_zoom_level: i32) -> (r: (i32, i32, i32, i32))
        requires
            i32::MIN <= sampling_zoom_level - self.2 <= i32::MAX,
            self.0 < i32::MAX,
            self.1 < i32::MAX,
            sat_pow(self.0 + 1, sampling_zoom_level - self.2) > i32::MIN,
            sat_pow(self.1 + 1, sampling_zoom_level - self.2) > i32::MIN,
        ensures
            ({
                let diff = sampling_zoom_level - self.2;
                &&& r.0 == sat_pow(self.0 as int, diff)
                &&& r.1 == sat_pow(self.1 as int, diff)
                &&& r.2 == sat_pow(self.0 + 1, diff) - 1
                &&& r.3 == sat_pow(self.1 + 1, diff) - 1
            }),
    {
        let z = self.2;
        let diff = sampling_zoom_level - z;
        let x_min = saturating_pow_i32(self.0, diff as u32);
        let y_min = saturating_pow_i32(self.1, diff as u32);
        let x_max = saturating_pow_i32(self.0 + 1, diff as u32) - 1;
        let y_max = saturating_pow_i32(self.1 + 1, diff as u32) - 1;
        (x_min, y_min, x_max, y_max)
    }
}

/// The segment from `a` to `b` has a bounding box that holds `tile`.
pub open spec fn segment_touches(a: GridPoint, b: GridPoint, tile: GridPoint) -> bool {
    &&& (if a.x <= b.x { a.x } else { b.x }) <= tile.x
    &&& (if a.x >= b.x { a.x } else { b.x }) >= tile.x
    &&& (if a.y <= b.y { a.y } else { b.y }) <= tile.y
    &&& (if a.y >= b.y { a.y } else { b.y }) >= tile.y
}

/// Indices `i < k` whose segment from vertex `i` to vertex `i + 1` touches `tile`, in order.
pub open spec fn touching_indices(v: Seq<GridPoint>, tile: GridPoint, k: int) -> Seq<usize>
    decreases k,
{
    if k <= 0 {
        Seq::empty()
    } else {
        let r = touching_indices(v, tile, k - 1);
        if segment_touches(v[k - 1], v[k], tile) {
            r.push((k - 1) as usize)
        } else {
            r
        }
    }
}

/// The tile lies between the two end points of a segment in both directions,
/// bounds included.
spec fn tile_between(a: GridPoint, b: GridPoint, tile: GridPoint) -> bool {
    &&& (a.x <= tile.x <= b.x || b.x <= tile.x <= a.x)
    &&& (a.y <= tile.y <= b.y || b.y <= tile.y <= a.y)
}

proof fn lemma_touching_indices_exact(v: Seq<GridPoint>, tile: GridPoint, k: int)
    requires
        k <= v.len() - 1,
        v.len() <= usize::MAX,
    ensures
        forall|j: int| 0 <= j < touching_indices(v, tile, k).len() ==> #[trigger] touching_indices(v, tile, k)[j] < k,
        forall|j1: int, j2: int|
            0 <= j1 < j2 < touching_indices(v, tile, k).len() ==> #[trigger] touching_indices(v, tile, k)[j1]
                < #[trigger] touching_indices(v, tile, k)[j2],
        forall|i: int|
            0 <= i < k ==> (touching_indices(v, tile, k).contains(i as usize) <==> tile_between(
                #[trigger] v[i],
                v[i + 1],
                tile,
            )),
    decreases k,
{
    if k > 0 {
        lemma_touching_indices_exact(v, tile, k - 1);
        let r = touching_indices(v, tile, k - 1);
        let out = touching_indices(v, tile, k);
        let t = segment_touches(v[k - 1], v[k], tile);
        assert(t == tile_between(v[k - 1], v[k], tile));
        if t {
            assert(out == r.push((k - 1) as usize));
        } else {
            assert(out == r);
        }
        assert forall|i: int| 0 <= i < k implies (out.contains(i as usize) <==> tile_between(
            #[trigger] v[i],
            v[i + 1],
            tile,
        )) by {
            if i < k - 1 {
                if out.contains(i as usize) {
                    let j = choose|j: int| 0 <= j < out.len() && out[j] == i as usize;
                    if j < r.len() {
                        assert(out[j] == r[j]);
                        assert(r.contains(i as usize));
                    } else {
                        assert(out[j] == (k - 1) as usize);
                    }
                }
                if r.contains(i as usize) {
                    let j = choose|j: int| 0 <= j < r.len() && r[j] == i as usize;
                    assert(out[j] == r[j]);
                }
            } else {
                if out.contains(i as usize) {
                    let j = choose|j: int| 0 <= j < out.len() && out[j] == i as usize;
                    if j < r.len() {
                        assert(r[j] < k - 1);
                    }
                }
                if t {
                    assert(out[r.len() as int] == (k - 1) as usize);
                }
            }
        }
    }
}

/// Which segments touch a tile, stated over the vertices: segment `i` (from
/// vertex `i` to vertex `i + 1`) is reported exactly when the tile lies between
/// its end points in both directions, bounds included; the indices come in
/// increasing order, and a segment with an end point on the tile is always
/// reported.
pub proof fn lemma_segments_touching_tile_exact(v: Seq<GridPoint>, tile: GridPoint)
    requires
        v.len() <= usize::MAX,
    ensures
        forall|j: int|
            0 <= j < touching_indices(v, tile, v.len() - 1).len() ==> #[trigger] touching_indices(
                v,
                tile,
                v.len() - 1,
            )[j] < v.len() - 1,
        forall|j1: int, j2: int|
            0 <= j1 < j2 < touching_indices(v, tile, v.len() - 1).len() ==> #[trigger] touching_indices(
                v,
                tile,
                v.len() - 1,
            )[j1] < #[trigger] touching_indices(v, tile, v.len() - 1)[j2],
        forall|i: int|
            0 <= i < v.len() - 1 ==> (touching_indices(v, tile, v.len() - 1).contains(i as usize)
                <==> {
                let a = #[trigger] v[i];
                let b = v[i + 1];
                &&& (a.x <= tile.x <= b.x || b.x <= tile.x <= a.x)
                &&& (a.y <= tile.y <= b.y || b.y <= tile.y <= a.y)
            }),
        forall|i: int|
            0 <= i < v.len() - 1 && (v[i] == tile || v[i + 1] == tile) ==> touching_indices(
                v,
                tile,
                v.len() - 1,
            ).contains(#[trigger] (i as usize)),
{
    lemma_touching_indices_exact(v, tile, v.len() - 1);
    assert forall|i: int|
        0 <= i < v.len() - 1 && (v[i] == tile || v[i + 1] == tile) implies touching_indices(
        v,
        tile,
        v.len() - 1,
    ).contains(#[trigger] (i as usize)) by {
        assert(tile_between(v[i], v[i + 1], tile));
    }
}

/// The indices of the segments of a line (given by its vertices on the grid)
/// whose bounding box holds the tile.
pub fn segments_touching_tile(vertices: &Vec<GridPoint>, tile: GridPoint) -> (out: Vec<usize>)
    ensures
        out@ == touching_indices(vertices@, tile, vertices@.len() - 1),
{
    let mut out: Vec<usize> = Vec::new();
    let n = vertices.len();
    if n < 2 {
        return out;
    }
    let mut i: usize = 0;
    while i + 1 < n
        invariant
            n == vertices@.len(),
            n >= 2,
            0 <= i <= n - 1,
            out@ == touching_indices(vertices@, tile, i as int),
        decreases n - i,
    {
        let a = vertices[i];
        let b = vertices[i + 1];
        let x_min = if a.x <= b.x { a.x } else { b.x };
        let x_max = if a.x >= b.x { a.x } else { b.x };
        let y_min = if a.y <= b.y { a.y } else { b.y };
        let y_max = if a.y >= b.y { a.y } else { b.y };
        if x_min <= tile.x && x_max >= tile.x && y_min <= tile.y && y_max >= tile.y {
            out.push(i);
        }
        i = i + 1;
    }
    out
}

/// Runs of consecutive indices, each given by its first and last index.
pub open spec fn index_chunks(s: Seq<usize>) -> Seq<(usize, usize)>
    decreases s.len(),
{
    if s.len() == 0 {
        Seq::empty()
    } else {
        let r = index_chunks(s.drop_last());
        let x = s.last();
        if s.len() >= 2 && s[s.len() - 2] == x - 1 {
            r.update(r.len() - 1, (r.last().0, x))
        } else {
            r.push((x, x))
        }
    }
}

/// Where the vertex range of a run ending at segment `last` stops:
/// the larger of `last + 1` (saturating) and `length - 1`.
pub open spec fn run_end(last: usize, length: usize) -> usize {
    let next = if last == usize::MAX { usize::MAX } else { (last + 1) as usize };
    if next >= length - 1 {
        next
    } else {
        (length - 1) as usize
    }
}

proof fn lemma_index_chunks_nonempty(s: Seq<usize>)
    requires
        s.len() > 0,
    ensures
        index_chunks(s).len() > 0,
    decreases s.len(),
{
    if s.len() > 1 {
        lemma_index_chunks_nonempty(s.drop_last());
    } else {
        assert(index_chunks(s.drop_last()) =~= Seq::<(usize, usize)>::empty());
    }
}

/// Groups the segment indices into runs of consecutive indices and gives each
/// run as a vertex range `first..end` with `end == run_end(last, length)`.
pub fn index_runs(indexes: &Vec<usize>, length: usize) -> (out: Vec<(usize, usize)>)
    requires
        forall|i: int| 1 <= i < indexes@.len() ==> indexes@[i] >= 1,
        indexes@.len() > 0 ==> length >= 1,
    ensures
        out@.len() == index_chunks(indexes@).len(),
        forall|i: int|
            0 <= i < out@.len() ==> #[trigger] out@[i] == (
                index_chunks(indexes@)[i].0,
                run_end(index_chunks(indexes@)[i].1, length),
            ),
{
    let mut chunks: Vec<(usize, usize)> = Vec::new();
    let n = indexes.len();
    let mut i: usize = 0;
    while i < n
        invariant
            n == indexes@.len(),
            0 <= i <= n,
            forall|j: int| 1 <= j < indexes@.len() ==> indexes@[j] >= 1,
            chunks@ == index_chunks(indexes@.take(i as int)),
        decreases n - i,
    {
        let x = indexes[i];
        proof {
            assert(indexes@.take(i + 1).drop_last() =~= indexes@.take(i as int));
            assert(indexes@.take(i + 1).last() == x);
            if i > 0 {
                lemma_index_chunks_nonempty(indexes@.take(i as int));
                assert(indexes@.take(i + 1)[i - 1] == indexes@[i - 1]);
            }
        }
        if i > 0 && indexes[i - 1] == x - 1 {
            let last = chunks.len() - 1;
            let first = chunks[last].0;
            chunks.set(last, (first, x));
        } else {
            chunks.push((x, x));
        }
        i = i + 1;
    }
    proof {
        assert(indexes@.take(n as int) =~= indexes@);
    }
    let mut out: Vec<(usize, usize)> = Vec::new();
    let m = chunks.len();
    let mut k: usize = 0;
    while k < m
        invariant
            m == chunks@.len(),
            chunks@ == index_chunks(indexes@),
            indexes@.len() > 0 ==> length >= 1,
            0 <= k <= m,
            out@.len() == k,
            forall|j: int|
                0 <= j < k ==> #[trigger] out@[j] == (chunks@[j].0, run_end(chunks@[j].1, length)),
        decreases m - k,
    {
        proof {
            if indexes@.len() == 0 {
                assert(chunks@.len() == 0);
            }
        }
        let (first, last) = chunks[k];
        let next = last.saturating_add(1);
        let end = if next >= length - 1 { next } else { length - 1 };
        out.push((first, end));
        k = k + 1;
    }
    out
}

/// The indices `first, first + 1, ..., last`.
pub open spec fn index_range(first: usize, last: usize) -> Seq<usize> {
    Seq::new((last - first + 1) as nat, |i: int| (first + i) as usize)
}

/// All the indices that the runs stand for, run after run.
pub open spec fn expand_runs(runs: Seq<(usize, usize)>) -> Seq<usize>
    decreases runs.len(),
{
    if runs.len() == 0 {
        Seq::empty()
    } else {
        expand_runs(runs.drop_last()) + index_range(runs.last().0, runs.last().1)
    }
}

proof fn lemma_expand_runs_update_last(runs: Seq<(usize, usize)>, x: usize)
    requires
        runs.len() > 0,
        runs.last().0 <= runs.last().1,
        x == runs.last().1 + 1,
    ensures
        expand_runs(runs.update(runs.len() - 1, (runs.last().0, x))) == expand_runs(runs).push(x),
{
    let u = runs.update(runs.len() - 1, (runs.last().0, x));
    assert(u.drop_last() =~= runs.drop_last());
    assert(index_range(runs.last().0, x) =~= index_range(runs.last().0, runs.last().1).push(x));
    assert(expand_runs(u) =~= expand_runs(runs).push(x));
}

proof fn lemma_expand_runs_push(runs: Seq<(usize, usize)>, x: usize)
    ensures
        expand_runs(runs.push((x, x))) == expand_runs(runs).push(x),
{
    let u = runs.push((x, x));
    assert(u.drop_last() =~= runs);
    assert(index_range(x, x) =~= seq![x]);
    assert(expand_runs(u) =~= expand_runs(runs).push(x));
}

/// Grouping indices into runs loses and adds nothing: expanding the runs gives
/// back the indices in order. Each run goes upward from its first to its last
/// index, the last run ends at the last index, and two neighbouring runs are
/// never consecutive, so no two runs could have been one.
pub proof fn lemma_index_chunks_exact(s: Seq<usize>)
    ensures
        expand_runs(index_chunks(s)) == s,
        forall|j: int| 0 <= j < index_chunks(s).len() ==> #[trigger] index_chunks(s)[j].0 <= index_chunks(s)[j].1,
        forall|j: int|
            0 <= j < index_chunks(s).len() - 1 ==> #[trigger] index_chunks(s)[j + 1].0 != index_chunks(s)[j].1 + 1,
        s.len() > 0 ==> index_chunks(s).len() > 0 && index_chunks(s).last().1 == s.last(),
    decreases s.len(),
{
    if s.len() > 0 {
        let d = s.drop_last();
        let x = s.last();
        lemma_index_chunks_exact(d);
        let rp = index_chunks(d);
        let r = index_chunks(s);
        if s.len() >= 2 && s[s.len() - 2] == x - 1 {
            lemma_index_chunks_nonempty(d);
            assert(d.last() == s[s.len() - 2]);
            lemma_expand_runs_update_last(rp, x);
            assert(s =~= d.push(x));
            assert forall|j: int| 0 <= j < r.len() - 1 implies #[trigger] r[j + 1].0 != r[j].1 + 1 by {
                assert(r[j] == rp[j]);
                assert(r[j + 1].0 == rp[j + 1].0);
            }
            assert forall|j: int| 0 <= j < r.len() implies #[trigger] r[j].0 <= r[j].1 by {
                if j < r.len() - 1 {
                    assert(r[j] == rp[j]);
                }
            }
        } else {
            lemma_expand_runs_push(rp, x);
            assert(s =~= d.push(x));
            if d.len() > 0 {
                assert(d.last() == s[s.len() - 2]);
            }
            assert forall|j: int| 0 <= j < r.len() - 1 implies #[trigger] r[j + 1].0 != r[j].1 + 1 by {
                assert(r[j] == rp[j]);
                if j < rp.len() - 1 {
                    assert(r[j + 1] == rp[j + 1]);
                }
            }
            assert forall|j: int| 0 <= j < r.len() implies #[trigger] r[j].0 <= r[j].1 by {
                if j < rp.len() {
                    assert(r[j] == rp[j]);
                }
            }
        }
    }
}

/// A run's vertex range stops at the later of the vertex after the run's last
/// segment and the line's last vertex.
pub proof fn lemma_run_end_is_later_vertex(last: usize, length: usize)
    requires
        last < usize::MAX,
        length >= 1,
    ensures
        run_end(last, length) >= last + 1,
        run_end(last, length) >= length - 1,
        run_end(last, length) == last + 1 || run_end(last, length) == length - 1,
{
}

} // verus!
