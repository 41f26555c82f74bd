use vstd::prelude::*;
use rayon::slice::ParallelSliceMut;

use crate::cell::{GridPoint, PointWTime};

verus! {

/// The key by which visits are ordered: the cell, then the start, then the end.
pub open spec fn visit_key_spec(p: PointWTime) -> (i32, i32, i128, i128) {
    (p.point.x, p.point.y, p.time_start, p.time_end)
}

/// Lexicographic order on visit keys.
pub open spec fn key_le(a: PointWTime, b: PointWTime) -> bool {
    ||| a.point.x < b.point.x
    ||| a.point.x == b.point.x && a.point.y < b.point.y
    ||| a.point.x == b.point.x && a.point.y == b.point.y && a.time_start < b.time_start
    ||| a.point.x == b.point.x && a.point.y == b.point.y && a.time_start == b.time_start
        && a.time_end <= b.time_end
}

/// The visits of `s` whose key is `k`, in the order of `s`.
pub open spec fn with_key(s: Seq<PointWTime>, k: (i32, i32, i128, i128)) -> Seq<PointWTime> {
    s.filter(|p: PointWTime| visit_key_spec(p) == k)
}

pub open spec fn sorted_by_key(s: Seq<PointWTime>) -> bool {
    forall|i: int, j: int| 0 <= i < j < s.len() ==> key_le(#[trigger] s[i], #[trigger] s[j])
}

/// Two consecutive visits are one stay when they are in the same cell and the
/// first one has not ended before the second one starts.
pub open spec fn joinable(a: PointWTime, b: PointWTime) -> bool {
    a.point == b.point && a.time_end >= b.time_start
}

/// Consecutive runs of joinable visits, each run replaced by its first visit
/// ending when the run's last visit ends.
pub open spec fn merged(s: Seq<PointWTime>) -> Seq<PointWTime>
    decreases s.len(),
{
    if s.len() == 0 {
        Seq::empty()
    } else {
        let r = merged(s.drop_last());
        let x = s.last();
        if s.len() >= 2 && joinable(s[s.len() - 2], x) {
            r.update(r.len() - 1, PointWTime { time_end: x.time_end, ..r.last() })
        } else {
            r.push(x)
        }
    }
}

pub fn visit_key(p: &PointWTime) -> (k: (i32, i32, i128, i128))
    ensures
        k == visit_key_spec(*p),
{
    (p.point.x, p.point.y, p.time_start, p.time_end)
}

pub fn joinable_visits(a: &PointWTime, b: &PointWTime) -> (r: bool)
    ensures
        r == joinable(*a, *b),
{
    a.point == b.point && a.time_end >= b.time_start
}

/// Sorts with rayon's `par_sort_by_key` on `visit_key`. Its documentation promises
/// a stable sort by the key (tuples order lexicographically) that keeps the
/// elements: visits with equal keys keep their order.
#[verifier::external_body]
fn sort_visits(v: &mut Vec<PointWTime>)
    ensures
        final(v)@.to_multiset() == old(v)@.to_multiset(),
        sorted_by_key(final(v)@),
        forall|k: (i32, i32, i128, i128)| #[trigger] with_key(final(v)@, k) == with_key(old(v)@, k),
{
    v.par_sort_by_key(|p| visit_key(p));
}

proof fn lemma_merged_last(s: Seq<PointWTime>)
    requires
        s.len() > 0,
    ensures
        merged(s).len() > 0,
        merged(s).len() <= s.len(),
        merged(s).last().point == s.last().point,
        merged(s).last().time_end == s.last().time_end,
    decreases s.len(),
{
    if s.len() > 1 {
        lemma_merged_last(s.drop_last());
    } else {
        assert(merged(s.drop_last()) =~= Seq::<PointWTime>::empty());
    }
}

/// Merges consecutive joinable visits of a sequence: each run of visits in which
/// every visit is joinable with the next becomes its first visit, ending when
/// the run's last visit ends.
pub fn merge_sorted_visits(points: &Vec<PointWTime>) -> (out: Vec<PointWTime>)
    ensures
        out@ == merged(points@),
{
    let mut out: Vec<PointWTime> = Vec::new();
    let n = points.len();
    let mut i: usize = 0;
    while i < n
        invariant
            n == points@.len(),
            0 <= i <= n,
            out@ == merged(points@.take(i as int)),
        decreases n - i,
    {
        let p = points[i];
        proof {
            assert(points@.take(i + 1).drop_last() =~= points@.take(i as int));
            assert(points@.take(i + 1).last() == p);
            if i > 0 {
                lemma_merged_last(points@.take(i as int));
                assert(points@.take(i + 1)[i - 1] == points@[i - 1]);
            }
        }
        if i > 0 && joinable_visits(&points[i - 1], &p) {
            let last = out.len() - 1;
            let q = PointWTime { time_end: p.time_end, ..out[last] };
            out.set(last, q);
        } else {
            out.push(p);
        }
        i = i + 1;
    }
    proof {
        assert(points@.take(n as int) =~= points@);
    }
    out
}

/// `s` is `t` sorted by visit key, visits with equal keys in the order of `t`.
pub open spec fn stably_sorted(s: Seq<PointWTime>, t: Seq<PointWTime>) -> bool {
    &&& sorted_by_key(s)
    &&& s.to_multiset() == t.to_multiset()
    &&& forall|k: (i32, i32, i128, i128)| #[trigger] with_key(s, k) == with_key(t, k)
}

/// Sorts visits stably by cell and time, then merges each run of consecutive
/// joinable visits into one visit.
pub fn merge_visits(points: Vec<PointWTime>) -> (out: Vec<PointWTime>)
    ensures
        exists|s: Seq<PointWTime>| #![trigger merged(s)] stably_sorted(s, points@) && out@ == merged(s),
{
    let mut points = points;
    let ghost before = points@;
    sort_visits(&mut points);
    let out = merge_sorted_visits(&points);
    assert(stably_sorted(points@, before) && out@ == merged(points@));
    out
}

/// No two neighbouring visits of `s` could be merged into one stay.
pub open spec fn fully_merged(s: Seq<PointWTime>) -> bool {
    forall|i: int| 0 <= i < s.len() - 1 ==> !#[trigger] joinable(s[i], s[i + 1])
}

/// After merging, no two neighbouring visits are joinable any more.
#[verifier::spinoff_prover]
pub proof fn lemma_merged_is_fully_merged(s: Seq<PointWTime>)
    ensures
        fully_merged(merged(s)),
    decreases s.len(),
{
    if s.len() > 0 {
        let d = s.drop_last();
        lemma_merged_is_fully_merged(d);
        let r = merged(d);
        let out = merged(s);
        if s.len() >= 2 {
            lemma_merged_last(d);
            assert(d.last() == s[s.len() - 2]);
        }
        assert forall|i: int| 0 <= i < out.len() - 1 implies !#[trigger] joinable(out[i], out[i + 1]) by {
            if i < r.len() - 1 {
                assert(!joinable(r[i], r[i + 1]));
            }
        }
    }
}

/// Merging leaves a sequence in which no neighbours are joinable unchanged.
#[verifier::spinoff_prover]
pub proof fn lemma_merged_fixes_fully_merged(s: Seq<PointWTime>)
    requires
        fully_merged(s),
    ensures
        merged(s) == s,
    decreases s.len(),
{
    if s.len() > 0 {
        let d = s.drop_last();
        assert forall|i: int| 0 <= i < d.len() - 1 implies !#[trigger] joinable(d[i], d[i + 1]) by {
            assert(!joinable(s[i], s[i + 1]));
        }
        lemma_merged_fixes_fully_merged(d);
        if s.len() >= 2 {
            let k = s.len() - 2;
            assert(!joinable(s[k], s[k + 1]));
        }
        assert(merged(s) =~= s);
    }
}

/// Every cell of `s` is still visited in `m`.
pub open spec fn keeps_every_cell(s: Seq<PointWTime>, m: Seq<PointWTime>) -> bool {
    forall|i: int|
        #![trigger s[i]]
        0 <= i < s.len() ==> exists|j: int| 0 <= j < m.len() && #[trigger] m[j].point == #[trigger] s[i].point
}

/// Every visit of `m` starts as a visit of `s` to the same cell at the same zoom starts.
pub open spec fn starts_from(s: Seq<PointWTime>, m: Seq<PointWTime>) -> bool {
    forall|j: int|
        #![trigger m[j]]
        0 <= j < m.len() ==> exists|i: int|
            0 <= i < s.len() && #[trigger] s[i].point == #[trigger] m[j].point && s[i].z == m[j].z
                && s[i].time_start == m[j].time_start
}

/// Every visit of `m` ends as a visit of `s` to the same cell ends.
pub open spec fn ends_from(s: Seq<PointWTime>, m: Seq<PointWTime>) -> bool {
    forall|j: int|
        #![trigger m[j]]
        0 <= j < m.len() ==> exists|k: int|
            0 <= k < s.len() && #[trigger] s[k].point == #[trigger] m[j].point && s[k].time_end
                == m[j].time_end
}

/// How one more visit changes the merged sequence.
proof fn lemma_merged_step(s: Seq<PointWTime>)
    requires
        s.len() > 0,
    ensures
        ({
            let r = merged(s.drop_last());
            let out = merged(s);
            let joined = s.len() >= 2 && joinable(s[s.len() - 2], s.last());
            &&& joined ==> out.len() == r.len() && r.len() > 0
            &&& !joined ==> out.len() == r.len() + 1 && out.last() == s.last()
            &&& forall|j: int|
                0 <= j < r.len() ==> #[trigger] out[j].point == r[j].point && out[j].z == r[j].z
                    && out[j].time_start == r[j].time_start
            &&& forall|j: int|
                0 <= j < r.len() && !(joined && j == r.len() - 1) ==> #[trigger] out[j] == r[j]
            &&& joined ==> out[r.len() - 1].time_end == s.last().time_end && out[r.len()
                - 1].point == s.last().point
        }),
{
    let d = s.drop_last();
    if s.len() >= 2 {
        lemma_merged_last(d);
        assert(d.last() == s[s.len() - 2]);
    }
}

/// Merging loses no visited cell.
#[verifier::spinoff_prover]
pub proof fn lemma_merged_keeps_every_cell(s: Seq<PointWTime>)
    ensures
        keeps_every_cell(s, merged(s)),
    decreases s.len(),
{
    if s.len() > 0 {
        let d = s.drop_last();
        lemma_merged_keeps_every_cell(d);
        lemma_merged_step(s);
        let r = merged(d);
        let out = merged(s);
        let n = s.len() - 1;
        assert forall|i: int| #![trigger s[i]] 0 <= i < s.len() implies exists|j: int|
            0 <= j < out.len() && #[trigger] out[j].point == #[trigger] s[i].point by {
            if i < n {
                assert(d[i] == s[i]);
                let j = choose|j: int| 0 <= j < r.len() && #[trigger] r[j].point == #[trigger] d[i].point;
                assert(out[j].point == r[j].point);
            } else {
                let j = out.len() - 1;
                assert(out[j].point == s[i].point);
            }
        }
    }
}

/// Every merged visit starts as some visit of its cell started.
#[verifier::spinoff_prover]
pub proof fn lemma_merged_starts_from(s: Seq<PointWTime>)
    ensures
        starts_from(s, merged(s)),
    decreases s.len(),
{
    if s.len() > 0 {
        let d = s.drop_last();
        lemma_merged_starts_from(d);
        lemma_merged_step(s);
        let r = merged(d);
        let out = merged(s);
        let n = s.len() - 1;
        assert forall|j: int| #![trigger out[j]] 0 <= j < out.len() implies exists|i: int|
            0 <= i < s.len() && #[trigger] s[i].point == #[trigger] out[j].point && s[i].z == out[j].z
                && s[i].time_start == out[j].time_start by {
            if j < r.len() {
                let i = choose|i: int|
                    0 <= i < d.len() && #[trigger] d[i].point == #[trigger] r[j].point && d[i].z
                        == r[j].z && d[i].time_start == r[j].time_start;
                assert(s[i] == d[i]);
                assert(out[j].point == r[j].point);
            } else {
                assert(s[n] == out[j]);
            }
        }
    }
}

/// Every merged visit ends as some visit of its cell ended.
#[verifier::spinoff_prover]
pub proof fn lemma_merged_ends_from(s: Seq<PointWTime>)
    ensures
        ends_from(s, merged(s)),
    decreases s.len(),
{
    if s.len() > 0 {
        let d = s.drop_last();
        lemma_merged_ends_from(d);
        lemma_merged_step(s);
        let r = merged(d);
        let out = merged(s);
        let n = s.len() - 1;
        let joined = s.len() >= 2 && joinable(s[s.len() - 2], s.last());
        assert forall|j: int| #![trigger out[j]] 0 <= j < out.len() implies exists|k: int|
            0 <= k < s.len() && #[trigger] s[k].point == #[trigger] out[j].point && s[k].time_end
                == out[j].time_end by {
            if joined && j == r.len() - 1 {
                assert(s.last() == s[n]);
                assert(0 <= n < s.len() && s[n].point == out[j].point && s[n].time_end == out[j].time_end);
            } else if j < r.len() {
                let k = choose|k: int|
                    0 <= k < d.len() && #[trigger] d[k].point == #[trigger] r[j].point && d[k].time_end
                        == r[j].time_end;
                assert(s[k] == d[k]);
                assert(out[j] == r[j]);
                assert(0 <= k < s.len() && s[k].point == out[j].point && s[k].time_end == out[j].time_end);
            } else {
                assert(s[n] == out[j]);
                assert(0 <= n < s.len() && s[n].point == out[j].point && s[n].time_end == out[j].time_end);
            }
        }
    }
}

/// Merging twice gives what merging once gives.
pub proof fn lemma_merged_idempotent(s: Seq<PointWTime>)
    ensures
        merged(merged(s)) == merged(s),
{
    lemma_merged_is_fully_merged(s);
    lemma_merged_fixes_fully_merged(merged(s));
}

/// `a` comes before `b` by cell and start time.
pub open spec fn starts_before(a: PointWTime, b: PointWTime) -> bool {
    ||| a.point.x < b.point.x
    ||| a.point.x == b.point.x && a.point.y < b.point.y
    ||| a.point.x == b.point.x && a.point.y == b.point.y && a.time_start < b.time_start
}

/// No two visits start in the same cell at the same time, and they come in order.
pub open spec fn strictly_ordered(m: Seq<PointWTime>) -> bool {
    forall|i: int, j: int| 0 <= i < j < m.len() ==> starts_before(#[trigger] m[i], #[trigger] m[j])
}

/// Every visit ends no earlier than it starts.
pub open spec fn well_formed(s: Seq<PointWTime>) -> bool {
    forall|i: int| 0 <= i < s.len() ==> (#[trigger] s[i]).time_start <= s[i].time_end
}

#[verifier::spinoff_prover]
proof fn lemma_merged_ordered(s: Seq<PointWTime>)
    requires
        sorted_by_key(s),
        well_formed(s),
    ensures
        strictly_ordered(merged(s)),
        s.len() > 0 ==> merged(s).last().point == s.last().point && merged(s).last().time_start
            <= s.last().time_start && merged(s).last().time_end == s.last().time_end,
    decreases s.len(),
{
    if s.len() > 0 {
        let d = s.drop_last();
        assert forall|i: int, j: int| 0 <= i < j < d.len() implies key_le(#[trigger] d[i], #[trigger] d[j]) by {
            assert(key_le(s[i], s[j]));
        }
        assert forall|i: int| 0 <= i < d.len() implies (#[trigger] d[i]).time_start <= d[i].time_end by {
            assert(s[i].time_start <= s[i].time_end);
        }
        lemma_merged_ordered(d);
        lemma_merged_step(s);
        let r = merged(d);
        let out = merged(s);
        let x = s.last();
        let n = s.len() - 1;
        assert(x == s[n]);
        assert(x.time_start <= x.time_end);
        if s.len() >= 2 {
            let prev = s[n - 1];
            assert(d.last() == prev);
            assert(key_le(s[n - 1], s[n]));
            assert(prev.time_start <= prev.time_end);
            let joined = joinable(prev, x);
            let last = r.last();
            if joined {
                assert forall|i: int, j: int| 0 <= i < j < out.len() implies starts_before(#[trigger] out[i], #[trigger] out[j]) by {
                    assert(starts_before(r[i], r[j]));
                    assert(out[i].point == r[i].point && out[i].time_start == r[i].time_start);
                    assert(out[j].point == r[j].point && out[j].time_start == r[j].time_start);
                }
            } else {
                assert(starts_before(last, x));
                assert forall|i: int, j: int| 0 <= i < j < out.len() implies starts_before(#[trigger] out[i], #[trigger] out[j]) by {
                    if j == out.len() - 1 {
                        if i < r.len() - 1 {
                            assert(starts_before(r[i], r[r.len() - 1]));
                        }
                        assert(out[i] == r[i]);
                    } else {
                        assert(starts_before(r[i], r[j]));
                        assert(out[i] == r[i] && out[j] == r[j]);
                    }
                }
            }
        } else {
            assert(out.len() == 1);
        }
    }
}

/// Merging sorted, well-formed visits gives visits sorted by cell and time, no
/// two of which start in the same cell at the same time.
pub proof fn lemma_merged_sorted(s: Seq<PointWTime>)
    requires
        sorted_by_key(s),
        well_formed(s),
    ensures
        strictly_ordered(merged(s)),
        sorted_by_key(merged(s)),
{
    lemma_merged_ordered(s);
    let m = merged(s);
    assert forall|i: int, j: int| 0 <= i < j < m.len() implies key_le(#[trigger] m[i], #[trigger] m[j]) by {
        assert(starts_before(m[i], m[j]));
    }
}

proof fn lemma_with_key_drop_last(a: Seq<PointWTime>, k: (i32, i32, i128, i128))
    requires
        a.len() > 0,
    ensures
        visit_key_spec(a.last()) == k ==> with_key(a.drop_last(), k) == with_key(a, k).drop_last()
            && with_key(a, k).len() > 0 && with_key(a, k).last() == a.last(),
        visit_key_spec(a.last()) != k ==> with_key(a.drop_last(), k) == with_key(a, k),
{
    reveal(Seq::filter);
    let pred = |p: PointWTime| visit_key_spec(p) == k;
    assert(a.filter(pred) == (if pred(a.last()) {
        a.drop_last().filter(pred).push(a.last())
    } else {
        a.drop_last().filter(pred)
    }));
    if visit_key_spec(a.last()) == k {
        assert(a.drop_last().filter(pred).push(a.last()).drop_last() =~= a.drop_last().filter(pred));
    }
}

#[verifier::spinoff_prover]
proof fn lemma_sorted_unique(a: Seq<PointWTime>, b: Seq<PointWTime>)
    requires
        sorted_by_key(a),
        sorted_by_key(b),
        a.to_multiset() == b.to_multiset(),
        forall|k: (i32, i32, i128, i128)| #[trigger] with_key(a, k) == with_key(b, k),
    ensures
        a == b,
    decreases a.len(),
{
    a.to_multiset_ensures();
    b.to_multiset_ensures();
    if a.len() > 0 {
        let n = a.len() - 1;
        let x = a.last();
        let y = b.last();
        assert(a.contains(x) <==> a.to_multiset().count(x) > 0);
        assert(b.contains(x) <==> b.to_multiset().count(x) > 0);
        assert(a.contains(y) <==> a.to_multiset().count(y) > 0);
        assert(b.contains(y) <==> b.to_multiset().count(y) > 0);
        assert(a[n] == x);
        assert(b[n] == y);
        assert(a.contains(x));
        assert(b.contains(y));
        let i = choose|i: int| 0 <= i < b.len() && b[i] == x;
        let j = choose|j: int| 0 <= j < a.len() && a[j] == y;
        if i < n {
            assert(key_le(b[i], b[n]));
        }
        if j < n {
            assert(key_le(a[j], a[n]));
        }
        assert(key_le(x, y) && key_le(y, x));
        let k = visit_key_spec(x);
        assert(visit_key_spec(y) == k);
        lemma_with_key_drop_last(a, k);
        lemma_with_key_drop_last(b, k);
        assert(x == y);
        let da = a.drop_last();
        let db = b.drop_last();
        assert forall|k2: (i32, i32, i128, i128)| #[trigger] with_key(da, k2) == with_key(db, k2) by {
            lemma_with_key_drop_last(a, k2);
            lemma_with_key_drop_last(b, k2);
        }
        assert(a.remove(n) =~= da);
        assert(b.remove(n) =~= db);
        assert(da.to_multiset() == a.to_multiset().remove(x));
        assert(db.to_multiset() == b.to_multiset().remove(y));
        assert forall|p: int, q: int| 0 <= p < q < da.len() implies key_le(#[trigger] da[p], #[trigger] da[q]) by {
            assert(key_le(a[p], a[q]));
        }
        assert forall|p: int, q: int| 0 <= p < q < db.len() implies key_le(#[trigger] db[p], #[trigger] db[q]) by {
            assert(key_le(b[p], b[q]));
        }
        lemma_sorted_unique(da, db);
        assert(a =~= da.push(x));
        assert(b =~= db.push(y));
    } else {
        assert(b.len() == 0);
        assert(a =~= b);
    }
}

/// Sorting visits stably has one result: two stable sorts of the same visits
/// are equal. So `merge_visits` gives `merged` of that one sorted sequence.
pub proof fn lemma_stably_sorted_unique(a: Seq<PointWTime>, b: Seq<PointWTime>, t: Seq<PointWTime>)
    requires
        stably_sorted(a, t),
        stably_sorted(b, t),
    ensures
        a == b,
{
    lemma_sorted_unique(a, b);
}

/// After merging, neighbouring visits are separate stays: they are in different
/// cells, or the first one ends before the second one starts.
pub proof fn lemma_merged_neighbours_are_separate(s: Seq<PointWTime>)
    ensures
        forall|i: int|
            0 <= i < merged(s).len() - 1 ==> (#[trigger] merged(s)[i]).point != merged(s)[i + 1].point
                || merged(s)[i].time_end < merged(s)[i + 1].time_start,
{
    lemma_merged_is_fully_merged(s);
    let m = merged(s);
    assert forall|i: int| 0 <= i < m.len() - 1 implies (#[trigger] m[i]).point != m[i + 1].point
        || m[i].time_end < m[i + 1].time_start by {
        assert(!joinable(m[i], m[i + 1]));
    }
}

/// Two neighbouring visits of one cell, the first not ending before the second
/// starts, are merged into one stay that starts with the first and ends with the
/// second.
pub proof fn lemma_overlapping_visits_merge(a: PointWTime, b: PointWTime)
    requires
        a.point == b.point,
        a.time_end >= b.time_start,
    ensures
        merged(seq![a, b]) == seq![PointWTime { time_end: b.time_end, ..a }],
{
    let s = seq![a, b];
    assert(s.drop_last() =~= seq![a]);
    assert(seq![a].drop_last() =~= Seq::<PointWTime>::empty());
    assert(merged(Seq::<PointWTime>::empty()) =~= Seq::<PointWTime>::empty());
    assert(seq![a].last() == a);
    assert(merged(seq![a]) =~= seq![a]);
    assert(s.last() == b && s[0] == a);
    assert(merged(s) =~= seq![PointWTime { time_end: b.time_end, ..a }]);
}

} // verus!
