use vstd::prelude::*;

verus! {

/// A draught reading given by the decimal's normalized mantissa and scale, so
/// that equal draughts have equal keys.
#[derive(Debug, Clone, Copy, PartialEq, Eq, Structural, Hash)]
pub struct DraughtKey {
    pub mantissa: i128,
    pub scale: u32,
}

/// Runs of consecutive samples with equal draughts (or equally missing ones),
/// each given by the time of its first sample, the time of its last sample and
/// the draught.
pub open spec fn draught_runs(s: Seq<(i64, Option<DraughtKey>)>) -> Seq<(i64, i64, Option<DraughtKey>)>
    decreases s.len(),
{
    if s.len() == 0 {
        Seq::empty()
    } else {
        let r = draught_runs(s.drop_last());
        let x = s.last();
        if s.len() >= 2 && s[s.len() - 2].1 == x.1 {
            r.update(r.len() - 1, (r.last().0, x.0, r.last().2))
        } else {
            r.push((x.0, x.0, x.1))
        }
    }
}

/// The runs that have a draught.
pub open spec fn known_runs(r: Seq<(i64, i64, Option<DraughtKey>)>) -> Seq<(i64, i64, DraughtKey)>
    decreases r.len(),
{
    if r.len() == 0 {
        Seq::empty()
    } else {
        let k = known_runs(r.drop_last());
        match r.last().2 {
            Some(d) => k.push((r.last().0, r.last().1, d)),
            None => k,
        }
    }
}

/// Each run stretched to end where the next run ends; the last run stays as it is.
pub open spec fn stretched(r: Seq<(i64, i64, DraughtKey)>) -> Seq<(i64, i64, DraughtKey)> {
    Seq::new(
        r.len(),
        |i: int|
            if i < r.len() - 1 {
                (r[i].0, r[i + 1].1, r[i].2)
            } else {
                r[i]
            },
    )
}

proof fn lemma_draught_runs_nonempty(s: Seq<(i64, Option<DraughtKey>)>)
    requires
        s.len() > 0,
    ensures
        draught_runs(s).len() > 0,
    decreases s.len(),
{
    if s.len() > 1 {
        lemma_draught_runs_nonempty(s.drop_last());
    } else {
        assert(draught_runs(s.drop_last()) =~= Seq::<(i64, i64, Option<DraughtKey>)>::empty());
    }
}

/// Sample `k` opens a run: it is the first sample, or its draught differs from
/// the one before.
pub open spec fn run_start(s: Seq<(i64, Option<DraughtKey>)>, k: int) -> bool {
    0 <= k < s.len() && (k == 0 || s[k - 1].1 != s[k].1)
}

/// Sample `k` closes a run: it is the last sample, or its draught differs from
/// the one after.
pub open spec fn run_last(s: Seq<(i64, Option<DraughtKey>)>, k: int) -> bool {
    0 <= k < s.len() && (k == s.len() - 1 || s[k + 1].1 != s[k].1)
}

/// How one more sample changes the runs.
proof fn lemma_draught_runs_step(s: Seq<(i64, Option<DraughtKey>)>)
    requires
        s.len() > 0,
    ensures
        ({
            let rp = draught_runs(s.drop_last());
            let r = draught_runs(s);
            let x = s.last();
            let joined = s.len() >= 2 && s[s.len() - 2].1 == x.1;
            &&& joined ==> rp.len() > 0 && r.len() == rp.len() && r.last() == (rp.last().0, x.0, rp.last().2)
                && forall|j: int| 0 <= j < rp.len() - 1 ==> #[trigger] r[j] == rp[j]
            &&& !joined ==> r.len() == rp.len() + 1 && r.last() == (x.0, x.0, x.1) && forall|j: int|
                0 <= j < rp.len() ==> #[trigger] r[j] == rp[j]
        }),
{
    if s.len() >= 2 {
        lemma_draught_runs_nonempty(s.drop_last());
    }
}

/// The last run ends with the last sample and has its draught.
proof fn lemma_draught_runs_last(s: Seq<(i64, Option<DraughtKey>)>)
    requires
        s.len() > 0,
    ensures
        draught_runs(s).len() > 0,
        draught_runs(s).last().1 == s.last().0,
        draught_runs(s).last().2 == s.last().1,
    decreases s.len(),
{
    lemma_draught_runs_step(s);
    if s.len() >= 2 {
        lemma_draught_runs_last(s.drop_last());
        assert(s.drop_last().last() == s[s.len() - 2]);
    }
}

/// Every run starts at a sample that opens a run, with that sample's draught.
pub open spec fn runs_start_at_samples(s: Seq<(i64, Option<DraughtKey>)>, r: Seq<(i64, i64, Option<DraughtKey>)>) -> bool {
    forall|j: int|
        #![trigger r[j]]
        0 <= j < r.len() ==> exists|k: int| run_start(s, k) && s[k].0 == r[j].0 && s[k].1 == r[j].2
}

/// Every run ends at a sample that closes a run, with that sample's draught;
/// runs before the last end before the last sample.
pub open spec fn runs_end_at_samples(s: Seq<(i64, Option<DraughtKey>)>, r: Seq<(i64, i64, Option<DraughtKey>)>) -> bool {
    forall|j: int|
        #![trigger r[j]]
        0 <= j < r.len() ==> exists|k: int|
            run_last(s, k) && (j < r.len() - 1 ==> k < s.len() - 1) && s[k].0 == r[j].1 && s[k].1 == r[j].2
}

/// Every sample that opens a run opens one of the runs.
pub open spec fn run_starts_give_runs(s: Seq<(i64, Option<DraughtKey>)>, r: Seq<(i64, i64, Option<DraughtKey>)>) -> bool {
    forall|k: int|
        #![trigger run_start(s, k)]
        run_start(s, k) ==> exists|j: int| 0 <= j < r.len() && r[j].0 == s[k].0 && r[j].2 == s[k].1
}

#[verifier::spinoff_prover]
#[verifier::rlimit(40)]
proof fn lemma_draught_runs_starts(s: Seq<(i64, Option<DraughtKey>)>)
    ensures
        runs_start_at_samples(s, draught_runs(s)),
    decreases s.len(),
{
    if s.len() > 0 {
        let d = s.drop_last();
        let n = s.len() - 1;
        lemma_draught_runs_starts(d);
        lemma_draught_runs_step(s);
        let rp = draught_runs(d);
        let r = draught_runs(s);
        let joined = s.len() >= 2 && s[s.len() - 2].1 == s.last().1;
        assert forall|j: int| #![trigger r[j]] 0 <= j < r.len() implies exists|k: int|
            run_start(s, k) && s[k].0 == r[j].0 && s[k].1 == r[j].2 by {
            if j < rp.len() {
                let k = choose|k: int| run_start(d, k) && d[k].0 == rp[j].0 && d[k].1 == rp[j].2;
                assert(s[k] == d[k]);
                if k > 0 {
                    assert(s[k - 1] == d[k - 1]);
                }
                assert(run_start(s, k));
                if joined && j == rp.len() - 1 {
                    assert(r[j] == r.last());
                } else {
                    assert(r[j] == rp[j]);
                }
            } else {
                assert(s[n] == s.last());
                assert(r[j] == r.last());
                assert(run_start(s, n));
            }
        }
    }
}

#[verifier::spinoff_prover]
#[verifier::rlimit(40)]
proof fn lemma_draught_runs_ends(s: Seq<(i64, Option<DraughtKey>)>)
    ensures
        runs_end_at_samples(s, draught_runs(s)),
    decreases s.len(),
{
    if s.len() > 0 {
        let d = s.drop_last();
        let n = s.len() - 1;
        lemma_draught_runs_ends(d);
        lemma_draught_runs_step(s);
        let rp = draught_runs(d);
        let r = draught_runs(s);
        let joined = s.len() >= 2 && s[s.len() - 2].1 == s.last().1;
        if d.len() > 0 {
            lemma_draught_runs_last(d);
        }
        assert(s[n] == s.last());
        assert forall|j: int| #![trigger r[j]] 0 <= j < r.len() implies exists|k: int|
            run_last(s, k) && (j < r.len() - 1 ==> k < s.len() - 1) && s[k].0 == r[j].1 && s[k].1 == r[j].2 by {
            if j < rp.len() - 1 {
                let k = choose|k: int|
                    run_last(d, k) && (j < rp.len() - 1 ==> k < d.len() - 1) && d[k].0 == rp[j].1 && d[k].1 == rp[j].2;
                assert(s[k] == d[k] && s[k + 1] == d[k + 1]);
                assert(run_last(s, k));
                assert(r[j] == rp[j]);
            } else if j == rp.len() - 1 && !joined {
                let k = n - 1;
                assert(d.last() == s[k]);
                assert(run_last(s, k));
                assert(r[j] == rp[j]);
            } else {
                assert(r[j] == r.last());
                assert(run_last(s, n));
            }
        }
    }
}

#[verifier::spinoff_prover]
#[verifier::rlimit(40)]
proof fn lemma_draught_runs_complete(s: Seq<(i64, Option<DraughtKey>)>)
    ensures
        run_starts_give_runs(s, draught_runs(s)),
    decreases s.len(),
{
    if s.len() > 0 {
        let d = s.drop_last();
        let n = s.len() - 1;
        lemma_draught_runs_complete(d);
        lemma_draught_runs_step(s);
        let rp = draught_runs(d);
        let r = draught_runs(s);
        let joined = s.len() >= 2 && s[s.len() - 2].1 == s.last().1;
        assert forall|k: int| #![trigger run_start(s, k)] run_start(s, k) implies exists|j: int|
            0 <= j < r.len() && r[j].0 == s[k].0 && r[j].2 == s[k].1 by {
            if k < n {
                assert(s[k] == d[k]);
                if k > 0 {
                    assert(s[k - 1] == d[k - 1]);
                }
                assert(run_start(d, k));
                let j = choose|j: int| 0 <= j < rp.len() && rp[j].0 == d[k].0 && rp[j].2 == d[k].1;
                if joined && j == rp.len() - 1 {
                    assert(r[j] == r.last());
                } else {
                    assert(r[j] == rp[j]);
                }
            } else {
                assert(s[n] == s.last());
                assert(!joined);
                assert(r[r.len() - 1] == r.last());
            }
        }
    }
}

proof fn lemma_known_runs_entries(r: Seq<(i64, i64, Option<DraughtKey>)>)
    ensures
        forall|j: int|
            #![trigger known_runs(r)[j]]
            0 <= j < known_runs(r).len() ==> exists|m: int|
                0 <= m < r.len() && r[m] == (known_runs(r)[j].0, known_runs(r)[j].1, Some(known_runs(r)[j].2)),
        forall|m: int|
            #![trigger r[m]]
            0 <= m < r.len() && r[m].2 is Some ==> exists|j: int|
                0 <= j < known_runs(r).len() && known_runs(r)[j] == (r[m].0, r[m].1, r[m].2->0),
        r.len() > 0 && r.last().2 is Some ==> known_runs(r).len() > 0 && known_runs(r).last() == (
            r.last().0,
            r.last().1,
            r.last().2->0,
        ),
    decreases r.len(),
{
    if r.len() > 0 {
        let d = r.drop_last();
        lemma_known_runs_entries(d);
        let kd = known_runs(d);
        let k = known_runs(r);
        let n = r.len() - 1;
        assert forall|m: int| 0 <= m < n implies #[trigger] r[m] == d[m] by {}
        assert(r.last() == r[n]);
        assert forall|j: int| #![trigger k[j]] 0 <= j < k.len() implies exists|m: int|
            0 <= m < r.len() && r[m] == (k[j].0, k[j].1, Some(k[j].2)) by {
            if j < kd.len() {
                let m = choose|m: int| 0 <= m < d.len() && d[m] == (kd[j].0, kd[j].1, Some(kd[j].2));
                assert(k[j] == kd[j]);
                assert(r[m] == d[m]);
            } else {
                assert(r[n] == (k[j].0, k[j].1, Some(k[j].2)));
            }
        }
        assert forall|m: int| #![trigger r[m]] 0 <= m < r.len() && r[m].2 is Some implies exists|j: int|
            0 <= j < k.len() && k[j] == (r[m].0, r[m].1, r[m].2->0) by {
            if m < n {
                assert(d[m] == r[m]);
                let j = choose|j: int| 0 <= j < kd.len() && kd[j] == (d[m].0, d[m].1, d[m].2->0);
                assert(k[j] == kd[j]);
            } else {
                assert(k[k.len() - 1] == (r[m].0, r[m].1, r[m].2->0));
            }
        }
    }
}

/// Every range starts at a sample that opens a run, with that sample's draught.
pub open spec fn ranges_start_at_run_starts(s: Seq<(i64, Option<DraughtKey>)>, out: Seq<(i64, i64, DraughtKey)>) -> bool {
    forall|i: int|
        #![trigger out[i]]
        0 <= i < out.len() ==> exists|k: int| run_start(s, k) && s[k] == (out[i].0, Some(out[i].2))
}

/// Every range but the last ends at the last sample of a run that holds the
/// next range's draught; the last range ends at the last sample of a run with
/// its own draught.
pub open spec fn ranges_end_at_next_run(s: Seq<(i64, Option<DraughtKey>)>, out: Seq<(i64, i64, DraughtKey)>) -> bool {
    &&& forall|i: int|
        #![trigger out[i]]
        0 <= i < out.len() - 1 ==> exists|k: int| run_last(s, k) && s[k].0 == out[i].1 && s[k].1 == Some(out[i + 1].2)
    &&& out.len() > 0 ==> exists|k: int| run_last(s, k) && s[k].0 == out.last().1 && s[k].1 == Some(out.last().2)
}

/// Every sample that opens a run with a draught starts a range with it.
pub open spec fn run_starts_give_ranges(s: Seq<(i64, Option<DraughtKey>)>, out: Seq<(i64, i64, DraughtKey)>) -> bool {
    forall|k: int|
        #![trigger run_start(s, k)]
        run_start(s, k) && s[k].1 is Some ==> exists|i: int| 0 <= i < out.len() && out[i].0 == s[k].0 && Some(out[i].2) == s[k].1
}

#[verifier::spinoff_prover]
#[verifier::rlimit(40)]
proof fn lemma_combine_starts(s: Seq<(i64, Option<DraughtKey>)>)
    ensures
        ranges_start_at_run_starts(s, stretched(known_runs(draught_runs(s)))),
{
    let r = draught_runs(s);
    let kr = known_runs(r);
    let out = stretched(kr);
    lemma_draught_runs_starts(s);
    lemma_known_runs_entries(r);
    assert forall|i: int| #![trigger out[i]] 0 <= i < out.len() implies exists|k: int|
        run_start(s, k) && s[k] == (out[i].0, Some(out[i].2)) by {
        assert(out[i].0 == kr[i].0 && out[i].2 == kr[i].2);
        let m = choose|m: int| 0 <= m < r.len() && r[m] == (kr[i].0, kr[i].1, Some(kr[i].2));
        let k = choose|k: int| run_start(s, k) && s[k].0 == r[m].0 && s[k].1 == r[m].2;
        assert(s[k] == (out[i].0, Some(out[i].2)));
    }
}

#[verifier::spinoff_prover]
#[verifier::rlimit(40)]
proof fn lemma_combine_ends(s: Seq<(i64, Option<DraughtKey>)>)
    ensures
        ranges_end_at_next_run(s, stretched(known_runs(draught_runs(s)))),
{
    let r = draught_runs(s);
    let kr = known_runs(r);
    let out = stretched(kr);
    lemma_draught_runs_ends(s);
    lemma_known_runs_entries(r);
    assert forall|i: int| #![trigger out[i]] 0 <= i < out.len() - 1 implies exists|k: int|
        run_last(s, k) && s[k].0 == out[i].1 && s[k].1 == Some(out[i + 1].2) by {
        assert(out[i].1 == kr[i + 1].1);
        assert(out[i + 1].2 == kr[i + 1].2);
        let m = choose|m: int| 0 <= m < r.len() && r[m] == (kr[i + 1].0, kr[i + 1].1, Some(kr[i + 1].2));
        assert(r[m] == r[m]);
        let k = choose|k: int|
            run_last(s, k) && (m < r.len() - 1 ==> k < s.len() - 1) && s[k].0 == r[m].1 && s[k].1 == r[m].2;
    }
    if out.len() > 0 {
        let i = out.len() - 1;
        assert(out.last() == kr[i]);
        let m = choose|m: int| 0 <= m < r.len() && r[m] == (kr[i].0, kr[i].1, Some(kr[i].2));
        assert(r[m] == r[m]);
        let k = choose|k: int|
            run_last(s, k) && (m < r.len() - 1 ==> k < s.len() - 1) && s[k].0 == r[m].1 && s[k].1 == r[m].2;
        assert(run_last(s, k) && s[k].0 == out.last().1 && s[k].1 == Some(out.last().2));
    }
}

#[verifier::spinoff_prover]
#[verifier::rlimit(40)]
proof fn lemma_combine_complete(s: Seq<(i64, Option<DraughtKey>)>)
    ensures
        run_starts_give_ranges(s, stretched(known_runs(draught_runs(s)))),
{
    let r = draught_runs(s);
    let kr = known_runs(r);
    let out = stretched(kr);
    lemma_draught_runs_complete(s);
    lemma_known_runs_entries(r);
    assert forall|k: int| #![trigger run_start(s, k)] run_start(s, k) && s[k].1 is Some implies exists|i: int|
        0 <= i < out.len() && out[i].0 == s[k].0 && Some(out[i].2) == s[k].1 by {
        let m = choose|m: int| 0 <= m < r.len() && r[m].0 == s[k].0 && r[m].2 == s[k].1;
        assert(r[m] == r[m]);
        let i = choose|i: int| 0 <= i < kr.len() && kr[i] == (r[m].0, r[m].1, r[m].2->0);
        assert(out[i].0 == kr[i].0 && out[i].2 == kr[i].2);
    }
}

/// What combining draught samples gives, stated over the samples: every range
/// starts where a run with its draught opens; every range but the last ends at
/// the last sample of the next run, and the last one at the last sample of its
/// own run; when the last sample has a draught, the last range ends at that
/// sample's time with that draught; and every run that opens with a draught
/// starts a range.
#[verifier::spinoff_prover]
#[verifier::rlimit(40)]
pub proof fn lemma_draught_combine_over_samples(s: Seq<(i64, Option<DraughtKey>)>)
    ensures
        ranges_start_at_run_starts(s, stretched(known_runs(draught_runs(s)))),
        ranges_end_at_next_run(s, stretched(known_runs(draught_runs(s)))),
        run_starts_give_ranges(s, stretched(known_runs(draught_runs(s)))),
        forall|d: DraughtKey|
            s.len() > 0 && s.last().1 == Some(d) ==> {
                let out = stretched(known_runs(draught_runs(s)));
                &&& out.len() > 0
                &&& out.last().1 == s.last().0
                &&& out.last().2 == d
            },
{
    lemma_combine_starts(s);
    lemma_combine_ends(s);
    lemma_combine_complete(s);
    let r = draught_runs(s);
    let kr = known_runs(r);
    let out = stretched(kr);
    if s.len() > 0 {
        lemma_draught_runs_last(s);
        lemma_known_runs_entries(r);
        if s.last().1 is Some {
            assert(out[out.len() - 1] == kr[kr.len() - 1]);
        }
    }
}

/// Splits time-ordered draught samples into runs of equal draught, keeps the
/// runs that have a draught, and lets each run last until the next run ends.
pub fn get_draught_combine(data: &Vec<(i64, Option<DraughtKey>)>) -> (out: Vec<(i64, i64, DraughtKey)>)
    ensures
        out@ == stretched(known_runs(draught_runs(data@))),
{
    let mut runs: Vec<(i64, i64, Option<DraughtKey>)> = Vec::new();
    let n = data.len();
    let mut i: usize = 0;
    while i < n
        invariant
            n == data@.len(),
            0 <= i <= n,
            runs@ == draught_runs(data@.take(i as int)),
        decreases n - i,
    {
        let x = data[i];
        proof {
            assert(data@.take(i + 1).drop_last() =~= data@.take(i as int));
            assert(data@.take(i + 1).last() == x);
            if i > 0 {
                lemma_draught_runs_nonempty(data@.take(i as int));
                assert(data@.take(i + 1)[i - 1] == data@[i - 1]);
            }
        }
        if i > 0 && data[i - 1].1 == x.1 {
            let last = runs.len() - 1;
            let (start, _, d) = runs[last];
            runs.set(last, (start, x.0, d));
        } else {
            runs.push((x.0, x.0, x.1));
        }
        i = i + 1;
    }
    proof {
        assert(data@.take(n as int) =~= data@);
    }
    let mut known: Vec<(i64, i64, DraughtKey)> = Vec::new();
    let m = runs.len();
    let mut k: usize = 0;
    while k < m
        invariant
            m == runs@.len(),
            0 <= k <= m,
            known@ == known_runs(runs@.take(k as int)),
        decreases m - k,
    {
        proof {
            assert(runs@.take(k + 1).drop_last() =~= runs@.take(k as int));
            assert(runs@.take(k + 1).last() == runs@[k as int]);
        }
        let (start, end, d) = runs[k];
        match d {
            Some(v) => {
                known.push((start, end, v));
            },
            None => {},
        }
        k = k + 1;
    }
    proof {
        assert(runs@.take(m as int) =~= runs@);
    }
    let mut out: Vec<(i64, i64, DraughtKey)> = Vec::new();
    let len = known.len();
    let mut j: usize = 0;
    while j < len
        invariant
            len == known@.len(),
            0 <= j <= len,
            out@ =~= stretched(known@).take(j as int),
        decreases len - j,
    {
        if j + 1 < len {
            out.push(fix_draught_segment_time_range(&[known[j], known[j + 1]]));
        } else {
            out.push(known[j]);
        }
        j = j + 1;
    }
    out
}

/// The span from the start of the first entry to the end of the last entry,
/// with the first entry's value.
pub fn fix_draught_segment_time_range<D: Copy>(data: &[(i64, i64, D)]) -> (r: (i64, i64, D))
    requires
        data@.len() > 0,
    ensures
        r == (data@[0].0, data@.last().1, data@[0].2),
{
    let start = data[0];
    let last = data[data.len() - 1];
    (start.0, last.1, start.2)
}

/// The sum of the durations of `s`.
pub open spec fn duration_sum<D>(s: Seq<(i64, D)>) -> int
    decreases s.len(),
{
    if s.len() == 0 {
        0
    } else {
        duration_sum(s.drop_last()) + s.last().0
    }
}

/// Every partial sum of the durations fits in an `i64`.
pub open spec fn sums_fit<D>(s: Seq<(i64, D)>) -> bool {
    forall|k: int| 0 <= k <= s.len() ==> i64::MIN <= #[trigger] duration_sum(s.take(k)) <= i64::MAX
}

/// The total duration of the entries, with the first entry's value.
pub fn combine_same_draught<D: Copy>(data: &[(i64, D)]) -> (r: (i64, D))
    requires
        data@.len() > 0,
        sums_fit(data@),
    ensures
        r == (duration_sum(data@) as i64, data@[0].1),
{
    let mut total: i64 = 0;
    let mut i: usize = 0;
    proof {
        assert(data@.take(0) =~= Seq::<(i64, D)>::empty());
    }
    while i < data.len()
        invariant
            0 <= i <= data@.len(),
            sums_fit(data@),
            total == duration_sum(data@.take(i as int)),
        decreases data@.len() - i,
    {
        proof {
            assert(data@.take(i + 1).drop_last() =~= data@.take(i as int));
            assert(data@.take(i + 1).last() == data@[i as int]);
            assert(i64::MIN <= duration_sum(data@.take(i + 1)) <= i64::MAX);
        }
        total = total + data[i].0;
        i = i + 1;
    }
    proof {
        assert(data@.take(data@.len() as int) =~= data@);
    }
    (total, data[0].1)
}

/// The total duration adds up over the parts of a list: one sample gives its
/// own duration, and a list split in two gives the sum of the two totals.
pub proof fn lemma_duration_sum_adds_up<D>(a: Seq<(i64, D)>, b: Seq<(i64, D)>, x: (i64, D))
    ensures
        duration_sum(seq![x]) == x.0,
        duration_sum(a + b) == duration_sum(a) + duration_sum(b),
    decreases b.len(),
{
    assert(seq![x].drop_last() =~= Seq::<(i64, D)>::empty());
    assert(seq![x].last() == x);
    assert(duration_sum(seq![x].drop_last()) == 0);
    if b.len() == 0 {
        assert(a + b =~= a);
    } else {
        lemma_duration_sum_adds_up(a, b.drop_last(), x);
        assert((a + b).drop_last() =~= a + b.drop_last());
        assert((a + b).last() == b.last());
    }
}

} // verus!
