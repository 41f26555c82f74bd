use vstd::prelude::*;

verus! {

/// The name of the last migration that ran, or the empty name when none is recorded.
pub open spec fn recorded_name(current: Option<String>) -> Seq<char> {
    match current {
        Some(s) => s@,
        None => Seq::empty(),
    }
}

/// The last position among the first `k` entries whose name is `name`.
pub open spec fn last_position(entries: Seq<String>, name: Seq<char>, k: int) -> Option<int>
    decreases k,
{
    if k <= 0 {
        None
    } else if entries[k - 1]@ == name {
        Some(k - 1)
    } else {
        last_position(entries, name, k - 1)
    }
}

/// Position of the first migration still to run: one past the last entry named
/// like the recorded migration, or the first entry when there is no such entry.
pub open spec fn pending_start(entries: Seq<String>, current: Option<String>) -> int {
    match last_position(entries, recorded_name(current), entries.len() as int) {
        Some(i) => i + 1,
        None => 0,
    }
}

/// Where the migrations in the sorted `entries` resume after the recorded migration
/// `current`.
pub fn first_pending_migration(entries: &Vec<String>, current: &Option<String>) -> (r: usize)
    ensures
        r == pending_start(entries@, *current),
        r <= entries@.len(),
{
    let name: String = match current {
        Some(s) => s.clone(),
        None => String::new(),
    };
    let mut k: usize = entries.len();
    while k > 0
        invariant
            0 <= k <= entries@.len(),
            name@ == recorded_name(*current),
            last_position(entries@, name@, entries@.len() as int) == last_position(entries@, name@, k as int),
        decreases k,
    {
        if entries[k - 1] == name {
            return k;
        }
        k = k - 1;
    }
    0
}

/// The name to record once the migrations from `first_pending_migration` on have
/// run: the last entry when any ran, else the recorded name (or the empty name).
pub fn migration_to_record(entries: &Vec<String>, current: &Option<String>) -> (r: String)
    ensures
        r@ == (if pending_start(entries@, *current) < entries@.len() {
            entries@.last()@
        } else {
            recorded_name(*current)
        }),
{
    let start = first_pending_migration(entries, current);
    if start < entries.len() {
        entries[entries.len() - 1].clone()
    } else {
        match current {
            Some(s) => s.clone(),
            None => String::new(),
        }
    }
}

proof fn lemma_last_position_bounds(entries: Seq<String>, name: Seq<char>, k: int)
    requires
        0 <= k <= entries.len(),
    ensures
        match last_position(entries, name, k) {
            Some(i) => 0 <= i < k && entries[i]@ == name && forall|j: int| i < j < k ==> entries[j]@ != name,
            None => forall|i: int| 0 <= i < k ==> entries[i]@ != name,
        },
    decreases k,
{
    if k > 0 {
        lemma_last_position_bounds(entries, name, k - 1);
    }
}

/// Once the pending migrations have run and `migration_to_record`'s name is
/// recorded, no migration is pending any more.
pub proof fn lemma_recorded_migration_leaves_nothing_pending(
    entries: Seq<String>,
    current: Option<String>,
    recorded: String,
)
    requires
        recorded@ == (if pending_start(entries, current) < entries.len() {
            entries.last()@
        } else {
            recorded_name(current)
        }),
    ensures
        pending_start(entries, Some(recorded)) == entries.len(),
{
    let n = entries.len() as int;
    lemma_last_position_bounds(entries, recorded_name(current), n);
    lemma_last_position_bounds(entries, recorded@, n);
    if pending_start(entries, current) < n {
        assert(n > 0);
        assert(entries[n - 1]@ == recorded@);
    } else {
        assert(recorded@ == recorded_name(current));
        assert(recorded_name(Some(recorded)) == recorded_name(current));
    }
}

/// Where the pending migrations start, stated over the entries: just after the
/// last entry named like the recorded migration, so that no later entry has that
/// name; at the first entry exactly when no entry has that name.
pub proof fn lemma_pending_start_after_last_recorded(entries: Seq<String>, current: Option<String>)
    ensures
        ({
            let p = pending_start(entries, current);
            let name = recorded_name(current);
            &&& 0 <= p <= entries.len()
            &&& p == 0 <==> forall|j: int| 0 <= j < entries.len() ==> #[trigger] entries[j]@ != name
            &&& p > 0 ==> entries[p - 1]@ == name
            &&& forall|j: int| p <= j < entries.len() ==> #[trigger] entries[j]@ != name
        }),
{
    lemma_last_position_bounds(entries, recorded_name(current), entries.len() as int);
}

} // verus!
