//! Building and publishing the recent-arrivals snapshot.
//!
//! Each poll cycle fetches every tracked stop. A cycle that fails for any
//! stop publishes nothing; a cycle that succeeds for all of them flattens
//! the per-stop lists, discards schedule-only predictions, sorts the rest
//! ascending by fetch-time seconds-to-arrival (stable), and replaces the
//! shared snapshot with the result in one step.

use vstd::prelude::*;
use crate::model::{Arrival, ArrivalGroup, FetchError, Instant, TimedArrival};

verus! {

/// Milliseconds the poller sleeps after a cycle that fetched every stop.
pub const POLL_INTERVAL_MS: u64 = 30000;

/// Milliseconds the poller sleeps before retrying after a failed cycle.
pub const RETRY_INTERVAL_MS: u64 = 5000;

/// How long the poller sleeps after a cycle: a short penalty before the
/// retry of a failed cycle, the normal interval after a successful one.
pub fn cycle_sleep_ms(failed: bool) -> (r: u64)
    ensures
        r == if failed {
            RETRY_INTERVAL_MS
        } else {
            POLL_INTERVAL_MS
        },
{
    if failed {
        RETRY_INTERVAL_MS
    } else {
        POLL_INTERVAL_MS
    }
}

/// The sort key of a timed arrival: the seconds-to-arrival measured at
/// fetch time.
pub open spec fn eta_of(t: TimedArrival) -> int {
    t.arrival.eta_seconds as int
}

/// Ascending by fetch-time seconds-to-arrival.
pub open spec fn sorted_by_eta(s: Seq<TimedArrival>) -> bool {
    forall|i: int, j: int| 0 <= i < j < s.len() ==> eta_of(s[i]) <= eta_of(s[j])
}

/// No entry is a schedule-only prediction.
pub open spec fn all_tracked(s: Seq<TimedArrival>) -> bool {
    forall|i: int| 0 <= i < s.len() ==> !(#[trigger] s[i]).arrival.just_scheduled
}

/// `x` placed behind every element of `s` whose key does not exceed its
/// own; on a sorted `s` this keeps equal keys in their existing order.
pub open spec fn stable_insert(s: Seq<TimedArrival>, x: TimedArrival) -> Seq<TimedArrival>
    decreases s.len(),
{
    if s.len() == 0 {
        seq![x]
    } else if eta_of(s.last()) <= eta_of(x) {
        s.push(x)
    } else {
        stable_insert(s.drop_last(), x).push(s.last())
    }
}

/// Insertion sort: ascending by key, stable.
pub open spec fn stable_sort(s: Seq<TimedArrival>) -> Seq<TimedArrival>
    decreases s.len(),
{
    if s.len() == 0 {
        Seq::empty()
    } else {
        stable_insert(stable_sort(s.drop_last()), s.last())
    }
}

/// A property that holds of every element survives a stable insert.
proof fn lemma_stable_insert_all(
    s: Seq<TimedArrival>,
    x: TimedArrival,
    p: spec_fn(TimedArrival) -> bool,
)
    requires
        forall|i: int| 0 <= i < s.len() ==> p(#[trigger] s[i]),
        p(x),
    ensures
        forall|i: int|
            0 <= i < stable_insert(s, x).len() ==> p(#[trigger] stable_insert(s, x)[i]),
    decreases s.len(),
{
    if s.len() == 0 {
        assert(stable_insert(s, x) == seq![x]);
        assert(p(seq![x][0]));
    } else if eta_of(s.last()) <= eta_of(x) {
        let r = s.push(x);
        assert forall|i: int| 0 <= i < r.len() implies p(#[trigger] r[i]) by {
            if i < s.len() {
                assert(r[i] == s[i]);
            } else {
                assert(r[i] == x);
            }
        }
    } else {
        lemma_stable_insert_all(s.drop_last(), x, p);
        let inner = stable_insert(s.drop_last(), x);
        let r = inner.push(s.last());
        assert(p(s.last()));
        assert forall|i: int| 0 <= i < r.len() implies p(#[trigger] r[i]) by {
            if i < inner.len() {
                assert(r[i] == inner[i]);
            } else {
                assert(r[i] == s.last());
            }
        }
    }
}

/// A property that holds of every element survives the stable sort.
proof fn lemma_stable_sort_all(s: Seq<TimedArrival>, p: spec_fn(TimedArrival) -> bool)
    requires
        forall|i: int| 0 <= i < s.len() ==> p(#[trigger] s[i]),
    ensures
        forall|i: int| 0 <= i < stable_sort(s).len() ==> p(#[trigger] stable_sort(s)[i]),
    decreases s.len(),
{
    if s.len() == 0 {
    } else {
        lemma_stable_sort_all(s.drop_last(), p);
        lemma_stable_insert_all(stable_sort(s.drop_last()), s.last(), p);
    }
}

/// Every key of a stable insert is bounded by any bound on the inputs.
proof fn lemma_stable_insert_bound(s: Seq<TimedArrival>, x: TimedArrival, b: int)
    requires
        forall|i: int| 0 <= i < s.len() ==> eta_of(#[trigger] s[i]) <= b,
        eta_of(x) <= b,
    ensures
        forall|i: int|
            0 <= i < stable_insert(s, x).len() ==> eta_of(#[trigger] stable_insert(s, x)[i]) <= b,
{
    lemma_stable_insert_all(s, x, |t: TimedArrival| eta_of(t) <= b);
}

/// Inserting into a sorted sequence keeps it sorted.
proof fn lemma_stable_insert_sorted(s: Seq<TimedArrival>, x: TimedArrival)
    requires
        sorted_by_eta(s),
    ensures
        sorted_by_eta(stable_insert(s, x)),
    decreases s.len(),
{
    if s.len() == 0 {
    } else if eta_of(s.last()) <= eta_of(x) {
        assert forall|i: int, j: int|
            0 <= i < j < s.push(x).len() implies eta_of(s.push(x)[i]) <= eta_of(
            s.push(x)[j],
        ) by {
            if j < s.len() {
            } else {
                assert(eta_of(s[i]) <= eta_of(s.last()));
            }
        }
    } else {
        assert(sorted_by_eta(s.drop_last()));
        lemma_stable_insert_sorted(s.drop_last(), x);
        lemma_stable_insert_bound(s.drop_last(), x, eta_of(s.last()));
        let inner = stable_insert(s.drop_last(), x);
        assert forall|i: int, j: int|
            0 <= i < j < inner.push(s.last()).len() implies eta_of(inner.push(s.last())[i])
            <= eta_of(inner.push(s.last())[j]) by {
            if j < inner.len() {
            } else {
                assert(eta_of(inner[i]) <= eta_of(s.last()));
            }
        }
    }
}

/// The stable sort sorts.
proof fn lemma_stable_sort_sorted(s: Seq<TimedArrival>)
    ensures
        sorted_by_eta(stable_sort(s)),
    decreases s.len(),
{
    if s.len() == 0 {
    } else {
        lemma_stable_sort_sorted(s.drop_last());
        lemma_stable_insert_sorted(stable_sort(s.drop_last()), s.last());
    }
}

/// On a sorted sequence, a stable insert is an insert at the boundary
/// between the keys not above `x`'s and those above it.
proof fn lemma_stable_insert_position(s: Seq<TimedArrival>, x: TimedArrival, k: int)
    requires
        sorted_by_eta(s),
        0 <= k <= s.len(),
        forall|i: int| 0 <= i < k ==> eta_of(#[trigger] s[i]) <= eta_of(x),
        forall|i: int| k <= i < s.len() ==> eta_of(#[trigger] s[i]) > eta_of(x),
    ensures
        stable_insert(s, x) == s.insert(k, x),
    decreases s.len(),
{
    if s.len() == 0 {
        assert(stable_insert(s, x) =~= s.insert(0, x));
    } else if eta_of(s.last()) <= eta_of(x) {
        assert(k == s.len());
        assert(s.push(x) =~= s.insert(k, x));
    } else {
        assert(sorted_by_eta(s.drop_last()));
        assert(k < s.len());
        lemma_stable_insert_position(s.drop_last(), x, k);
        assert(s.drop_last().insert(k, x).push(s.last()) =~= s.insert(k, x));
    }
}

/// Insert `x` into the sorted `v`, behind every entry whose key does not
/// exceed its own.
pub fn insert_by_eta(v: &mut Vec<TimedArrival>, x: TimedArrival)
    requires
        sorted_by_eta(old(v)@),
    ensures
        final(v)@ == stable_insert(old(v)@, x),
        sorted_by_eta(final(v)@),
{
    let mut j: usize = v.len();
    while j > 0 && v[j - 1].arrival.eta_seconds > x.arrival.eta_seconds
        invariant
            j <= v@.len(),
            v@ == old(v)@,
            sorted_by_eta(v@),
            forall|k: int| j as int <= k < v@.len() ==> eta_of(#[trigger] v@[k]) > eta_of(x),
        decreases j,
    {
        j = j - 1;
    }
    proof {
        assert forall|i: int| 0 <= i < j as int implies eta_of(#[trigger] v@[i]) <= eta_of(
            x,
        ) by {
            assert(eta_of(v@[i]) <= eta_of(v@[j - 1]));
        }
        lemma_stable_insert_position(v@, x, j as int);
        lemma_stable_insert_sorted(v@, x);
    }
    v.insert(j, x);
}

/// Sort timed arrivals ascending by fetch-time seconds-to-arrival,
/// keeping entries with equal keys in their original order.
pub fn sort_by_eta(v: &Vec<TimedArrival>) -> (r: Vec<TimedArrival>)
    ensures
        r@ == stable_sort(v@),
        sorted_by_eta(r@),
{
    let mut r: Vec<TimedArrival> = Vec::new();
    let mut i: usize = 0;
    while i < v.len()
        invariant
            i <= v@.len(),
            r@ == stable_sort(v@.take(i as int)),
            sorted_by_eta(r@),
        decreases v@.len() - i,
    {
        insert_by_eta(&mut r, v[i].clone());
        proof {
            assert(v@.take(i + 1 as int).drop_last() =~= v@.take(i as int));
            assert(v@.take(i + 1 as int).last() == v@[i as int]);
        }
        i = i + 1;
    }
    assert(v@.take(v@.len() as int) =~= v@);
    r
}

/// All arrivals of one stop's response, the groups' lists laid end to end.
pub open spec fn flatten_groups(gs: Seq<ArrivalGroup>) -> Seq<Arrival>
    decreases gs.len(),
{
    if gs.len() == 0 {
        Seq::empty()
    } else {
        flatten_groups(gs.drop_last()) + gs.last().arrivals@
    }
}

/// Each arrival stamped with the instant `t`.
pub open spec fn stamp_all(s: Seq<Arrival>, t: Instant) -> Seq<TimedArrival> {
    Seq::new(s.len(), |i: int| TimedArrival { read_time: t, arrival: s[i] })
}

/// One stop's response flattened, stamped with the instant its fetch
/// completed, and sorted ascending by seconds-to-arrival. Every entry
/// carries that one instant: the pairing the renderer's projection needs.
pub fn collect_stop_arrivals(groups: &Vec<ArrivalGroup>, read_time: Instant) -> (r: Vec<
    TimedArrival,
>)
    ensures
        r@ == stable_sort(stamp_all(flatten_groups(groups@), read_time)),
        sorted_by_eta(r@),
        forall|i: int| 0 <= i < r@.len() ==> (#[trigger] r@[i]).read_time == read_time,
{
    let mut flat: Vec<TimedArrival> = Vec::new();
    let mut gi: usize = 0;
    while gi < groups.len()
        invariant
            gi <= groups@.len(),
            flat@ == stamp_all(flatten_groups(groups@.take(gi as int)), read_time),
        decreases groups@.len() - gi,
    {
        let glen: usize = groups[gi].arrivals.len();
        let mut ai: usize = 0;
        while ai < glen
            invariant
                gi < groups@.len(),
                glen == groups@[gi as int].arrivals@.len(),
                ai <= glen,
                flat@ == stamp_all(
                    flatten_groups(groups@.take(gi as int)) + groups@[gi as int].arrivals@.take(
                        ai as int,
                    ),
                    read_time,
                ),
            decreases glen - ai,
        {
            flat.push(
                TimedArrival {
                    read_time,
                    arrival: groups[gi].arrivals[ai].clone(),
                },
            );
            proof {
                let base = flatten_groups(groups@.take(gi as int));
                let arr = groups@[gi as int].arrivals@;
                assert(base + arr.take(ai + 1 as int) =~= (base + arr.take(ai as int)).push(
                    arr[ai as int],
                ));
                assert(flat@ =~= stamp_all(base + arr.take(ai + 1 as int), read_time));
            }
            ai = ai + 1;
        }
        proof {
            assert(groups@.take(gi + 1 as int).drop_last() =~= groups@.take(gi as int));
            assert(groups@[gi as int].arrivals@.take(glen as int) =~= groups@[gi as int].arrivals@);
        }
        gi = gi + 1;
    }
    assert(groups@.take(groups@.len() as int) =~= groups@);
    let r = sort_by_eta(&flat);
    proof {
        lemma_stable_sort_all(flat@, |t: TimedArrival| t.read_time == read_time);
    }
    r
}

/// All entries of the per-stop lists, laid end to end.
pub open spec fn flatten_batches(bs: Seq<Vec<TimedArrival>>) -> Seq<TimedArrival>
    decreases bs.len(),
{
    if bs.len() == 0 {
        Seq::empty()
    } else {
        flatten_batches(bs.drop_last()) + bs.last()@
    }
}

/// Only the entries backed by live vehicle tracking.
pub open spec fn tracked_only(s: Seq<TimedArrival>) -> Seq<TimedArrival>
    decreases s.len(),
{
    if s.len() == 0 {
        Seq::empty()
    } else if s.last().arrival.just_scheduled {
        tracked_only(s.drop_last())
    } else {
        tracked_only(s.drop_last()).push(s.last())
    }
}

/// Nothing schedule-only survives the filter.
proof fn lemma_tracked_only_all(s: Seq<TimedArrival>)
    ensures
        all_tracked(tracked_only(s)),
    decreases s.len(),
{
    if s.len() == 0 {
    } else {
        lemma_tracked_only_all(s.drop_last());
    }
}

/// What a successful cycle publishes: the per-stop lists flattened, the
/// schedule-only entries discarded, and the rest sorted ascending by
/// fetch-time seconds-to-arrival, entries with equal keys staying in
/// their flattened order.
pub open spec fn snapshot_of(bs: Seq<Vec<TimedArrival>>) -> Seq<TimedArrival> {
    stable_sort(tracked_only(flatten_batches(bs)))
}

/// Build the snapshot a fully successful cycle publishes. The result is
/// sorted ascending by fetch-time seconds-to-arrival and holds no
/// schedule-only entries.
pub fn build_snapshot(batches: &Vec<Vec<TimedArrival>>) -> (r: Vec<TimedArrival>)
    ensures
        r@ == snapshot_of(batches@),
        sorted_by_eta(r@),
        all_tracked(r@),
{
    let mut kept: Vec<TimedArrival> = Vec::new();
    let mut bi: usize = 0;
    while bi < batches.len()
        invariant
            bi <= batches@.len(),
            kept@ == tracked_only(flatten_batches(batches@.take(bi as int))),
        decreases batches@.len() - bi,
    {
        let blen: usize = batches[bi].len();
        let mut ei: usize = 0;
        while ei < blen
            invariant
                bi < batches@.len(),
                blen == batches@[bi as int]@.len(),
                ei <= blen,
                kept@ == tracked_only(
                    flatten_batches(batches@.take(bi as int)) + batches@[bi as int]@.take(
                        ei as int,
                    ),
                ),
            decreases blen - ei,
        {
            proof {
                let base = flatten_batches(batches@.take(bi as int));
                let batch = batches@[bi as int]@;
                assert((base + batch.take(ei + 1 as int)).drop_last() =~= base + batch.take(
                    ei as int,
                ));
                assert((base + batch.take(ei + 1 as int)).last() == batch[ei as int]);
            }
            if !batches[bi][ei].arrival.just_scheduled {
                kept.push(batches[bi][ei].clone());
            }
            ei = ei + 1;
        }
        proof {
            assert(batches@.take(bi + 1 as int).drop_last() =~= batches@.take(bi as int));
            assert(batches@[bi as int]@.take(blen as int) =~= batches@[bi as int]@);
        }
        bi = bi + 1;
    }
    assert(batches@.take(batches@.len() as int) =~= batches@);
    let r = sort_by_eta(&kept);
    proof {
        lemma_tracked_only_all(flatten_batches(batches@));
        lemma_stable_sort_all(kept@, |t: TimedArrival| !t.arrival.just_scheduled);
    }
    r
}

/// The shared recent-arrivals snapshot. The poller is its sole writer and
/// replaces the whole list at once; the renderer only reads it. The lock
/// that arbitrates the two lives outside the crate.
pub struct SnapshotStore {
    pub list: Vec<TimedArrival>,
}

impl SnapshotStore {
    /// A snapshot is always sorted and never carries schedule-only entries.
    pub open spec fn wf(&self) -> bool {
        sorted_by_eta(self.list@) && all_tracked(self.list@)
    }

    /// The state at startup: no arrivals yet.
    pub fn new() -> (r: Self)
        ensures
            r.list@ == Seq::<TimedArrival>::empty(),
            r.wf(),
    {
        SnapshotStore { list: Vec::new() }
    }

    /// Apply one poll cycle's outcome. A cycle that failed for any stop
    /// leaves the snapshot exactly as it was; a cycle that succeeded for
    /// every stop replaces it with that cycle's snapshot, all at once.
    pub fn apply_cycle(&mut self, outcome: Result<Vec<Vec<TimedArrival>>, FetchError>)
        requires
            old(self).wf(),
        ensures
            final(self).wf(),
            outcome matches Err(_) ==> final(self).list@ == old(self).list@,
            outcome matches Ok(batches) ==> final(self).list@ == snapshot_of(batches@),
    {
        match outcome {
            Err(_) => {},
            Ok(batches) => {
                self.list = build_snapshot(&batches);
            },
        }
    }
}

} // verus!
