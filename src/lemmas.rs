//! Facts about traversals and dispatches, proved from the definitions that
//! the registries' contracts use.
use vstd::prelude::*;
use crate::bus::dispatched;
use crate::dispatch::{cleaned, delivered, run, swap_removed, traversal, Visit};
use crate::handle::{any_stale, directive_of, keep_where, replies_match, Delivery};
use crate::bus::delivered_as;
use crate::priority::prioritized;
use crate::types::{finished_with, BusRequest, EventDispatchResult};

verus! {

/// `x` stands in `s` at some index from `lo` on.
pub open spec fn occurs_from<H>(s: Seq<H>, lo: int, x: H) -> bool {
    exists|m: int| lo <= m < s.len() && s[m] == x
}

/// The handles of a trace, in visiting order.
pub open spec fn visited<H>(t: Seq<Visit<H>>) -> Seq<H> {
    t.map_values(|v: Visit<H>| v.0)
}

/// The number of failed deliveries in a trace.
pub open spec fn failed_in<H>(t: Seq<Visit<H>>) -> nat
    decreases t.len(),
{
    if t.len() == 0 {
        0
    } else {
        (if t[0].1 is DispatchFailed {
            1nat
        } else {
            0nat
        }) + failed_in(t.drop_first())
    }
}

proof fn lemma_swap_removed<H>(s: Seq<H>, i: int)
    requires
        0 <= i < s.len(),
    ensures
        swap_removed(s, i).len() == s.len() - 1,
        forall|m: int| i <= m < s.len() - 1 ==> occurs_from(s, i + 1, #[trigger] swap_removed(s, i)[m]),
        forall|m: int| 0 <= m < s.len() - 1 ==> occurs_from(s, 0, #[trigger] swap_removed(s, i)[m]),
        s.no_duplicates() ==> swap_removed(s, i).no_duplicates(),
        s.no_duplicates() ==> !occurs_from(swap_removed(s, i), 0, s[i]),
{
    let t = swap_removed(s, i);
    assert forall|m: int| i <= m < s.len() - 1 implies occurs_from(s, i + 1, #[trigger] t[m]) by {
        if m == i {
            assert(s[s.len() - 1] == t[m]);
        } else {
            assert(s[m] == t[m]);
        }
    }
    assert forall|m: int| 0 <= m < s.len() - 1 implies occurs_from(s, 0, #[trigger] t[m]) by {
        if m == i {
            assert(s[s.len() - 1] == t[m]);
        } else {
            assert(s[m] == t[m]);
        }
    }
    if s.no_duplicates() {
        assert forall|a: int, b: int| 0 <= a < t.len() && 0 <= b < t.len() && a != b implies t[a] != t[b] by {
            let sa = if a == i { s.len() - 1 } else { a };
            let sb = if b == i { s.len() - 1 } else { b };
            assert(t[a] == s[sa]);
            assert(t[b] == s[sb]);
        }
        if occurs_from(t, 0, s[i]) {
            let m = choose|m: int| 0 <= m < t.len() && t[m] == s[i];
            let sm = if m == i { s.len() - 1 } else { m };
            assert(t[m] == s[sm]);
        }
    }
}

/// What any traversal from `idx` satisfies: it visits only entries at `idx`
/// or later, leaves behind only entries of the list, never reports
/// `NotNeeded`, and on a list without duplicates visits each handle at most
/// once and leaves a list without duplicates.
pub proof fn lemma_run_facts<H>(cur: Seq<H>, idx: int, f: nat, t: Seq<Visit<H>>)
    requires
        run(cur, idx, f, t) is Some,
    ensures
        forall|j: int| 0 <= j < t.len() ==> occurs_from(cur, idx, #[trigger] t[j].0),
        forall|m: int| 0 <= m < run(cur, idx, f, t).unwrap().0.len()
            ==> occurs_from(cur, 0, #[trigger] run(cur, idx, f, t).unwrap().0[m]),
        !(run(cur, idx, f, t).unwrap().1 is NotNeeded),
        cur.no_duplicates() ==> run(cur, idx, f, t).unwrap().0.no_duplicates(),
        cur.no_duplicates() ==> visited(t).no_duplicates(),
    decreases t.len(),
{
    let fin = run(cur, idx, f, t).unwrap().0;
    if idx == cur.len() {
        assert(t.len() == 0);
        assert forall|m: int| 0 <= m < fin.len() implies occurs_from(cur, 0, #[trigger] fin[m]) by {
            assert(fin[m] == cur[m]);
        }
        assert(visited(t) =~= Seq::<H>::empty());
    } else {
        let rest = t.drop_first();
        let h = t[0].0;
        assert(h == cur[idx]);
        let (next, nidx, nf) = match t[0].1 {
            BusRequest::Unsubscribe => (swap_removed(cur, idx), idx, f),
            BusRequest::UnsubscribeAndDoNotPropagate => (swap_removed(cur, idx), idx, f),
            BusRequest::DispatchFailed => (cur, idx + 1, f + 1),
            _ => (cur, idx + 1, f),
        };
        lemma_swap_removed(cur, idx);
        assert(visited(t) =~= seq![h] + visited(rest));
        if t[0].1.halts() {
            assert(rest.len() == 0);
            assert(visited(rest) =~= Seq::<H>::empty());
            assert forall|m: int| 0 <= m < fin.len() implies occurs_from(cur, 0, #[trigger] fin[m]) by {
                if t[0].1 is DoNotPropagate {
                    assert(fin[m] == cur[m]);
                }
            }
            if cur.no_duplicates() {
                assert(visited(t) =~= seq![h]);
            }
        } else {
            assert(run(cur, idx, f, t) == run(next, nidx, nf, rest));
            lemma_run_facts(next, nidx, nf, rest);
            assert forall|j: int| 0 <= j < t.len() implies occurs_from(cur, idx, #[trigger] t[j].0) by {
                if j > 0 {
                    assert(t[j] == rest[j - 1]);
                    assert(occurs_from(next, nidx, rest[j - 1].0));
                    let m = choose|m: int| nidx <= m < next.len() && next[m] == rest[j - 1].0;
                    if t[0].1.removes() {
                        assert(occurs_from(cur, idx + 1, next[m]));
                    } else {
                        assert(next[m] == cur[m]);
                    }
                }
            }
            assert forall|m: int| 0 <= m < fin.len() implies occurs_from(cur, 0, #[trigger] fin[m]) by {
                assert(occurs_from(next, 0, fin[m]));
                let q = choose|q: int| 0 <= q < next.len() && next[q] == fin[m];
                if t[0].1.removes() {
                    assert(occurs_from(cur, 0, next[q]));
                } else {
                    assert(next[q] == cur[q]);
                }
            }
            if cur.no_duplicates() {
                let vr = visited(rest);
                assert forall|j: int| 0 <= j < vr.len() implies #[trigger] vr[j] != h by {
                    assert(vr[j] == rest[j].0);
                    assert(occurs_from(next, nidx, rest[j].0));
                    let m = choose|m: int| nidx <= m < next.len() && next[m] == rest[j].0;
                    if t[0].1.removes() {
                        assert(!occurs_from(next, 0, cur[idx]));
                    } else {
                        assert(next[m] == cur[m]);
                    }
                }
                let vt = visited(t);
                assert forall|a: int, b: int| 0 <= a < vt.len() && 0 <= b < vt.len() && a != b implies vt[a]
                    != vt[b] by {
                    if a == 0 {
                        assert(vt[b] == vr[b - 1]);
                    } else if b == 0 {
                        assert(vt[a] == vr[a - 1]);
                    } else {
                        assert(vt[a] == vr[a - 1]);
                        assert(vt[b] == vr[b - 1]);
                    }
                }
            }
        }
    }
}

proof fn lemma_run_plain<H>(cur: Seq<H>, idx: int, f: nat, t: Seq<Visit<H>>)
    requires
        run(cur, idx, f, t) is Some,
        0 <= idx,
        forall|j: int| 0 <= j < t.len() ==> #[trigger] t[j].1 is NoActionNeeded || t[j].1 is DispatchFailed,
    ensures
        visited(t) == cur.subrange(idx, cur.len() as int),
        run(cur, idx, f, t) == Some((cur, finished_with(f + failed_in(t)))),
    decreases t.len(),
{
    if idx == cur.len() {
        assert(visited(t) =~= cur.subrange(idx, cur.len() as int));
    } else {
        let rest = t.drop_first();
        assert(t[0].1 is NoActionNeeded || t[0].1 is DispatchFailed);
        assert forall|j: int| 0 <= j < rest.len() implies #[trigger] rest[j].1 is NoActionNeeded
            || rest[j].1 is DispatchFailed by {
            assert(rest[j] == t[j + 1]);
        }
        let nf = if t[0].1 is DispatchFailed { f + 1 } else { f };
        lemma_run_plain(cur, idx + 1, nf, rest);
        assert(visited(t) =~= seq![t[0].0] + visited(rest));
        assert(cur.subrange(idx, cur.len() as int) =~= seq![cur[idx]] + cur.subrange(idx + 1, cur.len() as int));
    }
}

/// When no subscriber asks to be removed or to stop propagation, a traversal
/// visits every entry of the list exactly once, in list order, leaves the
/// list as it was, and finishes with the number of failed deliveries.
pub proof fn lemma_all_visited_once<H>(
    list: Seq<H>,
    trace: Seq<Visit<H>>,
    after: Seq<H>,
    r: EventDispatchResult,
)
    requires
        traversal(list, trace, after, r),
        forall|j: int|
            0 <= j < trace.len() ==> #[trigger] trace[j].1 is NoActionNeeded || trace[j].1 is DispatchFailed,
    ensures
        visited(trace) == list,
        trace.len() == list.len(),
        after == list,
        r == finished_with(failed_in(trace)),
{
    lemma_run_plain(list, 0, 0, trace);
    assert(list.subrange(0, list.len() as int) =~= list);
    assert(failed_in(trace) + 0 == failed_in(trace));
}

proof fn lemma_run_removes<H>(cur: Seq<H>, idx: int, f: nat, t: Seq<Visit<H>>, k: int)
    requires
        run(cur, idx, f, t) is Some,
        cur.no_duplicates(),
        0 <= k < t.len(),
        t[k].1.removes(),
    ensures
        !occurs_from(run(cur, idx, f, t).unwrap().0, 0, t[k].0),
    decreases t.len(),
{
    let rest = t.drop_first();
    let fin = run(cur, idx, f, t).unwrap().0;
    lemma_swap_removed(cur, idx);
    if k == 0 {
        let next = swap_removed(cur, idx);
        if t[0].1 is Unsubscribe {
            assert(run(cur, idx, f, t) == run(next, idx, f, rest));
            lemma_run_facts(next, idx, f, rest);
            if occurs_from(fin, 0, t[0].0) {
                let m = choose|m: int| 0 <= m < fin.len() && fin[m] == t[0].0;
                assert(occurs_from(next, 0, fin[m]));
            }
        }
    } else {
        assert(t[k] == rest[k - 1]);
        let (next, nidx, nf) = match t[0].1 {
            BusRequest::Unsubscribe => (swap_removed(cur, idx), idx, f),
            BusRequest::DispatchFailed => (cur, idx + 1, f + 1),
            _ => (cur, idx + 1, f),
        };
        assert(!t[0].1.halts());
        assert(run(cur, idx, f, t) == run(next, nidx, nf, rest));
        lemma_run_removes(next, nidx, nf, rest, k - 1);
    }
}

proof fn lemma_keep_where_from<H>(s: Seq<H>, keep: Seq<bool>)
    ensures
        forall|m: int| 0 <= m < keep_where(s, keep).len() ==> occurs_from(s, 0, #[trigger] keep_where(s, keep)[m]),
    decreases s.len(),
{
    let kw = keep_where(s, keep);
    if s.len() == 0 || keep.len() != s.len() {
        assert forall|m: int| 0 <= m < kw.len() implies occurs_from(s, 0, #[trigger] kw[m]) by {
            assert(kw[m] == s[m]);
        }
    } else {
        let sd = s.drop_last();
        lemma_keep_where_from(sd, keep.drop_last());
        let rest = keep_where(sd, keep.drop_last());
        assert forall|m: int| 0 <= m < kw.len() implies occurs_from(s, 0, #[trigger] kw[m]) by {
            if m < rest.len() {
                assert(kw[m] == rest[m]);
                assert(occurs_from(sd, 0, rest[m]));
                let q = choose|q: int| 0 <= q < sd.len() && sd[q] == rest[m];
                assert(s[q] == sd[q]);
            } else {
                assert(kw[m] == s[s.len() - 1]);
            }
        }
    }
}

/// On a list without duplicates, a subscriber that answers `Unsubscribe`
/// (or `UnsubscribeAndDoNotPropagate`) is gone from the list the traversal
/// leaves, and no later traversal of what the cleanup keeps of that list
/// visits it.
pub proof fn lemma_unsubscribed_not_visited_again<H>(
    list: Seq<H>,
    trace: Seq<Visit<H>>,
    after: Seq<H>,
    r: EventDispatchResult,
    k: int,
    outcomes: Seq<Delivery>,
    live: Seq<bool>,
    trace2: Seq<Visit<H>>,
    after2: Seq<H>,
    r2: EventDispatchResult,
)
    requires
        list.no_duplicates(),
        traversal(list, trace, after, r),
        0 <= k < trace.len(),
        trace[k].1.removes(),
        traversal(cleaned(after, outcomes, live), trace2, after2, r2),
    ensures
        !occurs_from(after, 0, trace[k].0),
        forall|j: int| 0 <= j < trace2.len() ==> #[trigger] trace2[j].0 != trace[k].0,
{
    lemma_run_removes(list, 0, 0, trace, k);
    let kept = cleaned(after, outcomes, live);
    lemma_run_facts(kept, 0, 0, trace2);
    lemma_keep_where_from(after, live);
    assert forall|j: int| 0 <= j < trace2.len() implies #[trigger] trace2[j].0 != trace[k].0 by {
        assert(occurs_from(kept, 0, trace2[j].0));
        let m = choose|m: int| 0 <= m < kept.len() && kept[m] == trace2[j].0;
        assert(occurs_from(after, 0, kept[m]));
    }
}

proof fn lemma_run_halts<H>(cur: Seq<H>, idx: int, f: nat, t: Seq<Visit<H>>, k: int)
    requires
        run(cur, idx, f, t) is Some,
        0 <= k < t.len(),
        t[k].1.halts(),
    ensures
        k == t.len() - 1,
        run(cur, idx, f, t).unwrap().1 is Stopped,
    decreases t.len(),
{
    let rest = t.drop_first();
    if k > 0 {
        assert(t[k] == rest[k - 1]);
        let (next, nidx, nf) = match t[0].1 {
            BusRequest::Unsubscribe => (swap_removed(cur, idx), idx, f),
            BusRequest::DispatchFailed => (cur, idx + 1, f + 1),
            _ => (cur, idx + 1, f),
        };
        if !t[0].1.halts() {
            assert(run(cur, idx, f, t) == run(next, nidx, nf, rest));
            lemma_run_halts(next, nidx, nf, rest, k - 1);
        }
    }
}

/// A subscriber that answers `DoNotPropagate` (or
/// `UnsubscribeAndDoNotPropagate`) is the last one visited and the result is
/// `Stopped`; on a list without duplicates, every subscriber visited before
/// it was visited exactly once.
pub proof fn lemma_halt_ends_traversal<H>(
    list: Seq<H>,
    trace: Seq<Visit<H>>,
    after: Seq<H>,
    r: EventDispatchResult,
    k: int,
)
    requires
        traversal(list, trace, after, r),
        0 <= k < trace.len(),
        trace[k].1.halts(),
    ensures
        k == trace.len() - 1,
        r is Stopped,
        list.no_duplicates() ==> visited(trace).no_duplicates(),
{
    lemma_run_halts(list, 0, 0, trace, k);
    lemma_run_facts(list, 0, 0, trace);
}

/// A flat dispatch reports `NotNeeded` exactly when no channel exists for the
/// event's category.
pub proof fn lemma_not_needed_iff_no_channel<T, H>(
    before: Map<T, Seq<H>>,
    after: Map<T, Seq<H>>,
    c: T,
    r: EventDispatchResult,
)
    requires
        dispatched(before, after, c, r),
    ensures
        r is NotNeeded <==> !before.contains_key(c),
{
    if before.contains_key(c) {
        let list = choose|list: Seq<H>| after == before.insert(c, list) && #[trigger] delivered(before[c], list, r);
        let (trace, outcomes, live, mid) = choose|
            trace: Seq<Visit<H>>,
            outcomes: Seq<Delivery>,
            live: Seq<bool>,
            mid: Seq<H>,
        |
            #![trigger traversal(before[c], trace, mid, r), cleaned(mid, outcomes, live)]
            traversal(before[c], trace, mid, r) && replies_match(trace, outcomes) && live.len() == mid.len()
                && list == cleaned(mid, outcomes, live);
        lemma_run_facts(before[c], 0, 0, trace);
    }
}

/// In a prioritized dispatch, a bucket that reports `Stopped` is the last
/// bucket walked: every later bucket is left untouched and the result is
/// `Stopped`.
pub proof fn lemma_stop_is_global<P, H>(
    before: Seq<(P, Seq<H>)>,
    after: Seq<(P, Seq<H>)>,
    k: int,
    rs: Seq<EventDispatchResult>,
    r: EventDispatchResult,
    j: int,
)
    requires
        prioritized(before, after, k, rs, r),
        0 <= j < k,
        rs[j] is Stopped,
    ensures
        j == k - 1,
        r is Stopped,
        forall|m: int| j < m < before.len() ==> #[trigger] after[m] == before[m],
{
}

/// In a prioritized dispatch where no bucket reports `Stopped`, every bucket
/// is walked, in ascending priority order, and the result is that of the
/// highest-priority-key bucket alone.
pub proof fn lemma_all_buckets_walked<P, H>(
    before: Seq<(P, Seq<H>)>,
    after: Seq<(P, Seq<H>)>,
    k: int,
    rs: Seq<EventDispatchResult>,
    r: EventDispatchResult,
)
    requires
        prioritized(before, after, k, rs, r),
        before.len() > 0,
        forall|j: int| 0 <= j < k ==> !(#[trigger] rs[j] is Stopped),
    ensures
        k == before.len(),
        r == rs[k - 1],
        forall|j: int| 0 <= j < k ==> delivered(before[j].1, after[j].1, #[trigger] rs[j]),
{
}

/// A dispatch through a registry channel in which every delivery reached its
/// subscriber and none asked to be removed or to stop propagation visits
/// every handle of the channel exactly once, in order, leaves the channel
/// as it was, and finishes with the number of failed deliveries.
pub proof fn lemma_dispatch_all_invoked_once<H>(
    before: Seq<H>,
    after: Seq<H>,
    r: EventDispatchResult,
    trace: Seq<Visit<H>>,
    outcomes: Seq<Delivery>,
)
    requires
        delivered_as(before, after, r, trace, outcomes),
        replies_match(trace, outcomes),
        forall|j: int|
            0 <= j < outcomes.len() ==> #[trigger] outcomes[j] == Delivery::Replied(BusRequest::NoActionNeeded)
                || outcomes[j] is Failed,
    ensures
        visited(trace) == before,
        after == before,
        r == finished_with(failed_in(trace)),
{
    let (live, mid) = choose|live: Seq<bool>, mid: Seq<H>|
        #![trigger traversal(before, trace, mid, r), cleaned(mid, outcomes, live)]
        traversal(before, trace, mid, r) && live.len() == mid.len() && after == cleaned(mid, outcomes, live);
    assert forall|j: int| 0 <= j < trace.len() implies #[trigger] trace[j].1 is NoActionNeeded
        || trace[j].1 is DispatchFailed by {
        assert(trace[j].1 == directive_of(outcomes[j]));
    }
    lemma_all_visited_once(before, trace, mid, r);
    if any_stale(outcomes) {
        let i = choose|i: int| 0 <= i < outcomes.len() && #[trigger] outcomes[i] is Stale;
        assert(outcomes[i] == Delivery::Replied(BusRequest::NoActionNeeded) || outcomes[i] is Failed);
    }
}

/// In a registry channel without duplicate handles, a subscriber that
/// answered `Unsubscribe` (or `UnsubscribeAndDoNotPropagate`) during a
/// dispatch is not in the channel afterwards, and the next dispatch through
/// that channel does not visit it.
pub proof fn lemma_dispatch_unsubscribed_gone<H>(
    before: Seq<H>,
    after: Seq<H>,
    r: EventDispatchResult,
    trace: Seq<Visit<H>>,
    outcomes: Seq<Delivery>,
    k: int,
    after2: Seq<H>,
    r2: EventDispatchResult,
    trace2: Seq<Visit<H>>,
    outcomes2: Seq<Delivery>,
)
    requires
        before.no_duplicates(),
        delivered_as(before, after, r, trace, outcomes),
        0 <= k < trace.len(),
        trace[k].1.removes(),
        delivered_as(after, after2, r2, trace2, outcomes2),
    ensures
        !occurs_from(after, 0, trace[k].0),
        forall|j: int| 0 <= j < trace2.len() ==> #[trigger] trace2[j].0 != trace[k].0,
{
    let (live, mid) = choose|live: Seq<bool>, mid: Seq<H>|
        #![trigger traversal(before, trace, mid, r), cleaned(mid, outcomes, live)]
        traversal(before, trace, mid, r) && live.len() == mid.len() && after == cleaned(mid, outcomes, live);
    let (live2, mid2) = choose|live: Seq<bool>, mid: Seq<H>|
        #![trigger traversal(after, trace2, mid, r2), cleaned(mid, outcomes2, live)]
        traversal(after, trace2, mid, r2) && live.len() == mid.len() && after2 == cleaned(mid, outcomes2, live);
    lemma_run_removes(before, 0, 0, trace, k);
    lemma_keep_where_from(mid, live);
    if occurs_from(after, 0, trace[k].0) {
        let m = choose|m: int| 0 <= m < after.len() && after[m] == trace[k].0;
        assert(occurs_from(mid, 0, after[m]));
    }
    lemma_run_facts(after, 0, 0, trace2);
    assert forall|j: int| 0 <= j < trace2.len() implies #[trigger] trace2[j].0 != trace[k].0 by {
        assert(occurs_from(after, 0, trace2[j].0));
    }
}

} // verus!
