//! The propagation-control algorithm shared by every registry.
use vstd::prelude::*;
use crate::types::{finished_with, BusRequest, EventDispatchResult};
use crate::handle::{any_stale, keep_where, replies_match, Delivery};

verus! {

/// One visit of a traversal: the handle delivered to and the directive it answered.
pub type Visit<H> = (H, BusRequest);

/// `s` with its entry at `i` replaced by the last entry, then shortened by one.
pub open spec fn swap_removed<H>(s: Seq<H>, i: int) -> Seq<H> {
    s.update(i, s.last()).drop_last()
}

/// The traversal of `list` from index `idx` with `failures` failures so far,
/// when the visits are answered as `trace` records. `None` when `trace` is not
/// a possible record of such a traversal; otherwise the list left behind and
/// the aggregate result.
pub open spec fn run<H>(list: Seq<H>, idx: int, failures: nat, trace: Seq<Visit<H>>) -> Option<
    (Seq<H>, EventDispatchResult),
>
    decreases trace.len(),
{
    if idx < 0 || idx > list.len() {
        None
    } else if idx == list.len() {
        if trace.len() == 0 {
            Some((list, finished_with(failures)))
        } else {
            None
        }
    } else if trace.len() == 0 || trace[0].0 != list[idx] {
        None
    } else {
        let rest = trace.drop_first();
        match trace[0].1 {
            BusRequest::NoActionNeeded => run(list, idx + 1, failures, rest),
            BusRequest::Unsubscribe => run(swap_removed(list, idx), idx, failures, rest),
            BusRequest::DoNotPropagate => if rest.len() == 0 {
                Some((list, EventDispatchResult::Stopped))
            } else {
                None
            },
            BusRequest::UnsubscribeAndDoNotPropagate => if rest.len() == 0 {
                Some((swap_removed(list, idx), EventDispatchResult::Stopped))
            } else {
                None
            },
            BusRequest::DispatchFailed => run(list, idx + 1, failures + 1, rest),
        }
    }
}

/// A full traversal of `list` answered as `trace`, leaving `after` behind with
/// result `r`.
pub open spec fn traversal<H>(
    list: Seq<H>,
    trace: Seq<Visit<H>>,
    after: Seq<H>,
    r: EventDispatchResult,
) -> bool {
    run(list, 0, 0, trace) == Some((after, r))
}

/// The list left by the cleanup after a traversal that ended with `mid`:
/// when some delivery found its subscriber gone, only the handles that
/// `live` flags are kept.
pub open spec fn cleaned<H>(mid: Seq<H>, outcomes: Seq<Delivery>, live: Seq<bool>) -> Seq<H> {
    if any_stale(outcomes) {
        keep_where(mid, live)
    } else {
        mid
    }
}

/// What a traversal of `before` followed by the cleanup may leave behind,
/// with result `r`: each visit's directive is that of its delivery outcome,
/// and the cleanup runs exactly when an outcome was `Stale`.
pub open spec fn delivered<H>(before: Seq<H>, after: Seq<H>, r: EventDispatchResult) -> bool {
    exists|trace: Seq<Visit<H>>, outcomes: Seq<Delivery>, live: Seq<bool>, mid: Seq<H>|
        #![trigger traversal(before, trace, mid, r), cleaned(mid, outcomes, live)]
        traversal(before, trace, mid, r) && replies_match(trace, outcomes) && live.len() == mid.len()
            && after == cleaned(mid, outcomes, live)
}

/// The operation that delivers to one handle during a traversal. `visits`
/// records every attempt made, with the directive it gave.
pub trait Attempt<H> {
    spec fn visits(&self) -> Seq<Visit<H>>;

    /// What the operation keeps true of its own records.
    spec fn inv(&self) -> bool;

    /// `other` delivers what `self` delivers, in the same way.
    spec fn same_setup(&self, other: &Self) -> bool;

    proof fn lemma_setup_refl(a: &Self)
        ensures
            a.same_setup(a),
    ;

    proof fn lemma_setup_trans(a: &Self, b: &Self, c: &Self)
        requires
            a.same_setup(b),
            b.same_setup(c),
        ensures
            a.same_setup(c),
    ;

    fn attempt(&mut self, handle: &H) -> (r: BusRequest)
        requires
            old(self).inv(),
        ensures
            final(self).inv(),
            old(self).same_setup(final(self)),
            final(self).visits() == old(self).visits().push((*handle, r));
}

/// Where a traversal goes after acting on one directive.
#[derive(Debug, PartialEq, Eq, Structural, Clone, Copy)]
pub enum Progress {
    /// Go on at index `idx` with `failures` failures so far.
    Next { idx: usize, failures: u32 },
    /// The traversal is over, with this result.
    Done(EventDispatchResult),
}

/// Acts on the directive `request` that the entry at `idx` gave: advances,
/// swap-removes the entry (and stays at `idx`), counts a failure, or stops.
pub fn apply_request<H>(subscribers: &mut Vec<H>, idx: usize, failures: u32, request: BusRequest) -> (p:
    Progress)
    requires
        idx < old(subscribers).len() <= u32::MAX,
        failures <= idx,
    ensures
        final(subscribers)@ == if request.removes() {
            swap_removed(old(subscribers)@, idx as int)
        } else {
            old(subscribers)@
        },
        p == match request {
            BusRequest::NoActionNeeded => Progress::Next { idx: (idx + 1) as usize, failures },
            BusRequest::Unsubscribe => Progress::Next { idx, failures },
            BusRequest::DoNotPropagate => Progress::Done(EventDispatchResult::Stopped),
            BusRequest::UnsubscribeAndDoNotPropagate => Progress::Done(EventDispatchResult::Stopped),
            BusRequest::DispatchFailed => Progress::Next {
                idx: (idx + 1) as usize,
                failures: (failures + 1) as u32,
            },
        },
{
    match request {
        BusRequest::NoActionNeeded => Progress::Next { idx: idx + 1, failures },
        BusRequest::Unsubscribe => {
            subscribers.swap_remove(idx);
            assert(subscribers@ =~= swap_removed(old(subscribers)@, idx as int));
            Progress::Next { idx, failures }
        },
        BusRequest::DoNotPropagate => Progress::Done(EventDispatchResult::Stopped),
        BusRequest::UnsubscribeAndDoNotPropagate => {
            subscribers.swap_remove(idx);
            assert(subscribers@ =~= swap_removed(old(subscribers)@, idx as int));
            Progress::Done(EventDispatchResult::Stopped)
        },
        BusRequest::DispatchFailed => Progress::Next { idx: idx + 1, failures: failures + 1 },
    }
}

proof fn lemma_run_step<H>(list: Seq<H>, idx: int, failures: nat, v: Visit<H>, rest: Seq<Visit<H>>)
    requires
        0 <= idx < list.len(),
        v.0 == list[idx],
    ensures
        run(list, idx, failures, seq![v] + rest) == match v.1 {
            BusRequest::NoActionNeeded => run(list, idx + 1, failures, rest),
            BusRequest::Unsubscribe => run(swap_removed(list, idx), idx, failures, rest),
            BusRequest::DoNotPropagate => if rest.len() == 0 {
                Some((list, EventDispatchResult::Stopped))
            } else {
                None
            },
            BusRequest::UnsubscribeAndDoNotPropagate => if rest.len() == 0 {
                Some((swap_removed(list, idx), EventDispatchResult::Stopped))
            } else {
                None
            },
            BusRequest::DispatchFailed => run(list, idx + 1, failures + 1, rest),
        },
{
    let t = seq![v] + rest;
    assert(t.drop_first() =~= rest);
    assert(t[0] == v);
}

/// Walks `subscribers` from the front, asks `deliver` for each entry's
/// directive and acts on it: an unsubscribing entry is swap-removed and the
/// entry moved into its place is visited next, a halting directive ends the
/// walk with `Stopped`, a failed delivery is counted. A walk that reaches the
/// end reports `Finished`, or `FinishedWithFailures` with the count. The
/// attempts that `deliver` records during the call are exactly the visits of
/// that traversal.
pub fn execute_bus_requests<H, D: Attempt<H>>(subscribers: &mut Vec<H>, deliver: &mut D) -> (r:
    EventDispatchResult)
    requires
        old(subscribers).len() <= u32::MAX,
        old(deliver).inv(),
    ensures
        final(deliver).inv(),
        old(deliver).same_setup(final(deliver)),
        exists|trace: Seq<Visit<H>>|
            final(deliver).visits() == old(deliver).visits() + trace && #[trigger] traversal(
                old(subscribers)@,
                trace,
                final(subscribers)@,
                r,
            ),
        final(subscribers).len() <= old(subscribers).len(),
{
    let ghost orig = subscribers@;
    let ghost log0 = deliver.visits();
    proof {
        D::lemma_setup_refl(deliver);
    }
    let ghost mut trace: Seq<Visit<H>> = Seq::empty();
    let mut idx: usize = 0;
    let mut failures: u32 = 0;
    while idx < subscribers.len()
        invariant
            orig == old(subscribers)@,
            log0 == old(deliver).visits(),
            deliver.inv(),
            old(deliver).same_setup(deliver),
            deliver.visits() == log0 + trace,
            idx <= subscribers.len() <= orig.len() <= u32::MAX,
            failures <= idx,
            forall|rest: Seq<Visit<H>>| #[trigger]
                run(orig, 0, 0, trace + rest) == run(subscribers@, idx as int, failures as nat, rest),
        decreases subscribers.len() - idx,
    {
        let ghost d0 = *deliver;
        let request = deliver.attempt(&subscribers[idx]);
        proof {
            D::lemma_setup_trans(&*old(deliver), &d0, deliver);
        }
        let ghost v: Visit<H> = (subscribers@[idx as int], request);
        let ghost before = subscribers@;
        let ghost at = idx as int;
        let ghost fails = failures as nat;
        proof {
            assert forall|rest: Seq<Visit<H>>| #[trigger]
                run(orig, 0, 0, trace.push(v) + rest) == run(before, at, fails, seq![v] + rest) by {
                assert(trace.push(v) + rest =~= trace + (seq![v] + rest));
                assert(run(orig, 0, 0, trace + (seq![v] + rest)) == run(before, at, fails, seq![v] + rest));
            }
            assert(log0 + trace.push(v) =~= (log0 + trace).push(v));
            trace = trace.push(v);
        }
        match apply_request(subscribers, idx, failures, request) {
            Progress::Next { idx: next, failures: failed } => {
                proof {
                    assert forall|rest: Seq<Visit<H>>| #[trigger]
                        run(orig, 0, 0, trace + rest) == run(subscribers@, next as int, failed as nat, rest) by {
                        lemma_run_step(before, at, fails, v, rest);
                    }
                }
                idx = next;
                failures = failed;
            },
            Progress::Done(r) => {
                proof {
                    lemma_run_step(before, at, fails, v, Seq::empty());
                    assert(trace + Seq::<Visit<H>>::empty() =~= trace);
                    assert(traversal(orig, trace, subscribers@, r));
                }
                return r;
            },
        }
    }
    let r = if failures == 0 {
        EventDispatchResult::Finished
    } else {
        EventDispatchResult::FinishedWithFailures(failures)
    };
    proof {
        assert(trace + Seq::<Visit<H>>::empty() =~= trace);
        assert(run(subscribers@, idx as int, failures as nat, Seq::<Visit<H>>::empty()) == Some((subscribers@, r)));
        assert(traversal(orig, trace, subscribers@, r));
    }
    r
}

} // verus!
