use event_bus::dispatch::{apply_request, execute_bus_requests, Progress};
use event_bus::handle::{
    directive, remove_looked_up, retain_flagged, scan_lookups, Delivering, Delivery, Lookup, SubscriberHandle,
};
use uuid::Uuid;
use event_bus::types::{BusRequest, EventDispatchResult};
use std::cell::RefCell;

/// A handle that answers with a fixed directive, or is stale.
struct Scripted {
    id: u32,
    reply: BusRequest,
    live: bool,
}

/// The event of a scripted walk; it records which handles were reached.
struct Walk {
    reached: RefCell<Vec<u32>>,
}

impl SubscriberHandle<Walk> for Scripted {
    fn lookup(&self) -> Lookup {
        Lookup::Unreadable
    }

    fn deliver(&self, walk: &Walk) -> Delivery {
        if !self.live {
            return Delivery::Stale;
        }
        walk.reached.borrow_mut().push(self.id);
        Delivery::Replied(self.reply)
    }

    fn deliver_blocking(&self, walk: &Walk) -> Delivery {
        self.deliver(walk)
    }

    fn is_live(&self) -> bool {
        self.live
    }
}

fn list(replies: &[(u32, BusRequest)]) -> Vec<Scripted> {
    replies.iter().map(|&(id, reply)| Scripted { id, reply, live: true }).collect()
}

fn ids(list: &[Scripted]) -> Vec<u32> {
    list.iter().map(|s| s.id).collect()
}

/// Walks `list` once; returns the result, the handles reached and whether a
/// stale handle was met.
fn walk(list: &mut Vec<Scripted>) -> (EventDispatchResult, Vec<u32>, bool) {
    let w = Walk { reached: RefCell::new(Vec::new()) };
    let mut d = Delivering::new(&w, false);
    let r = execute_bus_requests(list, &mut d);
    let stale = d.stale_seen;
    (r, w.reached.into_inner(), stale)
}

const OK: BusRequest = BusRequest::NoActionNeeded;

#[test]
fn all_entries_visited_once_in_order() {
    let mut l = list(&[(1, OK), (2, OK), (3, OK), (4, OK)]);
    let (r, reached, stale) = walk(&mut l);
    assert_eq!(r, EventDispatchResult::Finished);
    assert_eq!(reached, vec![1, 2, 3, 4]);
    assert_eq!(ids(&l), vec![1, 2, 3, 4]);
    assert!(!stale);
}

#[test]
fn empty_list_finishes() {
    let mut l = list(&[]);
    let (r, reached, _) = walk(&mut l);
    assert_eq!(r, EventDispatchResult::Finished);
    assert!(reached.is_empty());
}

#[test]
fn unsubscribe_swaps_in_last_entry_and_visits_it_next() {
    let mut l = list(&[(1, BusRequest::Unsubscribe), (2, OK), (3, OK), (4, OK)]);
    let (r, reached, _) = walk(&mut l);
    assert_eq!(r, EventDispatchResult::Finished);
    assert_eq!(reached, vec![1, 4, 2, 3]);
    assert_eq!(ids(&l), vec![4, 2, 3]);
}

#[test]
fn unsubscribing_every_entry_empties_the_list() {
    let u = BusRequest::Unsubscribe;
    let mut l = list(&[(1, u), (2, u), (3, u)]);
    let (r, reached, _) = walk(&mut l);
    assert_eq!(r, EventDispatchResult::Finished);
    assert_eq!(reached, vec![1, 3, 2]);
    assert!(l.is_empty());
}

#[test]
fn do_not_propagate_stops_and_keeps_entry() {
    let mut l = list(&[(1, OK), (2, BusRequest::DoNotPropagate), (3, OK)]);
    let (r, reached, _) = walk(&mut l);
    assert_eq!(r, EventDispatchResult::Stopped);
    assert_eq!(reached, vec![1, 2]);
    assert_eq!(ids(&l), vec![1, 2, 3]);
}

#[test]
fn unsubscribe_and_stop_removes_then_stops() {
    let mut l = list(&[(1, BusRequest::UnsubscribeAndDoNotPropagate), (2, OK), (3, OK)]);
    let (r, reached, _) = walk(&mut l);
    assert_eq!(r, EventDispatchResult::Stopped);
    assert_eq!(reached, vec![1]);
    assert_eq!(ids(&l), vec![3, 2]);
}

#[test]
fn failures_are_counted_and_entries_kept() {
    let f = BusRequest::DispatchFailed;
    let mut l = list(&[(1, f), (2, OK), (3, f)]);
    let (r, reached, _) = walk(&mut l);
    assert_eq!(r, EventDispatchResult::FinishedWithFailures(2));
    assert_eq!(reached, vec![1, 2, 3]);
    assert_eq!(ids(&l), vec![1, 2, 3]);
}

#[test]
fn stale_handle_is_passed_over_and_flagged() {
    let mut l = list(&[(1, OK), (2, OK), (3, OK)]);
    l[1].live = false;
    let (r, reached, stale) = walk(&mut l);
    assert_eq!(r, EventDispatchResult::Finished);
    assert_eq!(reached, vec![1, 3]);
    assert!(stale);
    assert_eq!(ids(&l), vec![1, 2, 3]);
}

#[test]
fn delivery_outcomes_map_to_directives() {
    assert_eq!(directive(Delivery::Stale), (BusRequest::NoActionNeeded, true));
    assert_eq!(directive(Delivery::Failed), (BusRequest::DispatchFailed, false));
    assert_eq!(
        directive(Delivery::Replied(BusRequest::Unsubscribe)),
        (BusRequest::Unsubscribe, false)
    );
}

#[test]
fn each_directive_steps_as_documented() {
    let mut l = vec![10, 20, 30];
    assert_eq!(
        apply_request(&mut l, 1, 0, BusRequest::NoActionNeeded),
        Progress::Next { idx: 2, failures: 0 }
    );
    assert_eq!(l, vec![10, 20, 30]);
    assert_eq!(
        apply_request(&mut l, 1, 1, BusRequest::DispatchFailed),
        Progress::Next { idx: 2, failures: 2 }
    );
    assert_eq!(
        apply_request(&mut l, 0, 0, BusRequest::DoNotPropagate),
        Progress::Done(EventDispatchResult::Stopped)
    );
    assert_eq!(l, vec![10, 20, 30]);
    assert_eq!(
        apply_request(&mut l, 0, 0, BusRequest::Unsubscribe),
        Progress::Next { idx: 0, failures: 0 }
    );
    assert_eq!(l, vec![30, 20]);
    assert_eq!(
        apply_request(&mut l, 1, 0, BusRequest::UnsubscribeAndDoNotPropagate),
        Progress::Done(EventDispatchResult::Stopped)
    );
    assert_eq!(l, vec![30]);
}

#[test]
fn scan_finds_first_match_and_stale_before_it() {
    let id = |n: u128| Uuid::from_u128(n);
    let looks = vec![
        Lookup::Unreadable,
        Lookup::Found(id(2)),
        Lookup::Found(id(1)),
        Lookup::Stale,
        Lookup::Found(id(1)),
    ];
    assert_eq!(scan_lookups(&looks, &id(1)), (Some(2), false));
    assert_eq!(scan_lookups(&looks, &id(9)), (None, true));
    let looks = vec![Lookup::Stale, Lookup::Found(id(1))];
    assert_eq!(scan_lookups(&looks, &id(1)), (Some(1), true));
    assert_eq!(scan_lookups(&Vec::new(), &id(1)), (None, false));
}

#[test]
fn retain_keeps_flagged_entries_in_order() {
    let mut l = vec![1, 2, 3, 4, 5];
    retain_flagged(&mut l, &vec![true, false, true, false, true]);
    assert_eq!(l, vec![1, 3, 5]);
    let mut l = vec![1, 2];
    retain_flagged(&mut l, &vec![false, false]);
    assert!(l.is_empty());
}

#[test]
fn looked_up_match_is_removed_and_stale_purged() {
    let id = |n: u128| Uuid::from_u128(n);
    let mut l = list(&[(1, OK), (2, OK), (3, OK)]);
    l[0].live = false;
    let looks = vec![Lookup::Stale, Lookup::Found(id(2)), Lookup::Found(id(3))];
    assert!(remove_looked_up(&mut l, &looks, &id(2)));
    assert_eq!(ids(&l), vec![3]);

    let mut l = list(&[(1, OK), (2, OK), (3, OK)]);
    let looks = vec![Lookup::Found(id(1)), Lookup::Found(id(2)), Lookup::Found(id(3))];
    assert!(!remove_looked_up(&mut l, &looks, &id(7)));
    assert_eq!(ids(&l), vec![1, 2, 3]);
    assert!(remove_looked_up(&mut l, &looks, &id(1)));
    assert_eq!(ids(&l), vec![3, 2]);
}
