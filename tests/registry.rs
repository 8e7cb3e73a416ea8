use event_bus::bus::{EventBus, Publisher};
use event_bus::handle::{Delivering, Delivery, Event, Lookup, Subscriber, SubscriberHandle};
use event_bus::priority::PriorityEventBus;
use event_bus::types::{BusRequest, EventDispatchResult};
use std::cell::{Cell, RefCell};
use std::rc::{Rc, Weak};
use std::sync::{Arc, RwLock};
use uuid::Uuid;

#[derive(Clone, Copy, PartialEq, Eq, Hash, Debug)]
enum Topic {
    Input,
    Window,
}

struct Ev(Topic);

impl Event<Topic> for Ev {
    fn category(&self) -> Topic {
        self.0
    }
}

struct Probe {
    id: Uuid,
    reply: Cell<BusRequest>,
    calls: Cell<u32>,
    log: Rc<RefCell<Vec<u128>>>,
}

impl Subscriber<Topic, Ev> for Probe {
    fn id(&self) -> &Uuid {
        &self.id
    }

    fn on_event(&self, _event: &Ev) -> BusRequest {
        self.calls.set(self.calls.get() + 1);
        self.log.borrow_mut().push(self.id.as_u128());
        self.reply.get()
    }
}

fn probe(n: u128, reply: BusRequest, log: &Rc<RefCell<Vec<u128>>>) -> Rc<Probe> {
    Rc::new(Probe {
        id: Uuid::from_u128(n),
        reply: Cell::new(reply),
        calls: Cell::new(0),
        log: log.clone(),
    })
}

struct RcHandle(Weak<dyn Subscriber<Topic, Ev>>);

fn handle(p: &Rc<Probe>) -> RcHandle {
    let strong: Rc<dyn Subscriber<Topic, Ev>> = p.clone();
    RcHandle(Rc::downgrade(&strong))
}

impl SubscriberHandle<Ev> for RcHandle {
    fn lookup(&self) -> Lookup {
        match self.0.upgrade() {
            Some(s) => Lookup::Found(*s.id()),
            None => Lookup::Stale,
        }
    }

    fn deliver(&self, event: &Ev) -> Delivery {
        match self.0.upgrade() {
            Some(s) => Delivery::Replied(s.on_event(event)),
            None => Delivery::Stale,
        }
    }

    fn deliver_blocking(&self, event: &Ev) -> Delivery {
        self.deliver(event)
    }

    fn is_live(&self) -> bool {
        self.0.upgrade().is_some()
    }
}

struct LockedProbe {
    id: Uuid,
    calls: std::sync::atomic::AtomicU32,
}

impl Subscriber<Topic, Ev> for LockedProbe {
    fn id(&self) -> &Uuid {
        &self.id
    }

    fn on_event(&self, _event: &Ev) -> BusRequest {
        self.calls.fetch_add(1, std::sync::atomic::Ordering::SeqCst);
        BusRequest::NoActionNeeded
    }
}

struct LockHandle(std::sync::Weak<RwLock<dyn Subscriber<Topic, Ev>>>);

impl SubscriberHandle<Ev> for LockHandle {
    fn lookup(&self) -> Lookup {
        match self.0.upgrade() {
            Some(s) => match s.try_read() {
                Ok(g) => Lookup::Found(*g.id()),
                Err(_) => Lookup::Unreadable,
            },
            None => Lookup::Stale,
        }
    }

    fn deliver(&self, event: &Ev) -> Delivery {
        match self.0.upgrade() {
            Some(s) => match s.try_read() {
                Ok(g) => Delivery::Replied(g.on_event(event)),
                Err(_) => Delivery::Failed,
            },
            None => Delivery::Stale,
        }
    }

    fn deliver_blocking(&self, event: &Ev) -> Delivery {
        match self.0.upgrade() {
            Some(s) => match s.read() {
                Ok(g) => Delivery::Replied(g.on_event(event)),
                Err(_) => Delivery::Failed,
            },
            None => Delivery::Stale,
        }
    }

    fn is_live(&self) -> bool {
        self.0.upgrade().is_some()
    }
}

fn new_log() -> Rc<RefCell<Vec<u128>>> {
    Rc::new(RefCell::new(Vec::new()))
}

#[test]
fn every_subscriber_invoked_once() {
    let log = new_log();
    let subs: Vec<Rc<Probe>> =
        (1..=3).map(|n| probe(n, BusRequest::NoActionNeeded, &log)).collect();
    let mut bus = EventBus::new();
    for s in &subs {
        bus.subscribe(handle(s), Topic::Input);
    }
    assert_eq!(bus.dispatch_event(&Ev(Topic::Input)), EventDispatchResult::Finished);
    for s in &subs {
        assert_eq!(s.calls.get(), 1);
    }
    assert_eq!(*log.borrow(), vec![1, 2, 3]);
}

#[test]
fn unsubscribing_a_stranger_changes_nothing() {
    let log = new_log();
    let a = probe(1, BusRequest::NoActionNeeded, &log);
    let mut bus = EventBus::new();
    bus.subscribe(handle(&a), Topic::Input);
    bus.unsubscribe(&*probe(99, BusRequest::NoActionNeeded, &log), Topic::Input);
    bus.unsubscribe(&*probe(99, BusRequest::NoActionNeeded, &log), Topic::Window);
    assert_eq!(bus.channel_len(&Topic::Input), Some(1));
    assert_eq!(bus.channel_len(&Topic::Window), None);
}

#[test]
fn priority_unsubscribing_a_stranger_returns_false() {
    let log = new_log();
    let a = probe(1, BusRequest::NoActionNeeded, &log);
    let mut bus = PriorityEventBus::new();
    bus.subscribe(handle(&a), Topic::Input, 1);
    assert!(!bus.unsubscribe(&*probe(99, BusRequest::NoActionNeeded, &log), Topic::Input, &1));
    assert!(!bus.unsubscribe(&*probe(1, BusRequest::NoActionNeeded, &log), Topic::Input, &2));
    assert!(!bus.unsubscribe(&*probe(1, BusRequest::NoActionNeeded, &log), Topic::Window, &1));
    assert_eq!(bus.bucket_len(&Topic::Input, &1), Some(1));
    assert!(bus.unsubscribe(&*probe(1, BusRequest::NoActionNeeded, &log), Topic::Input, &1));
    assert_eq!(bus.bucket_len(&Topic::Input, &1), Some(0));
}

#[test]
fn unsubscribe_directive_ends_delivery() {
    let log = new_log();
    let a = probe(1, BusRequest::Unsubscribe, &log);
    let b = probe(2, BusRequest::NoActionNeeded, &log);
    let mut bus = EventBus::new();
    bus.subscribe(handle(&a), Topic::Input);
    bus.subscribe(handle(&b), Topic::Input);
    assert_eq!(bus.dispatch_event(&Ev(Topic::Input)), EventDispatchResult::Finished);
    assert_eq!(bus.dispatch_event(&Ev(Topic::Input)), EventDispatchResult::Finished);
    assert_eq!(a.calls.get(), 1);
    assert_eq!(b.calls.get(), 2);
    assert_eq!(bus.channel_len(&Topic::Input), Some(1));
}

#[test]
fn do_not_propagate_halts_delivery() {
    let log = new_log();
    let a = probe(1, BusRequest::NoActionNeeded, &log);
    let b = probe(2, BusRequest::DoNotPropagate, &log);
    let c = probe(3, BusRequest::NoActionNeeded, &log);
    let mut bus = EventBus::new();
    for s in [&a, &b, &c] {
        bus.subscribe(handle(s), Topic::Input);
    }
    assert_eq!(bus.dispatch_event(&Ev(Topic::Input)), EventDispatchResult::Stopped);
    assert_eq!((a.calls.get(), b.calls.get(), c.calls.get()), (1, 1, 0));
    assert_eq!(bus.channel_len(&Topic::Input), Some(3));
}

#[test]
fn priority_buckets_visited_in_order() {
    let log = new_log();
    let s1 = probe(1, BusRequest::NoActionNeeded, &log);
    let s2 = probe(2, BusRequest::NoActionNeeded, &log);
    let s3 = probe(3, BusRequest::NoActionNeeded, &log);
    let mut bus = PriorityEventBus::new();
    bus.subscribe(handle(&s3), Topic::Input, 3);
    bus.subscribe(handle(&s1), Topic::Input, 1);
    bus.subscribe(handle(&s2), Topic::Input, 2);
    assert_eq!(bus.dispatch_event(&Ev(Topic::Input)), EventDispatchResult::Finished);
    assert_eq!(*log.borrow(), vec![1, 2, 3]);
}

#[test]
fn priority_stop_skips_later_buckets() {
    let log = new_log();
    let s1 = probe(1, BusRequest::NoActionNeeded, &log);
    let s2 = probe(2, BusRequest::DoNotPropagate, &log);
    let s3 = probe(3, BusRequest::NoActionNeeded, &log);
    let mut bus = PriorityEventBus::new();
    bus.subscribe(handle(&s1), Topic::Input, 1);
    bus.subscribe(handle(&s2), Topic::Input, 2);
    bus.subscribe(handle(&s3), Topic::Input, 3);
    assert_eq!(bus.dispatch_event(&Ev(Topic::Input)), EventDispatchResult::Stopped);
    assert_eq!(*log.borrow(), vec![1, 2]);
    assert_eq!(s3.calls.get(), 0);
}

#[test]
fn priority_result_is_last_bucket_only() {
    let log = new_log();
    let s1 = probe(1, BusRequest::DispatchFailed, &log);
    let s2 = probe(2, BusRequest::NoActionNeeded, &log);
    let mut bus = PriorityEventBus::new();
    bus.subscribe(handle(&s1), Topic::Input, -5);
    bus.subscribe(handle(&s2), Topic::Input, 7);
    assert_eq!(bus.dispatch_event(&Ev(Topic::Input)), EventDispatchResult::Finished);
    s2.reply.set(BusRequest::DispatchFailed);
    assert_eq!(
        bus.dispatch_event(&Ev(Topic::Input)),
        EventDispatchResult::FinishedWithFailures(1)
    );
}

#[test]
fn dropped_subscriber_is_skipped_and_purged() {
    let log = new_log();
    let a = probe(1, BusRequest::NoActionNeeded, &log);
    let b = probe(2, BusRequest::NoActionNeeded, &log);
    let c = probe(3, BusRequest::NoActionNeeded, &log);
    let mut bus = EventBus::new();
    for s in [&a, &b, &c] {
        bus.subscribe(handle(s), Topic::Input);
    }
    drop(b);
    assert_eq!(bus.dispatch_event(&Ev(Topic::Input)), EventDispatchResult::Finished);
    assert_eq!(*log.borrow(), vec![1, 3]);
    assert_eq!(bus.channel_len(&Topic::Input), Some(2));

    let mut bus = EventBus::new();
    let d = probe(4, BusRequest::NoActionNeeded, &log);
    for s in [&a, &c, &d] {
        bus.subscribe(handle(s), Topic::Input);
    }
    drop(c);
    bus.unsubscribe(&*probe(4, BusRequest::NoActionNeeded, &log), Topic::Input);
    assert_eq!(bus.channel_len(&Topic::Input), Some(1));
    assert_eq!(bus.dispatch_event(&Ev(Topic::Input)), EventDispatchResult::Finished);
    assert_eq!(a.calls.get(), 2);
    assert_eq!(d.calls.get(), 0);
}

#[test]
fn dispatch_without_channel_is_not_needed() {
    let mut bus: EventBus<Topic, RcHandle> = EventBus::new();
    assert_eq!(bus.dispatch_event(&Ev(Topic::Window)), EventDispatchResult::NotNeeded);
    let mut pbus: PriorityEventBus<Topic, i32, RcHandle> = PriorityEventBus::new();
    assert_eq!(pbus.dispatch_event(&Ev(Topic::Window)), EventDispatchResult::NotNeeded);
}

#[test]
fn emptied_channel_finishes_rather_than_not_needed() {
    let log = new_log();
    let a = probe(1, BusRequest::NoActionNeeded, &log);
    let mut bus = EventBus::new();
    bus.subscribe(handle(&a), Topic::Input);
    bus.unsubscribe(&*probe(1, BusRequest::NoActionNeeded, &log), Topic::Input);
    assert_eq!(bus.channel_len(&Topic::Input), Some(0));
    assert_eq!(bus.dispatch_event(&Ev(Topic::Input)), EventDispatchResult::Finished);
    bus.unsubscribe_all_from_category(Topic::Input);
    assert_eq!(bus.dispatch_event(&Ev(Topic::Input)), EventDispatchResult::NotNeeded);
}

#[test]
fn contended_lock_fails_without_blocking_then_blocking_delivers() {
    let sub = Arc::new(RwLock::new(LockedProbe {
        id: Uuid::from_u128(7),
        calls: std::sync::atomic::AtomicU32::new(0),
    }));
    let strong: Arc<RwLock<dyn Subscriber<Topic, Ev>>> = sub.clone();
    let mut bus = EventBus::new();
    bus.subscribe(LockHandle(Arc::downgrade(&strong)), Topic::Input);
    {
        let _guard = sub.write().unwrap();
        assert_eq!(
            bus.dispatch_event(&Ev(Topic::Input)),
            EventDispatchResult::FinishedWithFailures(1)
        );
    }
    assert_eq!(bus.dispatch_blocking_event(&Ev(Topic::Input)), EventDispatchResult::Finished);
    assert_eq!(sub.read().unwrap().calls.load(std::sync::atomic::Ordering::SeqCst), 1);
}

#[test]
fn bulk_removal() {
    let log = new_log();
    let a = probe(1, BusRequest::NoActionNeeded, &log);
    let mut bus = EventBus::new();
    bus.subscribe(handle(&a), Topic::Input);
    bus.subscribe(handle(&a), Topic::Input);
    bus.subscribe(handle(&a), Topic::Window);
    assert_eq!(bus.channel_len(&Topic::Input), Some(2));
    bus.unsubscribe_all();
    assert_eq!(bus.channel_len(&Topic::Input), None);
    assert_eq!(bus.channel_len(&Topic::Window), None);

    let mut pbus = PriorityEventBus::new();
    pbus.subscribe(handle(&a), Topic::Input, 1);
    pbus.subscribe(handle(&a), Topic::Input, 2);
    pbus.subscribe(handle(&a), Topic::Window, 1);
    pbus.unsubscribe_all_from_category_prioritized(Topic::Input, &1);
    assert_eq!(pbus.bucket_len(&Topic::Input, &1), None);
    assert_eq!(pbus.bucket_len(&Topic::Input, &2), Some(1));
    pbus.unsubscribe_all_from_category(&Topic::Input);
    assert_eq!(pbus.bucket_len(&Topic::Input, &2), None);
    assert_eq!(pbus.bucket_len(&Topic::Window, &1), Some(1));
    pbus.unsubscribe_all();
    assert_eq!(pbus.bucket_len(&Topic::Window, &1), None);
}

#[test]
fn category_with_no_buckets_is_not_needed() {
    let log = new_log();
    let a = probe(1, BusRequest::NoActionNeeded, &log);
    let mut pbus = PriorityEventBus::new();
    pbus.subscribe(handle(&a), Topic::Input, 1);
    pbus.unsubscribe_all_from_category_prioritized(Topic::Input, &1);
    assert_eq!(pbus.dispatch_event(&Ev(Topic::Input)), EventDispatchResult::NotNeeded);
    assert_eq!(a.calls.get(), 0);
}

struct Announcer;

impl Publisher<Topic, Ev> for Announcer {}

#[test]
fn publisher_forwards_to_bus() {
    let log = new_log();
    let a = probe(1, BusRequest::NoActionNeeded, &log);
    let mut bus = EventBus::new();
    bus.subscribe(handle(&a), Topic::Window);
    assert_eq!(Announcer.publish_event(&Ev(Topic::Window), &mut bus), EventDispatchResult::Finished);
    assert_eq!(Announcer.publish_event(&Ev(Topic::Input), &mut bus), EventDispatchResult::NotNeeded);
    assert_eq!(a.calls.get(), 1);
}

#[test]
fn dispatch_with_reports_stale_delivery() {
    let log = new_log();
    let a = probe(1, BusRequest::NoActionNeeded, &log);
    let b = probe(2, BusRequest::NoActionNeeded, &log);
    let mut bus = EventBus::new();
    bus.subscribe(handle(&a), Topic::Input);
    bus.subscribe(handle(&b), Topic::Input);
    drop(a);
    let ev = Ev(Topic::Input);
    let mut d = Delivering::new(&ev, false);
    assert_eq!(bus.dispatch_with(Topic::Input, &mut d), EventDispatchResult::Finished);
    assert!(d.stale_seen);
    assert_eq!(bus.channel_len(&Topic::Input), Some(1));
    let mut d = Delivering::new(&ev, true);
    assert_eq!(bus.dispatch_with(Topic::Window, &mut d), EventDispatchResult::NotNeeded);
    assert!(!d.stale_seen);
    assert_eq!(b.calls.get(), 1);
}

#[test]
fn priority_unsubscribe_purges_stale_before_match() {
    let log = new_log();
    let a = probe(1, BusRequest::NoActionNeeded, &log);
    let b = probe(2, BusRequest::NoActionNeeded, &log);
    let c = probe(3, BusRequest::NoActionNeeded, &log);
    let mut bus = PriorityEventBus::new();
    for s in [&a, &b, &c] {
        bus.subscribe(handle(s), Topic::Input, 5);
    }
    drop(a);
    assert!(bus.unsubscribe_by_id(&Uuid::from_u128(2), Topic::Input, &5));
    assert_eq!(bus.bucket_len(&Topic::Input, &5), Some(1));
    assert!(!bus.unsubscribe_by_id(&Uuid::from_u128(2), Topic::Input, &5));
    assert_eq!(bus.dispatch_event(&Ev(Topic::Input)), EventDispatchResult::Finished);
    assert_eq!(*log.borrow(), vec![3]);
}

#[test]
fn duplicate_subscription_is_invoked_twice() {
    let log = new_log();
    let a = probe(1, BusRequest::NoActionNeeded, &log);
    let mut bus = EventBus::new();
    bus.subscribe(handle(&a), Topic::Input);
    bus.subscribe(handle(&a), Topic::Input);
    assert_eq!(bus.dispatch_event(&Ev(Topic::Input)), EventDispatchResult::Finished);
    assert_eq!(a.calls.get(), 2);
    bus.unsubscribe_by_id(&Uuid::from_u128(1), Topic::Input);
    assert_eq!(bus.channel_len(&Topic::Input), Some(1));
}
