//! The flat registry: one unordered channel of handles per category.
use vstd::prelude::*;
use std::collections::HashMap;
use std::hash::Hash;
use vstd::std_specs::hash::obeys_key_model;
use crate::dispatch::{cleaned, delivered, execute_bus_requests, traversal, Attempt, Visit};
use crate::handle::{
    purge_stale, replies_match, unsubscribe_from, unsubscribed, Delivering, Delivery, Event, Lookup,
    Subscriber, SubscriberHandle,
};
use uuid::Uuid;
use crate::types::EventDispatchResult;

verus! {

/// The list `after` that the deliveries logged as `trace` (with outcomes
/// `outcomes`) and the cleanup leave of `before`, with result `r`.
pub open spec fn delivered_as<H>(
    before: Seq<H>,
    after: Seq<H>,
    r: EventDispatchResult,
    trace: Seq<Visit<H>>,
    outcomes: Seq<Delivery>,
) -> bool {
    exists|live: Seq<bool>, mid: Seq<H>|
        #![trigger traversal(before, trace, mid, r), cleaned(mid, outcomes, live)]
        traversal(before, trace, mid, r) && live.len() == mid.len() && after == cleaned(mid, outcomes, live)
}

/// Runs the traversal of `list` with `delivery`, which has made no attempt
/// yet, then the cleanup when a delivery found its subscriber gone. The
/// traversal's visits are exactly the attempts that `delivery` logs.
pub fn deliver_and_clean<'a, E, H: SubscriberHandle<E>>(
    list: &mut Vec<H>,
    delivery: &mut Delivering<'a, E, H>,
) -> (r: EventDispatchResult)
    requires
        old(list).len() <= u32::MAX,
        old(delivery).inv(),
        old(delivery).log@ == Seq::<Visit<H>>::empty(),
    ensures
        final(delivery).inv(),
        final(delivery).event == old(delivery).event,
        final(delivery).blocking == old(delivery).blocking,
        delivered_as(old(list)@, final(list)@, r, final(delivery).log@, final(delivery).outcomes@),
        delivered(old(list)@, final(list)@, r),
        final(list).len() <= old(list).len(),
{
    let ghost before = list@;
    let r = execute_bus_requests(list, delivery);
    let ghost trace = choose|t: Seq<Visit<H>>|
        delivery.log@ == Seq::<Visit<H>>::empty() + t && #[trigger] traversal(before, t, list@, r);
    assert(trace =~= delivery.log@);
    let ghost mid = list@;
    let ghost mut live: Seq<bool> = Seq::empty();
    if delivery.stale_seen {
        let l = purge_stale::<E, H>(list);
        proof {
            live = l@;
        }
    } else {
        proof {
            live = Seq::new(mid.len(), |i: int| true);
        }
    }
    assert(replies_match(trace, delivery.outcomes@));
    assert(list@ == cleaned(mid, delivery.outcomes@, live));
    r
}

/// The channel map `after` and result `r` that a dispatch of an event of
/// category `c` may produce from the channel map `before`.
pub open spec fn dispatched<T, H>(
    before: Map<T, Seq<H>>,
    after: Map<T, Seq<H>>,
    c: T,
    r: EventDispatchResult,
) -> bool {
    if before.contains_key(c) {
        exists|list: Seq<H>| after == before.insert(c, list) && #[trigger] delivered(before[c], list, r)
    } else {
        after == before && r == EventDispatchResult::NotNeeded
    }
}

/// The channel map after appending `h` to the channel of `c`, creating it if absent.
pub open spec fn appended<T, H>(m: Map<T, Seq<H>>, c: T, h: H) -> Map<T, Seq<H>> {
    if m.contains_key(c) {
        m.insert(c, m[c].push(h))
    } else {
        m.insert(c, seq![h])
    }
}

/// A registry from categories to channels of non-owning subscriber handles.
/// The handle type `H` decides how a subscriber is reached: directly by an
/// exclusive owner, or behind a lock shared by several owners.
pub struct EventBus<T, H> {
    channels: HashMap<T, Vec<H>>,
}

impl<T, H> View for EventBus<T, H> {
    type V = Map<T, Seq<H>>;

    closed spec fn view(&self) -> Map<T, Seq<H>> {
        self.channels@.map_values(|v: Vec<H>| v@)
    }
}

impl<T: Eq + Hash, H> EventBus<T, H> {
    /// Categories compare and hash consistently, and every channel's failure
    /// count fits the result type.
    pub open spec fn wf(&self) -> bool {
        &&& obeys_key_model::<T>()
        &&& forall|c: T| #[trigger] self@.contains_key(c) ==> self@[c].len() <= u32::MAX
    }

    /// An empty registry.
    pub fn new() -> (r: Self)
        requires
            obeys_key_model::<T>(),
        ensures
            r.wf(),
            r@ == Map::<T, Seq<H>>::empty(),
    {
        let r = EventBus { channels: HashMap::new() };
        proof {
            assert(r@ =~= Map::<T, Seq<H>>::empty());
        }
        r
    }

    /// Appends `handle` to the channel of `to_category`, creating the channel
    /// when absent. Duplicates are kept.
    pub fn subscribe(&mut self, handle: H, to_category: T)
        requires
            old(self).wf(),
            old(self)@.contains_key(to_category) ==> old(self)@[to_category].len() < u32::MAX,
        ensures
            final(self).wf(),
            final(self)@ == appended(old(self)@, to_category, handle),
    {
        let ghost c = to_category;
        let ghost h = handle;
        match self.channels.remove(&to_category) {
            Some(mut list) => {
                assert(old(self)@.contains_key(c) && old(self)@[c] == list@);
                list.push(handle);
                self.channels.insert(to_category, list);
                proof {
                    assert(self@ =~= old(self)@.insert(c, old(self)@[c].push(h)));
                }
            },
            None => {
                let list = vec![handle];
                assert(list@ =~= seq![h]);
                self.channels.insert(to_category, list);
                proof {
                    assert(self@ =~= old(self)@.insert(c, seq![h]));
                }
            },
        }
    }

    /// Removes from the channel of `from_category` the first handle whose
    /// lookup finds a subscriber of identity `id`; when the scan meets a stale
    /// handle, keeps only the live handles afterwards.
    pub fn unsubscribe_by_id<E>(&mut self, id: &Uuid, from_category: T)
        where
            H: SubscriberHandle<E>,
        requires
            old(self).wf(),
        ensures
            final(self).wf(),
            old(self)@.contains_key(from_category) ==> exists|looks: Seq<Lookup>, live: Seq<bool>|
                #![trigger unsubscribed(old(self)@[from_category], looks, *id, live)]
                looks.len() == old(self)@[from_category].len() && final(self)@ == old(self)@.insert(
                    from_category,
                    unsubscribed(old(self)@[from_category], looks, *id, live),
                ),
            !old(self)@.contains_key(from_category) ==> final(self)@ == old(self)@,
    {
        let ghost c = from_category;
        match self.channels.remove(&from_category) {
            Some(mut list) => {
                let ghost before = list@;
                assert(old(self)@.contains_key(c) && before == old(self)@[c]);
                unsubscribe_from::<E, H>(&mut list, id);
                let ghost after = list@;
                self.channels.insert(from_category, list);
                proof {
                    assert(self@ =~= old(self)@.insert(c, after));
                }
            },
            None => {
                proof {
                    assert(self@ =~= old(self)@);
                }
            },
        }
    }

    /// Removes from the channel of `from_category` one handle of the
    /// subscriber with the identity that `subscriber.id()` gives, as
    /// `unsubscribe_by_id` does.
    pub fn unsubscribe<E, S: Subscriber<T, E>>(&mut self, subscriber: &S, from_category: T)
        where
            H: SubscriberHandle<E>,
        requires
            old(self).wf(),
        ensures
            final(self).wf(),
            old(self)@.contains_key(from_category) ==> exists|id: Uuid, looks: Seq<Lookup>, live: Seq<bool>|
                #![trigger unsubscribed(old(self)@[from_category], looks, id, live)]
                looks.len() == old(self)@[from_category].len() && final(self)@ == old(self)@.insert(
                    from_category,
                    unsubscribed(old(self)@[from_category], looks, id, live),
                ),
            !old(self)@.contains_key(from_category) ==> final(self)@ == old(self)@,
    {
        let id = subscriber.id();
        self.unsubscribe_by_id::<E>(id, from_category);
    }

    /// Removes every channel.
    pub fn unsubscribe_all(&mut self)
        requires
            old(self).wf(),
        ensures
            final(self).wf(),
            final(self)@ == Map::<T, Seq<H>>::empty(),
    {
        self.channels.clear();
        proof {
            assert(self@ =~= Map::<T, Seq<H>>::empty());
        }
    }

    /// Removes the channel of `from_category` altogether.
    pub fn unsubscribe_all_from_category(&mut self, from_category: T)
        requires
            old(self).wf(),
        ensures
            final(self).wf(),
            final(self)@ == old(self)@.remove(from_category),
    {
        let ghost c = from_category;
        self.channels.remove(&from_category);
        proof {
            assert(self@ =~= old(self)@.remove(c));
        }
    }

    /// The number of handles in the channel of `category`, if it exists.
    pub fn channel_len(&self, category: &T) -> (r: Option<usize>)
        requires
            self.wf(),
        ensures
            r == (if self@.contains_key(*category) {
                Some(self@[*category].len() as usize)
            } else {
                None::<usize>
            }),
    {
        match self.channels.get(category) {
            Some(list) => Some(list.len()),
            None => None,
        }
    }

    /// Dispatches `event` to the channel of `category`, blocking on
    /// subscribers' locks or not, and purges stale handles met on the way.
    pub fn dispatch_in_category<E>(&mut self, category: T, event: &E, blocking: bool) -> (r:
        EventDispatchResult)
        where
            H: SubscriberHandle<E>,
        requires
            old(self).wf(),
        ensures
            final(self).wf(),
            dispatched(old(self)@, final(self)@, category, r),
    {
        let ghost c = category;
        match self.channels.remove(&category) {
            Some(mut list) => {
                let ghost before = list@;
                assert(old(self)@.contains_key(c));
                assert(before == old(self)@[c]);
                let mut delivery = Delivering::new(event, blocking);
                let r = deliver_and_clean(&mut list, &mut delivery);
                self.channels.insert(category, list);
                proof {
                    assert(self@ =~= old(self)@.insert(c, list@));
                }
                r
            },
            None => {
                proof {
                    assert(self@ =~= old(self)@);
                }
                EventDispatchResult::NotNeeded
            },
        }
    }

    /// Dispatches through `delivery`, which has made no attempt yet, to the
    /// channel of `category`. The deliveries it logs are exactly the visits
    /// of the traversal, each made with `delivery.event`; the cleanup runs
    /// exactly when one of them found its subscriber gone.
    pub fn dispatch_with<'a, E>(&mut self, category: T, delivery: &mut Delivering<'a, E, H>) -> (r:
        EventDispatchResult)
        where
            H: SubscriberHandle<E>,
        requires
            old(self).wf(),
            old(delivery).inv(),
            old(delivery).log@ == Seq::<Visit<H>>::empty(),
        ensures
            final(self).wf(),
            final(delivery).inv(),
            final(delivery).event == old(delivery).event,
            final(delivery).blocking == old(delivery).blocking,
            old(self)@.contains_key(category) ==> exists|list: Seq<H>|
                #![trigger old(self)@.insert(category, list)]
                final(self)@ == old(self)@.insert(category, list) && delivered_as(
                    old(self)@[category],
                    list,
                    r,
                    final(delivery).log@,
                    final(delivery).outcomes@,
                ),
            !old(self)@.contains_key(category) ==> final(self)@ == old(self)@ && r
                == EventDispatchResult::NotNeeded && final(delivery).log@.len() == 0,
    {
        let ghost c = category;
        match self.channels.remove(&category) {
            Some(mut list) => {
                assert(old(self)@.contains_key(c));
                assert(list@ == old(self)@[c]);
                let r = deliver_and_clean(&mut list, delivery);
                self.channels.insert(category, list);
                proof {
                    assert(self@ =~= old(self)@.insert(c, list@));
                }
                r
            },
            None => {
                proof {
                    assert(self@ =~= old(self)@);
                }
                EventDispatchResult::NotNeeded
            },
        }
    }

    /// Dispatches `event` to the subscribers of its category without waiting
    /// on any subscriber's lock.
    pub fn dispatch_event<E: Event<T>>(&mut self, event: &E) -> (r: EventDispatchResult)
        where
            H: SubscriberHandle<E>,
        requires
            old(self).wf(),
        ensures
            final(self).wf(),
            exists|c: T| #[trigger] dispatched(old(self)@, final(self)@, c, r),
    {
        let c = event.category();
        self.dispatch_in_category(c, event, false)
    }

    /// Dispatches `event` to the subscribers of its category, waiting for each
    /// subscriber's lock where there is one.
    pub fn dispatch_blocking_event<E: Event<T>>(&mut self, event: &E) -> (r: EventDispatchResult)
        where
            H: SubscriberHandle<E>,
        requires
            old(self).wf(),
        ensures
            final(self).wf(),
            exists|c: T| #[trigger] dispatched(old(self)@, final(self)@, c, r),
    {
        let c = event.category();
        self.dispatch_in_category(c, event, true)
    }
}


/// A publisher: a convenience entry point that hands its events to a registry.
pub trait Publisher<T: Eq + Hash, E: Event<T>> {
    /// Dispatches `event` through `bus`, waiting for each subscriber's lock
    /// where there is one.
    fn publish_event<H: SubscriberHandle<E>>(&self, event: &E, bus: &mut EventBus<T, H>) -> (r:
        EventDispatchResult)
        requires
            old(bus).wf(),
        ensures
            final(bus).wf(),
            exists|c: T| #[trigger] dispatched(old(bus)@, final(bus)@, c, r),
    {
        bus.dispatch_blocking_event(event)
    }
}

} // verus!
