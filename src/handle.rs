//! Subscribers, events, and the non-owning handles that registries hold.
use vstd::prelude::*;
use uuid::Uuid;
use crate::dispatch::{swap_removed, Attempt, Visit};
use crate::types::BusRequest;

verus! {

#[verifier::external_type_specification]
#[verifier::external_body]
pub struct ExUuid(Uuid);

/// Relies on uuid's derived `PartialEq` for `Uuid`, which compares the
/// sixteen bytes of the two identifiers.
#[verifier::external_body]
fn same_identity(a: &Uuid, b: &Uuid) -> (r: bool)
    ensures
        r == (*a == *b),
{
    a == b
}

/// An event, which belongs to exactly one category.
pub trait Event<T> {
    fn category(&self) -> T;
}

/// A subscriber: a stable identity and an entry point for events.
pub trait Subscriber<T, E> {
    fn id(&self) -> &Uuid;

    fn on_event(&self, event: &E) -> BusRequest;
}

/// What resolving a handle to its subscriber's identity gave.
pub enum Lookup {
    /// The subscriber is gone.
    Stale,
    /// The subscriber is alive but could not be read now.
    Unreadable,
    /// The subscriber is alive and has this identity.
    Found(Uuid),
}

/// What one delivery attempt through a handle gave.
#[derive(Debug, PartialEq, Eq, Structural, Clone, Copy)]
pub enum Delivery {
    /// The subscriber is gone.
    Stale,
    /// The subscriber is alive but could not be invoked (its lock was taken
    /// or is unusable).
    Failed,
    /// The subscriber handled the event and answered with this directive.
    Replied(BusRequest),
}

/// A non-owning handle to a subscriber. Its implementation decides how a
/// subscriber is resolved and invoked: directly, or behind a lock.
pub trait SubscriberHandle<E> {
    /// Resolves the handle and reads the subscriber's identity without waiting.
    fn lookup(&self) -> Lookup;

    /// Delivers `event` without waiting on a lock.
    fn deliver(&self, event: &E) -> Delivery;

    /// Delivers `event`, waiting for the subscriber's lock where there is one.
    fn deliver_blocking(&self, event: &E) -> Delivery;

    /// Whether the subscriber is still alive.
    fn is_live(&self) -> bool;
}

/// The directive that the traversal acts on for a delivery outcome: a stale
/// handle is passed over, an unusable subscriber counts as a failure.
pub open spec fn directive_of(d: Delivery) -> BusRequest {
    match d {
        Delivery::Stale => BusRequest::NoActionNeeded,
        Delivery::Failed => BusRequest::DispatchFailed,
        Delivery::Replied(r) => r,
    }
}

/// The directive for a delivery outcome, and whether the handle was stale
/// (which calls for a cleanup pass afterwards).
pub fn directive(d: Delivery) -> (r: (BusRequest, bool))
    ensures
        r.0 == directive_of(d),
        r.1 == (d is Stale),
{
    match d {
        Delivery::Stale => (BusRequest::NoActionNeeded, true),
        Delivery::Failed => (BusRequest::DispatchFailed, false),
        Delivery::Replied(r) => (r, false),
    }
}

/// Whether some delivery outcome says the subscriber was gone.
pub open spec fn any_stale(outcomes: Seq<Delivery>) -> bool {
    exists|i: int| 0 <= i < outcomes.len() && #[trigger] outcomes[i] is Stale
}

/// Each visit of `trace` carries the directive of the outcome at its index.
pub open spec fn replies_match<H>(trace: Seq<Visit<H>>, outcomes: Seq<Delivery>) -> bool {
    &&& outcomes.len() == trace.len()
    &&& forall|i: int| 0 <= i < trace.len() ==> #[trigger] trace[i].1 == directive_of(outcomes[i])
}

/// The delivery operation of a dispatch: it delivers `event` through each
/// handle, blocking or not, logs each outcome, and records whether a stale
/// handle was met.
pub struct Delivering<'a, E, H> {
    pub event: &'a E,
    pub blocking: bool,
    pub stale_seen: bool,
    pub log: Ghost<Seq<Visit<H>>>,
    pub outcomes: Ghost<Seq<Delivery>>,
}

impl<'a, E, H> Delivering<'a, E, H> {
    /// A delivery operation for `event` that has made no attempt yet.
    pub fn new(event: &'a E, blocking: bool) -> (r: Self)
        ensures
            r.event == event,
            r.blocking == blocking,
            !r.stale_seen,
            r.log@ == Seq::<Visit<H>>::empty(),
            r.outcomes@ == Seq::<Delivery>::empty(),
    {
        Delivering {
            event,
            blocking,
            stale_seen: false,
            log: Ghost(Seq::empty()),
            outcomes: Ghost(Seq::empty()),
        }
    }
}

impl<'a, E, H: SubscriberHandle<E>> Attempt<H> for Delivering<'a, E, H> {
    open spec fn visits(&self) -> Seq<Visit<H>> {
        self.log@
    }

    open spec fn same_setup(&self, other: &Self) -> bool {
        self.event == other.event && self.blocking == other.blocking
    }

    proof fn lemma_setup_refl(a: &Self) {
    }

    proof fn lemma_setup_trans(a: &Self, b: &Self, c: &Self) {
    }

    open spec fn inv(&self) -> bool {
        &&& replies_match(self.log@, self.outcomes@)
        &&& self.stale_seen == any_stale(self.outcomes@)
    }

    fn attempt(&mut self, handle: &H) -> (r: BusRequest) {
        let d = if self.blocking {
            handle.deliver_blocking(self.event)
        } else {
            handle.deliver(self.event)
        };
        let (r, stale) = directive(d);
        if stale {
            self.stale_seen = true;
        }
        proof {
            let old_out = self.outcomes@;
            self.log = Ghost(self.log@.push((*handle, r)));
            self.outcomes = Ghost(old_out.push(d));
            if d is Stale {
                assert(self.outcomes@[old_out.len() as int] is Stale);
            }
            if any_stale(self.outcomes@) && !(d is Stale) {
                let i = choose|i: int| 0 <= i < self.outcomes@.len() && #[trigger] self.outcomes@[i] is Stale;
                assert(old_out[i] is Stale);
            }
            if any_stale(old_out) {
                let i = choose|i: int| 0 <= i < old_out.len() && #[trigger] old_out[i] is Stale;
                assert(self.outcomes@[i] is Stale);
            }
        }
        r
    }
}

/// `s` with the entries whose flag in `keep` is false left out, the others in
/// their order.
pub open spec fn keep_where<H>(s: Seq<H>, keep: Seq<bool>) -> Seq<H>
    decreases s.len(),
{
    if s.len() == 0 || keep.len() != s.len() {
        s
    } else {
        let rest = keep_where(s.drop_last(), keep.drop_last());
        if keep.last() {
            rest.push(s.last())
        } else {
            rest
        }
    }
}

/// Asks every handle whether its subscriber is alive.
fn liveness<E, H: SubscriberHandle<E>>(list: &Vec<H>) -> (r: Vec<bool>)
    ensures
        r.len() == list.len(),
{
    let mut r: Vec<bool> = Vec::new();
    let mut i: usize = 0;
    while i < list.len()
        invariant
            i <= list.len(),
            r.len() == i,
        decreases list.len() - i,
    {
        r.push(list[i].is_live());
        i = i + 1;
    }
    r
}

/// Asks every handle for its subscriber's identity.
fn lookups<E, H: SubscriberHandle<E>>(list: &Vec<H>) -> (r: Vec<Lookup>)
    ensures
        r.len() == list.len(),
{
    let mut r: Vec<Lookup> = Vec::new();
    let mut i: usize = 0;
    while i < list.len()
        invariant
            i <= list.len(),
            r.len() == i,
        decreases list.len() - i,
    {
        r.push(list[i].lookup());
        i = i + 1;
    }
    r
}

/// Keeps exactly the entries whose flag in `keep` is true, in their order.
pub fn retain_flagged<H>(list: &mut Vec<H>, keep: &Vec<bool>)
    requires
        keep.len() == old(list).len(),
    ensures
        final(list)@ == keep_where(old(list)@, keep@),
        final(list).len() <= old(list).len(),
{
    let ghost orig = list@;
    let mut i: usize = 0;
    let mut j: usize = 0;
    while j < keep.len()
        invariant
            keep.len() == orig.len(),
            j <= orig.len(),
            i <= j,
            i == keep_where(orig.subrange(0, j as int), keep@.subrange(0, j as int)).len(),
            list@ =~= keep_where(orig.subrange(0, j as int), keep@.subrange(0, j as int)) + orig.subrange(
                j as int,
                orig.len() as int,
            ),
        decreases keep.len() - j,
    {
        let ghost pre = keep_where(orig.subrange(0, j as int), keep@.subrange(0, j as int));
        proof {
            let s1 = orig.subrange(0, j + 1);
            let k1 = keep@.subrange(0, j + 1);
            assert(s1.drop_last() =~= orig.subrange(0, j as int));
            assert(k1.drop_last() =~= keep@.subrange(0, j as int));
            assert(list@[i as int] == orig[j as int]);
        }
        if keep[j] {
            proof {
                assert(keep_where(orig.subrange(0, j + 1), keep@.subrange(0, j + 1)) =~= pre.push(orig[j as int]));
                assert(list@ =~= pre.push(orig[j as int]) + orig.subrange(j + 1, orig.len() as int));
            }
            i = i + 1;
        } else {
            list.remove(i);
            proof {
                assert(keep_where(orig.subrange(0, j + 1), keep@.subrange(0, j + 1)) =~= pre);
            }
        }
        j = j + 1;
    }
    proof {
        assert(orig.subrange(0, orig.len() as int) =~= orig);
        assert(keep@.subrange(0, orig.len() as int) =~= keep@);
    }
}

/// Keeps only the handles whose subscriber is alive, in their order; the
/// liveness answers are those of the handles.
pub(crate) fn purge_stale<E, H: SubscriberHandle<E>>(list: &mut Vec<H>) -> (live: Ghost<Seq<bool>>)
    ensures
        live@.len() == old(list).len(),
        final(list)@ == keep_where(old(list)@, live@),
        final(list).len() <= old(list).len(),
{
    let keep = liveness::<E, H>(list);
    retain_flagged(list, &keep);
    Ghost(keep@)
}

/// The index of the first lookup that found a subscriber of identity `id`,
/// searching from `from`.
pub open spec fn first_found_from(looks: Seq<Lookup>, id: Uuid, from: int) -> Option<int>
    decreases looks.len() - from,
{
    if from < 0 || from >= looks.len() {
        None
    } else if looks[from] == Lookup::Found(id) {
        Some(from)
    } else {
        first_found_from(looks, id, from + 1)
    }
}

/// The index of the first lookup that found a subscriber of identity `id`.
pub open spec fn first_found(looks: Seq<Lookup>, id: Uuid) -> Option<int> {
    first_found_from(looks, id, 0)
}

/// Where a scan for `id` stops: at its first match, else at the end.
pub open spec fn scan_end(looks: Seq<Lookup>, id: Uuid) -> int {
    match first_found(looks, id) {
        Some(i) => i,
        None => looks.len() as int,
    }
}

/// Whether a scan for `id` met a stale handle before it stopped.
pub open spec fn stale_in_scan(looks: Seq<Lookup>, id: Uuid) -> bool {
    exists|j: int| 0 <= j < scan_end(looks, id) && #[trigger] looks[j] is Stale
}

/// The channel left by an unsubscribe scan for `id` over `before`, given what
/// each handle's lookup gave and, for the cleanup pass, which handles were
/// alive: the first match is swap-removed, and when the scan met a stale
/// handle only the live handles are kept.
pub open spec fn unsubscribed<H>(before: Seq<H>, looks: Seq<Lookup>, id: Uuid, live: Seq<bool>) -> Seq<H> {
    let mid = match first_found(looks, id) {
        Some(i) => swap_removed(before, i),
        None => before,
    };
    if stale_in_scan(looks, id) {
        keep_where(mid, live)
    } else {
        mid
    }
}

proof fn lemma_first_found_skip(looks: Seq<Lookup>, id: Uuid, from: int)
    requires
        0 <= from < looks.len(),
        looks[from] != Lookup::Found(id),
    ensures
        first_found_from(looks, id, from) == first_found_from(looks, id, from + 1),
{
}

proof fn lemma_first_found_range(looks: Seq<Lookup>, id: Uuid, from: int)
    requires
        0 <= from,
    ensures
        first_found_from(looks, id, from) matches Some(i) ==> from <= i < looks.len() && looks[i]
            == Lookup::Found(id),
    decreases looks.len() - from,
{
    if from < looks.len() && looks[from] != Lookup::Found(id) {
        lemma_first_found_range(looks, id, from + 1);
    }
}

/// Scans the lookups in order for identity `id`: the index of the first
/// match, and whether a stale handle came before it (or anywhere, without a
/// match).
pub fn scan_lookups(looks: &Vec<Lookup>, id: &Uuid) -> (r: (Option<usize>, bool))
    ensures
        match r.0 {
            Some(i) => first_found(looks@, *id) == Some(i as int),
            None => first_found(looks@, *id) is None,
        },
        r.1 == stale_in_scan(looks@, *id),
{
    let mut stale = false;
    let mut i: usize = 0;
    while i < looks.len()
        invariant
            i <= looks.len(),
            first_found(looks@, *id) == first_found_from(looks@, *id, i as int),
            stale == exists|j: int| 0 <= j < i && #[trigger] looks@[j] is Stale,
        decreases looks.len() - i,
    {
        let hit = match &looks[i] {
            Lookup::Found(other) => same_identity(other, id),
            _ => false,
        };
        if hit {
            proof {
                lemma_first_found_range(looks@, *id, 0);
            }
            return (Some(i), stale);
        }
        proof {
            lemma_first_found_skip(looks@, *id, i as int);
        }
        if let Lookup::Stale = &looks[i] {
            stale = true;
        }
        i = i + 1;
    }
    (None, stale)
}

/// Given what each handle's lookup gave, swap-removes the first handle
/// whose subscriber has identity `id`, and when the scan met a stale handle
/// keeps only the live handles. Returns whether a match was removed.
pub fn remove_looked_up<E, H: SubscriberHandle<E>>(list: &mut Vec<H>, looks: &Vec<Lookup>, id: &Uuid) -> (found:
    bool)
    requires
        looks.len() == old(list).len(),
    ensures
        found == (first_found(looks@, *id) is Some),
        exists|live: Seq<bool>|
            #![trigger unsubscribed(old(list)@, looks@, *id, live)]
            final(list)@ == unsubscribed(old(list)@, looks@, *id, live),
        final(list).len() <= old(list).len(),
{
    let (hit, stale) = scan_lookups(looks, id);
    let ghost before = list@;
    if let Some(i) = hit {
        proof {
            lemma_first_found_range(looks@, *id, 0);
        }
        list.swap_remove(i);
        assert(list@ =~= swap_removed(before, i as int));
    }
    let ghost mut live: Seq<bool> = Seq::empty();
    if stale {
        let l = purge_stale::<E, H>(list);
        proof {
            live = l@;
        }
    }
    assert(list@ == unsubscribed(before, looks@, *id, live));
    hit.is_some()
}

/// Looks up every handle of `list`, then removes a match for `id` as
/// `remove_looked_up` does.
pub fn unsubscribe_from<E, H: SubscriberHandle<E>>(list: &mut Vec<H>, id: &Uuid) -> (found: bool)
    ensures
        exists|looks: Seq<Lookup>, live: Seq<bool>|
            #![trigger unsubscribed(old(list)@, looks, *id, live)]
            looks.len() == old(list).len() && found == (first_found(looks, *id) is Some)
                && final(list)@ == unsubscribed(old(list)@, looks, *id, live),
        final(list).len() <= old(list).len(),
{
    let looks = lookups::<E, H>(list);
    remove_looked_up::<E, H>(list, &looks, id)
}

} // verus!
