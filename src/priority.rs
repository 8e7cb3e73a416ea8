//! The prioritized registry: per category, buckets of handles visited in
//! ascending priority order.
use vstd::prelude::*;
use std::collections::HashMap;
use std::hash::Hash;
use vstd::laws_cmp::{obeys_cmp, obeys_cmp_ord, obeys_cmp_partial_ord, obeys_partial_cmp_spec_properties};
use vstd::std_specs::hash::obeys_key_model;
use core::cmp::Ordering;
use vstd::std_specs::cmp::{OrdSpec, PartialEqSpec, PartialOrdSpec};
use crate::bus::deliver_and_clean;
use crate::dispatch::delivered;
use crate::handle::{
    first_found, unsubscribe_from, unsubscribed, Delivering, Event, Lookup, Subscriber, SubscriberHandle,
};
use uuid::Uuid;
use crate::types::EventDispatchResult;

verus! {

/// A bucket as seen in contracts: its priority and its handles.
pub type BucketView<P, H> = (P, Seq<H>);

/// `a` orders strictly before `b`.
pub open spec fn lt<P: Ord>(a: P, b: P) -> bool {
    a.cmp_spec(&b) is Less
}

/// `a` and `b` are equal in the order.
pub open spec fn same<P: Ord>(a: P, b: P) -> bool {
    a.cmp_spec(&b) is Equal
}

/// The ordering seen from the other side.
spec fn flipped(o: Ordering) -> Ordering {
    match o {
        Ordering::Less => Ordering::Greater,
        Ordering::Equal => Ordering::Equal,
        Ordering::Greater => Ordering::Less,
    }
}

/// The ordering laws that the bucket proofs use.
proof fn lemma_total_order<P: Ord>()
    requires
        obeys_cmp::<P>(),
    ensures
        P::obeys_cmp_spec(),
        forall|a: P, b: P, c: P| #[trigger] lt(a, b) && #[trigger] lt(b, c) ==> lt(a, c),
        forall|a: P, b: P| !lt(a, b) && !same(a, b) ==> #[trigger] lt(b, a),
        forall|a: P, b: P| #[trigger] lt(a, b) ==> !lt(b, a) && !same(b, a),
{
    reveal(obeys_partial_cmp_spec_properties);
    reveal(obeys_cmp_ord);
    reveal(obeys_cmp_partial_ord);
    assert forall|a: P, b: P| #[trigger] a.cmp_spec(&b) == flipped(b.cmp_spec(&a)) by {
        assert(a.partial_cmp_spec(&b) == Some(a.cmp_spec(&b)));
        assert(b.partial_cmp_spec(&a) == Some(b.cmp_spec(&a)));
        assert(a.partial_cmp_spec(&b) == Some(Ordering::Equal) <==> a.eq_spec(&b));
        assert(b.partial_cmp_spec(&a) == Some(Ordering::Equal) <==> b.eq_spec(&a));
        assert(a.partial_cmp_spec(&b) == Some(Ordering::Less) <==> b.partial_cmp_spec(&a) == Some(Ordering::Greater));
        assert(b.partial_cmp_spec(&a) == Some(Ordering::Less) <==> a.partial_cmp_spec(&b) == Some(Ordering::Greater));
    }
    assert forall|a: P, b: P, c: P| #[trigger] lt(a, b) && #[trigger] lt(b, c) implies lt(a, c) by {
        assert(a.partial_cmp_spec(&b) == Some(a.cmp_spec(&b)));
        assert(b.partial_cmp_spec(&c) == Some(b.cmp_spec(&c)));
        assert(a.partial_cmp_spec(&c) == Some(a.cmp_spec(&c)));
    }
    assert forall|a: P, b: P| !lt(a, b) && !same(a, b) implies #[trigger] lt(b, a) by {
        assert(a.cmp_spec(&b) == flipped(b.cmp_spec(&a)));
    }
    assert forall|a: P, b: P| #[trigger] lt(a, b) implies !lt(b, a) && !same(b, a) by {
        assert(a.cmp_spec(&b) == flipped(b.cmp_spec(&a)));
    }
}

/// Buckets stand in strictly ascending priority order.
pub open spec fn ascending<P: Ord, H>(bs: Seq<BucketView<P, H>>) -> bool {
    forall|i: int, j: int| 0 <= i < j < bs.len() ==> #[trigger] lt(bs[i].0, bs[j].0)
}

/// `k` is where priority `p` belongs among `bs`: after every lower priority,
/// before every other.
pub open spec fn slot<P: Ord, H>(bs: Seq<BucketView<P, H>>, p: P, k: int) -> bool {
    &&& 0 <= k <= bs.len()
    &&& forall|j: int| 0 <= j < k ==> #[trigger] lt(bs[j].0, p)
    &&& k < bs.len() ==> !lt(bs[k].0, p)
}

/// Whether `bs` has a bucket of priority `p` at its slot `k`.
pub open spec fn has_bucket<P: Ord, H>(bs: Seq<BucketView<P, H>>, p: P, k: int) -> bool {
    slot(bs, p, k) && k < bs.len() && same(bs[k].0, p)
}

/// `bs` after appending `h` to the bucket of priority `p`, whose slot is `k`,
/// creating the bucket when absent.
pub open spec fn with_subscriber<P: Ord, H>(bs: Seq<BucketView<P, H>>, p: P, k: int, h: H) -> Seq<
    BucketView<P, H>,
> {
    if has_bucket(bs, p, k) {
        bs.update(k, (bs[k].0, bs[k].1.push(h)))
    } else {
        bs.insert(k, (p, seq![h]))
    }
}

/// Under the ordering laws, an ascending sequence has exactly one slot for a
/// priority.
proof fn lemma_slot_unique<P: Ord, H>(bs: Seq<BucketView<P, H>>, p: P, k: int, j: int)
    requires
        obeys_cmp::<P>(),
        ascending(bs),
        slot(bs, p, k),
        slot(bs, p, j),
    ensures
        j == k,
{
    lemma_total_order::<P>();
    if j < k {
        assert(lt(bs[j].0, p));
    } else if j > k {
        assert(lt(bs[k].0, p));
    }
}

/// The buckets `after` and result `r` that a prioritized dispatch may produce
/// from `before`: the first `k` buckets are traversed in order, each traversal
/// giving `rs[j]`; the walk goes on past a bucket unless it reported
/// `Stopped`; the result is that of the last bucket traversed.
pub open spec fn prioritized<P, H>(
    before: Seq<BucketView<P, H>>,
    after: Seq<BucketView<P, H>>,
    k: int,
    rs: Seq<EventDispatchResult>,
    r: EventDispatchResult,
) -> bool {
    &&& after.len() == before.len()
    &&& 0 <= k <= before.len()
    &&& rs.len() == k
    &&& forall|j: int| 0 <= j < before.len() ==> #[trigger] after[j].0 == before[j].0
    &&& forall|j: int| 0 <= j < k ==> delivered(before[j].1, after[j].1, #[trigger] rs[j])
    &&& forall|j: int| k <= j < before.len() ==> #[trigger] after[j] == before[j]
    &&& forall|j: int| 0 <= j < k - 1 ==> !(#[trigger] rs[j] is Stopped)
    &&& k < before.len() ==> k > 0 && rs[k - 1] is Stopped
    &&& r == if k == 0 {
        EventDispatchResult::NotNeeded
    } else {
        rs[k - 1]
    }
}

/// The category map `after` and result `r` that a prioritized dispatch of an
/// event of category `c` may produce from `before`.
pub open spec fn dispatched_by_priority<T, P, H>(
    before: Map<T, Seq<BucketView<P, H>>>,
    after: Map<T, Seq<BucketView<P, H>>>,
    c: T,
    r: EventDispatchResult,
) -> bool {
    if before.contains_key(c) {
        exists|bs: Seq<BucketView<P, H>>, k: int, rs: Seq<EventDispatchResult>|
            after == before.insert(c, bs) && #[trigger] prioritized(before[c], bs, k, rs, r)
    } else {
        after == before && r == EventDispatchResult::NotNeeded
    }
}

struct Bucket<P, H> {
    priority: P,
    subscribers: Vec<H>,
}

impl<P, H> Bucket<P, H> {
    spec fn view(&self) -> BucketView<P, H> {
        (self.priority, self.subscribers@)
    }
}

/// The buckets of category `c` in `m`; none when the category is absent.
pub open spec fn buckets_of<T, P, H>(m: Map<T, Seq<BucketView<P, H>>>, c: T) -> Seq<BucketView<P, H>> {
    if m.contains_key(c) {
        m[c]
    } else {
        Seq::empty()
    }
}

spec fn buckets_view<P, H>(bs: Seq<Bucket<P, H>>) -> Seq<BucketView<P, H>> {
    bs.map_values(|b: Bucket<P, H>| b.view())
}

/// A registry from categories to priority-ordered buckets of non-owning
/// subscriber handles.
///
/// A category's buckets are a `Vec` kept in strictly ascending priority
/// order rather than a `BTreeMap`: a dispatch walks the buckets in order and
/// changes each one in place, and vstd specifies neither `values_mut` nor
/// `get_mut` of `BTreeMap`, so that walk could not be verified over one.
pub struct PriorityEventBus<T, P, H> {
    channels: HashMap<T, Vec<Bucket<P, H>>>,
}

impl<T, P, H> View for PriorityEventBus<T, P, H> {
    type V = Map<T, Seq<BucketView<P, H>>>;

    closed spec fn view(&self) -> Map<T, Seq<BucketView<P, H>>> {
        self.channels@.map_values(|v: Vec<Bucket<P, H>>| buckets_view(v@))
    }
}

fn is_less<P: Ord>(a: &P, b: &P) -> (r: bool)
    requires
        obeys_cmp::<P>(),
    ensures
        r == lt(*a, *b),
{
    proof {
        lemma_total_order::<P>();
    }
    match a.cmp(b) {
        Ordering::Less => true,
        _ => false,
    }
}

fn is_same<P: Ord>(a: &P, b: &P) -> (r: bool)
    requires
        obeys_cmp::<P>(),
    ensures
        r == same(*a, *b),
{
    proof {
        lemma_total_order::<P>();
    }
    match a.cmp(b) {
        Ordering::Equal => true,
        _ => false,
    }
}

/// Finds the slot of priority `p` among the buckets.
fn find_slot<P: Ord, H>(bs: &Vec<Bucket<P, H>>, p: &P) -> (k: usize)
    requires
        obeys_cmp::<P>(),
        ascending(buckets_view(bs@)),
    ensures
        slot(buckets_view(bs@), *p, k as int),
{
    let ghost v = buckets_view(bs@);
    let mut k: usize = 0;
    while k < bs.len() && is_less(&bs[k].priority, p)
        invariant
            obeys_cmp::<P>(),
            k <= bs.len(),
            v == buckets_view(bs@),
            forall|j: int| 0 <= j < k ==> #[trigger] lt(v[j].0, *p),
        decreases bs.len() - k,
    {
        k = k + 1;
    }
    k
}

impl<T: Eq + Hash, P: Ord, H> PriorityEventBus<T, P, H> {
    /// Categories compare and hash consistently, buckets ascend by priority,
    /// and every bucket's failure count fits the result type.
    pub open spec fn wf(&self) -> bool {
        &&& obeys_key_model::<T>()
        &&& obeys_cmp::<P>()
        &&& forall|c: T| #[trigger] self@.contains_key(c) ==> ascending(self@[c])
        &&& forall|c: T, j: int|
            #[trigger] self@.contains_key(c) && 0 <= j < self@[c].len() ==> #[trigger] self@[c][j].1.len()
                <= u32::MAX
    }

    /// An empty registry.
    pub fn new() -> (r: Self)
        requires
            obeys_key_model::<T>(),
            obeys_cmp::<P>(),
        ensures
            r.wf(),
            r@ == Map::<T, Seq<BucketView<P, H>>>::empty(),
    {
        let r = PriorityEventBus { channels: HashMap::new() };
        proof {
            assert(r@ =~= Map::<T, Seq<BucketView<P, H>>>::empty());
        }
        r
    }

    /// Appends `handle` to the bucket of priority `with_priority` in the
    /// category `to_category`, creating the category and the bucket as needed.
    pub fn subscribe(&mut self, handle: H, to_category: T, with_priority: P)
        requires
            old(self).wf(),
            forall|k: int|
                has_bucket(buckets_of(old(self)@, to_category), with_priority, k)
                    ==> #[trigger] buckets_of(old(self)@, to_category)[k].1.len() < u32::MAX,
        ensures
            final(self).wf(),
            exists|k: int|
                slot(buckets_of(old(self)@, to_category), with_priority, k) && final(self)@
                    == old(self)@.insert(
                    to_category,
                    #[trigger] with_subscriber(
                        buckets_of(old(self)@, to_category),
                        with_priority,
                        k,
                        handle,
                    ),
                ),
    {
        let ghost c = to_category;
        let ghost h = handle;
        let ghost p = with_priority;
        let mut bs = match self.channels.remove(&to_category) {
            Some(bs) => bs,
            None => Vec::new(),
        };
        let ghost before = buckets_view(bs@);
        assert(before =~= buckets_of(old(self)@, c));
        let k = find_slot(&bs, &with_priority);
        if k < bs.len() && is_same(&bs[k].priority, &with_priority) {
            let mut b = bs.remove(k);
            b.subscribers.push(handle);
            bs.insert(k, b);
            proof {
                assert(buckets_view(bs@) =~= with_subscriber(before, p, k as int, h));
            }
        } else {
            let b = Bucket { priority: with_priority, subscribers: vec![handle] };
            assert(b.subscribers@ =~= seq![h]);
            bs.insert(k, b);
            proof {
                assert(buckets_view(bs@) =~= with_subscriber(before, p, k as int, h));
            }
        }
        self.channels.insert(to_category, bs);
        proof {
            assert(self@ =~= old(self)@.insert(c, with_subscriber(before, p, k as int, h)));
            let after = with_subscriber(before, p, k as int, h);
            lemma_total_order::<P>();
            if has_bucket(before, p, k as int) {
                assert forall|a: int, b: int| 0 <= a < b < after.len() implies #[trigger] lt(
                    after[a].0,
                    after[b].0,
                ) by {
                    assert(after[a].0 == before[a].0);
                    assert(after[b].0 == before[b].0);
                }
            } else {
                if (k as int) < before.len() {
                    assert(lt(p, before[k as int].0));
                }
                assert forall|a: int, b: int| 0 <= a < b < after.len() implies #[trigger] lt(
                    after[a].0,
                    after[b].0,
                ) by {
                    if b < k {
                    } else if b == k {
                        assert(after[a].0 == before[a].0);
                    } else if a == k {
                        assert(after[b].0 == before[b - 1].0);
                        if b - 1 > k {
                            assert(lt(before[k as int].0, before[b - 1].0));
                        }
                    } else if a < k {
                        assert(after[b].0 == before[b - 1].0);
                        assert(lt(before[a].0, p));
                        if (k as int) < before.len() {
                            assert(lt(p, before[b - 1].0)) by {
                                if b - 1 > k {
                                    assert(lt(before[k as int].0, before[b - 1].0));
                                }
                            }
                        }
                    } else {
                        assert(after[a].0 == before[a - 1].0);
                        assert(after[b].0 == before[b - 1].0);
                    }
                }
            }
            assert(ascending(after));
        }
    }

    /// Removes from the bucket of priority `with_priority` in the category
    /// `from_category`, searching no other bucket, the first handle whose
    /// lookup finds a subscriber of identity `id`; when the scan meets a stale
    /// handle, keeps only the bucket's live handles afterwards. Returns
    /// whether a match was removed.
    pub fn unsubscribe_by_id<E>(&mut self, id: &Uuid, from_category: T, with_priority: &P) -> (r: bool)
        where
            H: SubscriberHandle<E>,
        requires
            old(self).wf(),
        ensures
            final(self).wf(),
            forall|k: int|
                #[trigger] slot(buckets_of(old(self)@, from_category), *with_priority, k) ==> if has_bucket(
                    buckets_of(old(self)@, from_category),
                    *with_priority,
                    k,
                ) {
                    exists|looks: Seq<Lookup>, live: Seq<bool>|
                        #![trigger unsubscribed(old(self)@[from_category][k].1, looks, *id, live)]
                        looks.len() == old(self)@[from_category][k].1.len() && r == (first_found(looks, *id) is Some)
                            && final(self)@ == old(self)@.insert(
                            from_category,
                            old(self)@[from_category].update(
                                k,
                                (
                                    old(self)@[from_category][k].0,
                                    unsubscribed(old(self)@[from_category][k].1, looks, *id, live),
                                ),
                            ),
                        )
                } else {
                    final(self)@ == old(self)@ && !r
                },
    {
        let ghost c = from_category;
        let ghost p = *with_priority;
        match self.channels.remove(&from_category) {
            Some(mut bs) => {
                let ghost before = buckets_view(bs@);
                assert(old(self)@.contains_key(c));
                assert(before == old(self)@[c]);
                let k = find_slot(&bs, with_priority);
                if k < bs.len() && is_same(&bs[k].priority, with_priority) {
                    let mut b = bs.remove(k);
                    let ghost start = b.subscribers@;
                    assert(start == before[k as int].1);
                    let found = unsubscribe_from::<E, H>(&mut b.subscribers, id);
                    let ghost list = b.subscribers@;
                    bs.insert(k, b);
                    self.channels.insert(from_category, bs);
                    proof {
                        assert(buckets_view(bs@) =~= before.update(k as int, (before[k as int].0, list)));
                        assert(list.len() <= start.len());
                        assert(self@ =~= old(self)@.insert(c, before.update(k as int, (before[k as int].0, list))));
                        assert forall|j: int| #[trigger] slot(before, p, j) implies j == k by {
                            lemma_slot_unique(before, p, k as int, j);
                        }
                    }
                    found
                } else {
                    self.channels.insert(from_category, bs);
                    proof {
                        assert(self@ =~= old(self)@);
                        assert forall|j: int| #[trigger] slot(before, p, j) implies !has_bucket(before, p, j) by {
                            lemma_slot_unique(before, p, k as int, j);
                        }
                    }
                    false
                }
            },
            None => {
                proof {
                    assert(self@ =~= old(self)@);
                    assert forall|j: int| #[trigger] slot(buckets_of(old(self)@, c), p, j) implies !has_bucket(
                        buckets_of(old(self)@, c), p, j) by {
                    }
                }
                false
            },
        }
    }

    /// Removes from one bucket a handle of the subscriber with the identity
    /// that `subscriber.id()` gives, as `unsubscribe_by_id` does.
    pub fn unsubscribe<E, S: Subscriber<T, E>>(
        &mut self,
        subscriber: &S,
        from_category: T,
        with_priority: &P,
    ) -> (r: bool)
        where
            H: SubscriberHandle<E>,
        requires
            old(self).wf(),
        ensures
            final(self).wf(),
            forall|k: int|
                #[trigger] slot(buckets_of(old(self)@, from_category), *with_priority, k) ==> if has_bucket(
                    buckets_of(old(self)@, from_category),
                    *with_priority,
                    k,
                ) {
                    exists|id: Uuid, looks: Seq<Lookup>, live: Seq<bool>|
                        #![trigger unsubscribed(old(self)@[from_category][k].1, looks, id, live)]
                        looks.len() == old(self)@[from_category][k].1.len() && r == (first_found(looks, id) is Some)
                            && final(self)@ == old(self)@.insert(
                            from_category,
                            old(self)@[from_category].update(
                                k,
                                (
                                    old(self)@[from_category][k].0,
                                    unsubscribed(old(self)@[from_category][k].1, looks, id, live),
                                ),
                            ),
                        )
                } else {
                    final(self)@ == old(self)@ && !r
                },
    {
        let id = subscriber.id();
        self.unsubscribe_by_id::<E>(id, from_category, with_priority)
    }

    /// Removes every category.
    pub fn unsubscribe_all(&mut self)
        requires
            old(self).wf(),
        ensures
            final(self).wf(),
            final(self)@ == Map::<T, Seq<BucketView<P, H>>>::empty(),
    {
        self.channels.clear();
        proof {
            assert(self@ =~= Map::<T, Seq<BucketView<P, H>>>::empty());
        }
    }

    /// Removes the category `from_category` with all its buckets.
    pub fn unsubscribe_all_from_category(&mut self, from_category: &T)
        requires
            old(self).wf(),
        ensures
            final(self).wf(),
            final(self)@ == old(self)@.remove(*from_category),
    {
        self.channels.remove(from_category);
        proof {
            assert(self@ =~= old(self)@.remove(*from_category));
        }
    }

    /// Removes the bucket of priority `with_priority` from the category
    /// `from_category`; the category itself stays.
    pub fn unsubscribe_all_from_category_prioritized(&mut self, from_category: T, with_priority: &P)
        requires
            old(self).wf(),
        ensures
            final(self).wf(),
            forall|k: int|
                #[trigger] slot(buckets_of(old(self)@, from_category), *with_priority, k) ==> final(self)@
                    == if has_bucket(buckets_of(old(self)@, from_category), *with_priority, k) {
                    old(self)@.insert(from_category, old(self)@[from_category].remove(k))
                } else {
                    old(self)@
                },
    {
        let ghost c = from_category;
        let ghost p = *with_priority;
        match self.channels.remove(&from_category) {
            Some(mut bs) => {
                let ghost before = buckets_view(bs@);
                assert(old(self)@.contains_key(c));
                assert(before == old(self)@[c]);
                let k = find_slot(&bs, with_priority);
                if k < bs.len() && is_same(&bs[k].priority, with_priority) {
                    bs.remove(k);
                    self.channels.insert(from_category, bs);
                    proof {
                        assert(buckets_view(bs@) =~= before.remove(k as int));
                        assert(self@ =~= old(self)@.insert(c, before.remove(k as int)));
                        assert forall|j: int| #[trigger] slot(before, p, j) implies j == k by {
                            lemma_slot_unique(before, p, k as int, j);
                        }
                    }
                } else {
                    self.channels.insert(from_category, bs);
                    proof {
                        assert(self@ =~= old(self)@);
                        assert forall|j: int| #[trigger] slot(before, p, j) implies !has_bucket(before, p, j) by {
                            lemma_slot_unique(before, p, k as int, j);
                        }
                    }
                }
            },
            None => {
                proof {
                    assert(self@ =~= old(self)@);
                }
            },
        }
    }

    /// The number of handles in the bucket of priority `priority` in the
    /// category `category`, if that bucket exists.
    pub fn bucket_len(&self, category: &T, priority: &P) -> (r: Option<usize>)
        requires
            self.wf(),
        ensures
            forall|k: int|
                #[trigger] slot(buckets_of(self@, *category), *priority, k) ==> r == if has_bucket(
                    buckets_of(self@, *category),
                    *priority,
                    k,
                ) {
                    Some(self@[*category][k].1.len() as usize)
                } else {
                    None::<usize>
                },
    {
        match self.channels.get(category) {
            Some(bs) => {
                let ghost before = buckets_view(bs@);
                assert(self@.contains_key(*category));
                assert(before == self@[*category]);
                let k = find_slot(bs, priority);
                proof {
                    assert forall|j: int| #[trigger] slot(before, *priority, j) implies j == k by {
                        lemma_slot_unique(before, *priority, k as int, j);
                    }
                }
                if k < bs.len() && is_same(&bs[k].priority, priority) {
                    assert(before[k as int].1 == bs@[k as int].subscribers@);
                    Some(bs[k].subscribers.len())
                } else {
                    None
                }
            },
            None => None,
        }
    }

    /// Dispatches `event` to the buckets of `category` in ascending priority
    /// order, blocking on subscribers' locks or not. A bucket that reports
    /// `Stopped` ends the walk; the result is that of the last bucket walked.
    /// Stale handles met in a bucket are purged from it.
    pub fn dispatch_in_category<E>(&mut self, category: T, event: &E, blocking: bool) -> (r:
        EventDispatchResult)
        where
            H: SubscriberHandle<E>,
        requires
            old(self).wf(),
        ensures
            final(self).wf(),
            dispatched_by_priority(old(self)@, final(self)@, category, r),
    {
        let ghost c = category;
        match self.channels.remove(&category) {
            Some(mut bs) => {
                let ghost before = buckets_view(bs@);
                assert(old(self)@.contains_key(c));
                assert(before == old(self)@[c]);
                let ghost mut rs: Seq<EventDispatchResult> = Seq::empty();
                let mut result = EventDispatchResult::NotNeeded;
                let mut stopped = false;
                let mut i: usize = 0;
                while !stopped && i < bs.len()
                    invariant
                        i <= bs.len() == before.len(),
                        rs.len() == i,
                        forall|j: int|
                            0 <= j < before.len() ==> #[trigger] buckets_view(bs@)[j].0 == before[j].0,
                        forall|j: int|
                            0 <= j < i ==> delivered(before[j].1, buckets_view(bs@)[j].1, #[trigger] rs[j]),
                        forall|j: int| 0 <= j < i ==> #[trigger] buckets_view(bs@)[j].1.len() <= before[j].1.len(),
                        forall|j: int| i <= j < before.len() ==> #[trigger] buckets_view(bs@)[j] == before[j],
                        forall|j: int| 0 <= j < i - 1 ==> !(#[trigger] rs[j] is Stopped),
                        stopped ==> i > 0 && rs[i - 1] is Stopped,
                        !stopped && i > 0 ==> !(rs[i - 1] is Stopped),
                        result == if i == 0 {
                            EventDispatchResult::NotNeeded
                        } else {
                            rs[i - 1]
                        },
                        forall|j: int| 0 <= j < before.len() ==> #[trigger] before[j].1.len() <= u32::MAX,
                    decreases bs.len() - i,
                {
                    let ghost at = bs@;
                    let mut b = bs.remove(i);
                    let ghost start = b.subscribers@;
                    assert(start == before[i as int].1 && b.priority == before[i as int].0) by {
                        assert(buckets_view(at)[i as int] == before[i as int]);
                    }
                    let mut delivery = Delivering::new(event, blocking);
                    let r = deliver_and_clean(&mut b.subscribers, &mut delivery);
                    let ghost bv = b.view();
                    assert(bv.0 == before[i as int].0);
                    bs.insert(i, b);
                    proof {
                        assert(buckets_view(bs@) =~= buckets_view(at).update(i as int, bv));
                        rs = rs.push(r);
                    }
                    result = r;
                    if let EventDispatchResult::Stopped = r {
                        stopped = true;
                    }
                    i = i + 1;
                }
                let ghost after = buckets_view(bs@);
                self.channels.insert(category, bs);
                proof {
                    assert(self@ =~= old(self)@.insert(c, after));
                    assert(prioritized(before, after, i as int, rs, result));
                    assert forall|a: int, b: int| 0 <= a < b < after.len() implies #[trigger] lt(
                        after[a].0,
                        after[b].0,
                    ) by {
                        assert(after[a].0 == before[a].0);
                        assert(after[b].0 == before[b].0);
                    }
                    assert forall|j: int| 0 <= j < after.len() implies #[trigger] after[j].1.len() <= u32::MAX by {
                        assert(before[j].1.len() <= u32::MAX);
                        if j >= i {
                            assert(after[j] == before[j]);
                        }
                    }
                }
                result
            },
            None => {
                proof {
                    assert(self@ =~= old(self)@);
                }
                EventDispatchResult::NotNeeded
            },
        }
    }

    /// Dispatches `event` to the buckets of its category without waiting on
    /// any subscriber's lock.
    pub fn dispatch_event<E: Event<T>>(&mut self, event: &E) -> (r: EventDispatchResult)
        where
            H: SubscriberHandle<E>,
        requires
            old(self).wf(),
        ensures
            final(self).wf(),
            exists|c: T| #[trigger] dispatched_by_priority(old(self)@, final(self)@, c, r),
    {
        let c = event.category();
        self.dispatch_in_category(c, event, false)
    }

    /// Dispatches `event` to the buckets of its category, waiting for each
    /// subscriber's lock where there is one.
    pub fn dispatch_blocking_event<E: Event<T>>(&mut self, event: &E) -> (r: EventDispatchResult)
        where
            H: SubscriberHandle<E>,
        requires
            old(self).wf(),
        ensures
            final(self).wf(),
            exists|c: T| #[trigger] dispatched_by_priority(old(self)@, final(self)@, c, r),
    {
        let c = event.category();
        self.dispatch_in_category(c, event, true)
    }
}

} // verus!
