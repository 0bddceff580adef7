//! A queue of events and the listeners subscribed to each event type.
//!
//! Events are queued by `emit` and handed out by `process`, oldest first,
//! each with the listeners of its type in the order they subscribed. The
//! listeners' code is the caller's: a listener is known here by the id that
//! `subscribe` gave it.
use vstd::prelude::*;
use crate::registry::TypeKey;

verus! {

/// Marks a type that can travel on the event bus.
pub trait Event {}

/// The id `subscribe` gives a listener.
pub type ListenerId = u64;

pub struct EventBus<E> {
    listeners: Vec<(TypeKey, ListenerId)>,
    queue: Vec<(TypeKey, E)>,
}

/// The listeners of `event_type`, in the order they subscribed.
pub open spec fn listeners_of(listeners: Seq<(TypeKey, ListenerId)>, event_type: TypeKey) -> Seq<ListenerId>
    decreases listeners.len(),
{
    if listeners.len() == 0 {
        Seq::empty()
    } else {
        let r = listeners_of(listeners.drop_last(), event_type);
        if listeners.last().0 == event_type {
            r.push(listeners.last().1)
        } else {
            r
        }
    }
}

/// Each subscription's id is its place in the list, as `subscribe` hands
/// them out.
pub open spec fn ids_in_order(subs: Seq<(TypeKey, ListenerId)>) -> bool {
    forall|i: int| 0 <= i < subs.len() ==> #[trigger] subs[i].1 == i
}

proof fn lemma_listeners_of(subs: Seq<(TypeKey, ListenerId)>, t: TypeKey)
    ensures
        forall|l: ListenerId| #[trigger] listeners_of(subs, t).contains(l)
            <==> exists|i: int| 0 <= i < subs.len() && #[trigger] subs[i] == (t, l),
        ids_in_order(subs) ==> listeners_of(subs, t).no_duplicates(),
        ids_in_order(subs) ==> forall|k: int| 0 <= k < listeners_of(subs, t).len() ==> #[trigger] listeners_of(subs, t)[k] < subs.len(),
    decreases subs.len(),
{
    if subs.len() > 0 {
        let pre = subs.drop_last();
        lemma_listeners_of(pre, t);
        let r = listeners_of(pre, t);
        assert(ids_in_order(subs) ==> ids_in_order(pre)) by {
            if ids_in_order(subs) {
                assert forall|i: int| 0 <= i < pre.len() implies #[trigger] pre[i].1 == i by {
                    assert(pre[i] == subs[i]);
                }
            }
        }
        assert forall|l: ListenerId| #[trigger] listeners_of(subs, t).contains(l)
            <==> exists|i: int| 0 <= i < subs.len() && #[trigger] subs[i] == (t, l) by {
            if subs.last().0 == t {
                vstd::seq_lib::lemma_seq_contains_after_push(r, subs.last().1, l);
            }
            if exists|i: int| 0 <= i < subs.len() && #[trigger] subs[i] == (t, l) {
                let i = choose|i: int| 0 <= i < subs.len() && #[trigger] subs[i] == (t, l);
                if i < pre.len() {
                    assert(pre[i] == subs[i]);
                }
            }
            if r.contains(l) {
                let i = choose|i: int| 0 <= i < pre.len() && #[trigger] pre[i] == (t, l);
                assert(subs[i] == pre[i]);
            }
        }
        if ids_in_order(subs) && subs.last().0 == t {
            let n = subs.last().1;
            assert(n == subs.len() - 1);
            assert forall|k: int| 0 <= k < r.len() implies #[trigger] r[k] < n by {}
            let r2 = r.push(n);
            assert forall|a: int, b: int| 0 <= a < b < r2.len() implies r2[a] != r2[b] by {
                if b == r.len() {
                    assert(r2[a] == r[a]);
                } else {
                    assert(r2[a] == r[a] && r2[b] == r[b]);
                }
            }
            assert forall|k: int| 0 <= k < r2.len() implies #[trigger] r2[k] < subs.len() by {
                if k < r.len() {
                    assert(r2[k] == r[k]);
                }
            }
        }
    }
}

proof fn lemma_every_listener_of(subs: Seq<(TypeKey, ListenerId)>)
    requires
        ids_in_order(subs),
    ensures
        forall|t: TypeKey, l: ListenerId| #[trigger] listeners_of(subs, t).contains(l)
            <==> (l < subs.len() && subs[l as int].0 == t),
        forall|t: TypeKey| #[trigger] listeners_of(subs, t).no_duplicates(),
{
    assert forall|t: TypeKey, l: ListenerId| #[trigger] listeners_of(subs, t).contains(l)
        <==> (l < subs.len() && subs[l as int].0 == t) by {
        lemma_listeners_of(subs, t);
        if listeners_of(subs, t).contains(l) {
            let i = choose|i: int| 0 <= i < subs.len() && #[trigger] subs[i] == (t, l);
            assert(subs[i].1 == i);
        }
        if l < subs.len() && subs[l as int].0 == t {
            assert(subs[l as int].1 == l);
            assert(subs[l as int] == (t, l));
        }
    }
    assert forall|t: TypeKey| #[trigger] listeners_of(subs, t).no_duplicates() by {
        lemma_listeners_of(subs, t);
    }
}

/// A listener is handed exactly the events of the type it subscribed to:
/// it is among the listeners of a type if and only if that is its type, and
/// no listener is listed twice for one type.
pub proof fn lemma_listener_gets_its_own_type(subs: Seq<(TypeKey, ListenerId)>, l: ListenerId, t: TypeKey)
    requires
        ids_in_order(subs),
        l < subs.len(),
    ensures
        listeners_of(subs, t).contains(l) <==> subs[l as int].0 == t,
        listeners_of(subs, t).no_duplicates(),
{
    lemma_listeners_of(subs, t);
    if listeners_of(subs, t).contains(l) {
        let i = choose|i: int| 0 <= i < subs.len() && #[trigger] subs[i] == (t, l);
        assert(subs[i].1 == i);
    }
    if subs[l as int].0 == t {
        assert(subs[l as int].1 == l);
        assert(subs[l as int] == (t, l));
    }
}

impl<E> EventBus<E> {
    /// Each subscription's id is its place in the list.
    #[verifier::type_invariant]
    closed spec fn ids_are_places(&self) -> bool {
        ids_in_order(self.listeners@)
    }

    /// Every subscription, oldest first.
    pub closed spec fn subscriptions(&self) -> Seq<(TypeKey, ListenerId)> {
        self.listeners@
    }

    /// The queued events with their types, oldest first.
    pub closed spec fn pending(&self) -> Seq<(TypeKey, E)> {
        self.queue@
    }

    pub fn new() -> (r: Self)
        ensures
            r.subscriptions().len() == 0,
            r.pending().len() == 0,
            ids_in_order(r.subscriptions()),
    {
        EventBus { listeners: Vec::new(), queue: Vec::new() }
    }

    /// Queues `event`, of type `event_type`, for the next `process`.
    pub fn emit(&mut self, event_type: TypeKey, event: E)
        ensures
            final(self).pending() == old(self).pending().push((event_type, event)),
            final(self).subscriptions() == old(self).subscriptions(),
    {
        proof {
            use_type_invariant(&*self);
        }
        let mut queue: Vec<(TypeKey, E)> = Vec::new();
        std::mem::swap(&mut queue, &mut self.queue);
        queue.push((event_type, event));
        std::mem::swap(&mut queue, &mut self.queue);
    }

    /// Subscribes a new listener to `event_type` and returns its id: the
    /// number of subscriptions before it.
    pub fn subscribe(&mut self, event_type: TypeKey) -> (r: ListenerId)
        ensures
            r == old(self).subscriptions().len(),
            final(self).subscriptions() == old(self).subscriptions().push((event_type, r)),
            final(self).pending() == old(self).pending(),
            ids_in_order(old(self).subscriptions()) ==> ids_in_order(final(self).subscriptions()),
    {
        proof {
            use_type_invariant(&*self);
        }
        let id = self.listeners.len() as u64;
        let mut listeners: Vec<(TypeKey, ListenerId)> = Vec::new();
        std::mem::swap(&mut listeners, &mut self.listeners);
        listeners.push((event_type, id));
        proof {
            assert forall|i: int| 0 <= i < listeners@.len() implies #[trigger] listeners@[i].1 == i by {}
        }
        std::mem::swap(&mut listeners, &mut self.listeners);
        id
    }

    fn listeners_for(&self, event_type: TypeKey) -> (r: Vec<ListenerId>)
        ensures
            r@ == listeners_of(self.subscriptions(), event_type),
    {
        let mut r: Vec<ListenerId> = Vec::new();
        let mut i: usize = 0;
        while i < self.listeners.len()
            invariant
                i <= self.listeners@.len(),
                r@ == listeners_of(self.listeners@.subrange(0, i as int), event_type),
            decreases self.listeners@.len() - i,
        {
            proof {
                assert(self.listeners@.subrange(0, i + 1).drop_last() =~= self.listeners@.subrange(0, i as int));
            }
            if self.listeners[i].0 == event_type {
                r.push(self.listeners[i].1);
            }
            i = i + 1;
        }
        assert(self.listeners@.subrange(0, i as int) =~= self.listeners@);
        r
    }

    /// Subscription ids are the places of the subscriptions, as
    /// `subscribe` gives them.
    pub proof fn lemma_ids_in_order(&self)
        requires
            ids_in_order(self.subscriptions()),
        ensures
            forall|l: ListenerId, t: TypeKey| #![trigger listeners_of(self.subscriptions(), t).contains(l)]
                l < self.subscriptions().len() ==> (listeners_of(self.subscriptions(), t).contains(l)
                    <==> self.subscriptions()[l as int].0 == t),
    {
        assert forall|l: ListenerId, t: TypeKey| #![trigger listeners_of(self.subscriptions(), t).contains(l)]
            l < self.subscriptions().len() implies (listeners_of(self.subscriptions(), t).contains(l)
                <==> self.subscriptions()[l as int].0 == t) by {
            lemma_listener_gets_its_own_type(self.subscriptions(), l, t);
        }
    }

    /// An emitted event is handed out by the next `process` and by no later
    /// one: `emit` queues it behind the events already waiting, `process`
    /// hands it out in that place with every listener of its type (each
    /// once), and leaves nothing queued.
    pub proof fn lemma_emit_then_process(
        b0: EventBus<E>,
        b1: EventBus<E>,
        b2: EventBus<E>,
        t: TypeKey,
        e: E,
        r: Seq<(E, Vec<ListenerId>)>,
    )
        requires
            ids_in_order(b0.subscriptions()),
            b1.pending() == b0.pending().push((t, e)),
            b1.subscriptions() == b0.subscriptions(),
            b2.pending().len() == 0,
            b2.subscriptions() == b1.subscriptions(),
            r.len() == b1.pending().len(),
            forall|k: int| 0 <= k < r.len() ==> (#[trigger] r[k]).0 == b1.pending()[k].1
                && r[k].1@ == listeners_of(b1.subscriptions(), b1.pending()[k].0),
        ensures
            r[b0.pending().len() as int].0 == e,
            r[b0.pending().len() as int].1@ == listeners_of(b0.subscriptions(), t),
            r[b0.pending().len() as int].1@.no_duplicates(),
            b2.pending().len() == 0,
    {
        let k = b0.pending().len() as int;
        assert(b1.pending()[k] == (t, e));
        assert(r[k].0 == e);
        lemma_listeners_of(b0.subscriptions(), t);
    }

    /// Takes every queued event, oldest first, each with the listeners of its
    /// type (in the order they subscribed) that are to receive it.
    pub fn process(&mut self) -> (r: Vec<(E, Vec<ListenerId>)>)
        ensures
            final(self).pending().len() == 0,
            final(self).subscriptions() == old(self).subscriptions(),
            r@.len() == old(self).pending().len(),
            forall|k: int| 0 <= k < r@.len() ==> (#[trigger] r@[k]).0 == old(self).pending()[k].1
                && r@[k].1@ == listeners_of(old(self).subscriptions(), old(self).pending()[k].0),
            forall|k: int, l: ListenerId| 0 <= k < r@.len() ==> (#[trigger] r@[k].1@.contains(l)
                <==> (l < old(self).subscriptions().len() && old(self).subscriptions()[l as int].0 == old(self).pending()[k].0)),
            forall|k: int| 0 <= k < r@.len() ==> (#[trigger] r@[k]).1@.no_duplicates(),
    {
        proof {
            use_type_invariant(&*self);
            lemma_every_listener_of(old(self).subscriptions());
        }
        let mut events: Vec<(TypeKey, E)> = Vec::new();
        std::mem::swap(&mut events, &mut self.queue);
        let ghost q = events@;
        assert(q.len() == events.len());
        let mut r: Vec<(E, Vec<ListenerId>)> = Vec::new();
        let mut taken: usize = 0;
        while events.len() > 0
            invariant
                self.queue@.len() == 0,
                self.listeners@ == old(self).listeners@,
                q == old(self).pending(),
                taken <= q.len(),
                q.len() <= usize::MAX,
                events@ == q.subrange(taken as int, q.len() as int),
                r@.len() == taken,
                forall|k: int| 0 <= k < r@.len() ==> (#[trigger] r@[k]).0 == q[k].1
                    && r@[k].1@ == listeners_of(self.listeners@, q[k].0),
            decreases events@.len(),
        {
            let (event_type, event) = events.remove(0);
            let targets = self.listeners_for(event_type);
            let ghost old_r = r@;
            r.push((event, targets));
            proof {
                assert(q[taken as int] == (event_type, event));
                assert forall|k: int| 0 <= k < r@.len() implies (#[trigger] r@[k]).0 == q[k].1
                    && r@[k].1@ == listeners_of(self.listeners@, q[k].0) by {
                    if k < old_r.len() {
                        assert(r@[k] == old_r[k]);
                    }
                }
                assert(events@ =~= q.subrange(taken + 1, q.len() as int));
            }
            taken = taken + 1;
        }
        r
    }
}

} // verus!
