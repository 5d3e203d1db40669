//! The scheduler wrapper around one behaviour: its cached requirement
//! mask, its two deferred request queues, and the drain that applies
//! them after a tick's scans.

use vstd::prelude::*;

verus! {

use crate::factory::{factory_keys, Factory};
use crate::pool::{pools_wf, Entities, Objects};
use crate::types::{first_hit, mask_satisfies, BitFlags, ComponentRefs, NameTag};
use crate::{ObjectIndex, SystemIndex};

/// The slot bookkeeping a tick's deferred requests act on: the active
/// list, the free list, and the directory of live slots' names.
#[verifier::ext_equal]
pub struct SlotLists {
    pub active: Seq<usize>,
    pub free: Seq<usize>,
    pub names: Seq<(usize, Seq<u8>)>,
}

/// The slot bookkeeping of a store pair.
pub open spec fn slot_lists<T>(e: Entities, o: Objects<T>) -> SlotLists {
    SlotLists {
        active: e.active@,
        free: e.free@,
        names: o.directory().map_values(|p: (usize, NameTag)| (p.0, p.1@)),
    }
}

/// One destroy applied: the first active occurrence of the slot leaves
/// the active list and the directory, and the slot index returns to the
/// free list; a slot that is not active is ignored.
pub open spec fn apply_destroy(s: SlotLists, target: usize) -> SlotLists {
    match first_hit(s.active, target) {
        Some(pos) => SlotLists {
            active: s.active.remove(pos),
            free: s.free.push(target),
            names: s.names.remove(pos),
        },
        None => s,
    }
}

/// A destroy queue drained most-recently-queued first.
pub open spec fn apply_destroy_queue(s: SlotLists, q: Seq<usize>) -> SlotLists
    decreases q.len(),
{
    if q.len() == 0 {
        s
    } else {
        apply_destroy_queue(apply_destroy(s, q.last()), q.drop_last())
    }
}

/// One spawn applied: the top of the free list becomes active under the
/// requested name, or nothing changes when every slot is taken.
pub open spec fn apply_spawn(s: SlotLists, name: Seq<u8>) -> SlotLists {
    if s.free.len() == 0 {
        s
    } else {
        SlotLists {
            active: s.active.push(s.free.last()),
            free: s.free.drop_last(),
            names: s.names.push((s.free.last(), name)),
        }
    }
}

/// A spawn queue drained most-recently-queued first; each request is a
/// `(object name, type name)` pair and only the object name shapes the
/// bookkeeping.
pub open spec fn apply_spawn_queue(s: SlotLists, q: Seq<(NameTag, NameTag)>) -> SlotLists
    decreases q.len(),
{
    if q.len() == 0 {
        s
    } else {
        apply_spawn_queue(apply_spawn(s, q.last().0@), q.drop_last())
    }
}

/// One system's drain: every destroy, then every spawn, each LIFO.
pub open spec fn apply_queues(
    s: SlotLists,
    destroys: Seq<usize>,
    spawns: Seq<(NameTag, NameTag)>,
) -> SlotLists {
    apply_spawn_queue(apply_destroy_queue(s, destroys), spawns)
}

/// All systems' drains, in registration order.
pub open spec fn apply_all(
    s: SlotLists,
    queues: Seq<(Seq<usize>, Seq<(NameTag, NameTag)>)>,
) -> SlotLists
    decreases queues.len(),
{
    if queues.len() == 0 {
        s
    } else {
        apply_all(apply_queues(s, queues[0].0, queues[0].1), queues.drop_first())
    }
}

/// The slots the spawns of a queue would claim, drained most recently
/// queued first.
pub open spec fn spawn_claims(s: SlotLists, q: Seq<(NameTag, NameTag)>) -> Set<usize>
    decreases q.len(),
{
    if q.len() == 0 {
        Set::empty()
    } else {
        let taken = if s.free.len() == 0 {
            Set::<usize>::empty()
        } else {
            Set::<usize>::empty().insert(s.free.last())
        };
        spawn_claims(apply_spawn(s, q.last().0@), q.drop_last()).union(taken)
    }
}

/// The slots one system's drain would claim: its spawns' claims,
/// applied after its destroys. Only these slots can change their mask
/// during the drain: every other slot's component membership stays as
/// its factory left it.
pub open spec fn queue_claims(
    s: SlotLists,
    destroys: Seq<usize>,
    spawns: Seq<(NameTag, NameTag)>,
) -> Set<usize> {
    spawn_claims(apply_destroy_queue(s, destroys), spawns)
}

/// The slots all systems' drains would claim, in registration order.
pub open spec fn all_claims(
    s: SlotLists,
    queues: Seq<(Seq<usize>, Seq<(NameTag, NameTag)>)>,
) -> Set<usize>
    decreases queues.len(),
{
    if queues.len() == 0 {
        Set::empty()
    } else {
        queue_claims(s, queues[0].0, queues[0].1).union(
            all_claims(apply_queues(s, queues[0].0, queues[0].1), queues.drop_first()),
        )
    }
}

/// Draining one more system after a run of drains claims the run's
/// slots plus what the new system claims from the run's final state.
pub proof fn lemma_all_claims_snoc(
    s: SlotLists,
    queues: Seq<(Seq<usize>, Seq<(NameTag, NameTag)>)>,
    pair: (Seq<usize>, Seq<(NameTag, NameTag)>),
)
    ensures
        all_claims(s, queues.push(pair)) == all_claims(s, queues).union(
            queue_claims(apply_all(s, queues), pair.0, pair.1),
        ),
    decreases queues.len(),
{
    let qp = queues.push(pair);
    if queues.len() == 0 {
        assert(qp[0] == pair);
        assert(qp.drop_first() =~= Seq::<(Seq<usize>, Seq<(NameTag, NameTag)>)>::empty());
        assert(all_claims(apply_queues(s, pair.0, pair.1), qp.drop_first()) =~= Set::<
            usize,
        >::empty());
        assert(all_claims(s, qp) =~= queue_claims(s, pair.0, pair.1));
        assert(all_claims(s, queues) =~= Set::<usize>::empty());
        assert(all_claims(s, queues).union(queue_claims(apply_all(s, queues), pair.0, pair.1))
            =~= queue_claims(s, pair.0, pair.1));
    } else {
        assert(qp[0] == queues[0]);
        assert(qp.drop_first() =~= queues.drop_first().push(pair));
        let mid = apply_queues(s, queues[0].0, queues[0].1);
        assert(all_claims(s, qp) == queue_claims(s, queues[0].0, queues[0].1).union(
            all_claims(mid, qp.drop_first()),
        ));
        assert(all_claims(s, queues) == queue_claims(s, queues[0].0, queues[0].1).union(
            all_claims(mid, queues.drop_first()),
        ));
        assert(apply_all(s, queues) == apply_all(mid, queues.drop_first()));
        lemma_all_claims_snoc(mid, queues.drop_first(), pair);
        assert(all_claims(s, qp) =~= all_claims(s, queues).union(
            queue_claims(apply_all(s, queues), pair.0, pair.1),
        ));
    }
}

/// Each system's queue contents, in registration order.
pub open spec fn queues_of(ss: Seq<System>) -> Seq<(Seq<usize>, Seq<(NameTag, NameTag)>)> {
    ss.map_values(|s: System| (s.destroy_queue(), s.spawn_queue()))
}

/// One observable invocation of user logic: a startup hook, an
/// early-update hook, or one behaviour visit of one entity, each
/// stamped with the system's registration index.
pub enum TickEvent {
    Startup(SystemIndex),
    EarlyUpdate(SystemIndex),
    Visit(SystemIndex, ObjectIndex),
}

/// The visits one system's scan performs over a prefix of the active
/// list: each listed slot whose mask is a bitwise superset of the
/// requirement mask, in active-list order.
pub open spec fn qualifying_visits(
    s: SystemIndex,
    req: u32,
    active: Seq<usize>,
    masks: Seq<BitFlags>,
) -> Seq<TickEvent>
    decreases active.len(),
{
    if active.len() == 0 {
        Seq::empty()
    } else {
        let rest = qualifying_visits(s, req, active.drop_last(), masks);
        if mask_satisfies(masks[active.last() as int].0, req) {
            rest.push(TickEvent::Visit(s, active.last()))
        } else {
            rest
        }
    }
}

/// Everything one tick's observation phase invokes: for each system in
/// registration order, its early-update hook, then its behaviour once
/// per qualifying active slot, in active-list order.
pub open spec fn scan_trace(
    systems: Seq<System>,
    active: Seq<usize>,
    masks: Seq<BitFlags>,
) -> Seq<TickEvent>
    decreases systems.len(),
{
    if systems.len() == 0 {
        Seq::empty()
    } else {
        let k = (systems.len() - 1) as usize;
        scan_trace(systems.drop_last(), active, masks) + seq![TickEvent::EarlyUpdate(k)]
            + qualifying_visits(k, systems.last().req_mask(), active, masks)
    }
}

/// One startup hook per system, in registration order.
pub open spec fn startup_trace(n: nat) -> Seq<TickEvent> {
    Seq::new(n, |k: int| TickEvent::Startup(k as usize))
}

/// One early-update hook per system, in registration order.
pub open spec fn early_trace(n: nat) -> Seq<TickEvent> {
    Seq::new(n, |k: int| TickEvent::EarlyUpdate(k as usize))
}

/// A sequence is a prefix of itself.
pub proof fn lemma_prefix_reflexive<A>(s: Seq<A>)
    ensures
        s.is_prefix_of(s),
{
    assert(s =~= s.subrange(0, s.len() as int));
}

/// Being a prefix carries over a longer extension.
pub proof fn lemma_prefix_transitive<A>(a: Seq<A>, b: Seq<A>, c: Seq<A>)
    requires
        a.is_prefix_of(b),
        b.is_prefix_of(c),
    ensures
        a.is_prefix_of(c),
{
    assert(a =~= c.subrange(0, a.len() as int));
}

/// An element sits in a concatenation exactly when it sits in one of
/// the parts.
pub proof fn lemma_contains_add<A>(a: Seq<A>, b: Seq<A>, x: A)
    ensures
        (a + b).contains(x) <==> a.contains(x) || b.contains(x),
{
    if a.contains(x) {
        let w = choose|w: int| 0 <= w < a.len() && a[w] == x;
        assert((a + b)[w] == x);
    }
    if b.contains(x) {
        let w = choose|w: int| 0 <= w < b.len() && b[w] == x;
        assert((a + b)[a.len() + w] == x);
    }
    if (a + b).contains(x) {
        let w = choose|w: int| 0 <= w < (a + b).len() && (a + b)[w] == x;
        if w < a.len() {
            assert(a[w] == x);
        } else {
            assert(b[w - a.len()] == x);
        }
    }
}

/// VISIT LAW, one system: its scan visits slot `e` exactly when `e` is
/// active and `e`'s mask is a bitwise superset of the requirement mask
/// — and it never emits a visit stamped with another system's index.
pub proof fn lemma_qualifying_visits_contains(
    s: SystemIndex,
    req: u32,
    active: Seq<usize>,
    masks: Seq<BitFlags>,
    k: SystemIndex,
    e: ObjectIndex,
)
    ensures
        qualifying_visits(s, req, active, masks).contains(TickEvent::Visit(k, e)) <==> k == s
            && active.contains(e) && mask_satisfies(masks[e as int].0, req),
    decreases active.len(),
{
    let ev = TickEvent::Visit(k, e);
    if active.len() == 0 {
        assert(!qualifying_visits(s, req, active, masks).contains(ev));
        assert(!active.contains(e));
    } else {
        let rest = active.drop_last();
        lemma_qualifying_visits_contains(s, req, rest, masks, k, e);
        let tr = qualifying_visits(s, req, active, masks);
        let tr_rest = qualifying_visits(s, req, rest, masks);
        // Containment in the longer active list decomposes over its
        // last element.
        assert(active.contains(e) <==> rest.contains(e) || active.last() == e) by {
            if active.contains(e) {
                let w = choose|w: int| 0 <= w < active.len() && active[w] == e;
                if w < active.len() - 1 {
                    assert(rest[w] == e);
                }
            }
            if rest.contains(e) {
                let w = choose|w: int| 0 <= w < rest.len() && rest[w] == e;
                assert(active[w] == e);
            }
        }
        if mask_satisfies(masks[active.last() as int].0, req) {
            assert(tr == tr_rest.push(TickEvent::Visit(s, active.last())));
            assert(tr.contains(ev) <==> tr_rest.contains(ev) || ev == TickEvent::Visit(
                s,
                active.last(),
            )) by {
                assert(tr[tr.len() - 1] == TickEvent::Visit(s, active.last()));
                if tr_rest.contains(ev) {
                    let w = choose|w: int| 0 <= w < tr_rest.len() && tr_rest[w] == ev;
                    assert(tr[w] == ev);
                }
                if tr.contains(ev) {
                    let w = choose|w: int| 0 <= w < tr.len() && tr[w] == ev;
                    if w < tr.len() - 1 {
                        assert(tr_rest[w] == ev);
                    }
                }
            }
        } else {
            assert(tr == tr_rest);
        }
    }
}

/// VISIT LAW, whole tick: the observation phase visits `(k, e)` exactly
/// when system `k` is registered, slot `e` is active, and `e`'s mask is
/// a bitwise superset of system `k`'s requirement mask. Every subset or
/// superset relation of the two masks is covered, the equal mask and
/// the full mask included.
pub proof fn lemma_scan_trace_visits(
    systems: Seq<System>,
    active: Seq<usize>,
    masks: Seq<BitFlags>,
    k: SystemIndex,
    e: ObjectIndex,
)
    requires
        systems.len() <= usize::MAX,
    ensures
        scan_trace(systems, active, masks).contains(TickEvent::Visit(k, e)) <==> (k as int)
            < systems.len() && active.contains(e) && mask_satisfies(
            masks[e as int].0,
            systems[k as int].req_mask(),
        ),
    decreases systems.len(),
{
    let ev = TickEvent::Visit(k, e);
    if systems.len() == 0 {
        assert(!scan_trace(systems, active, masks).contains(ev));
    } else {
        let m = (systems.len() - 1) as usize;
        let front = scan_trace(systems.drop_last(), active, masks);
        let early = seq![TickEvent::EarlyUpdate(m)];
        let visits = qualifying_visits(m, systems.last().req_mask(), active, masks);
        lemma_scan_trace_visits(systems.drop_last(), active, masks, k, e);
        lemma_qualifying_visits_contains(m, systems.last().req_mask(), active, masks, k, e);
        lemma_contains_add(front + early, visits, ev);
        lemma_contains_add(front, early, ev);
        assert(!early.contains(ev)) by {
            if early.contains(ev) {
                let w = choose|w: int| 0 <= w < early.len() && early[w] == ev;
                assert(early[w] == TickEvent::EarlyUpdate(m));
            }
        }
        assert(scan_trace(systems, active, masks) == front + early + visits);
        if (k as int) < systems.len() - 1 {
            assert(systems.drop_last()[k as int] == systems[k as int]);
        } else if (k as int) == systems.len() - 1 {
            assert(systems.last() == systems[k as int]);
        }
    }
}

/// Draining one more system after a run of drains is the same as
/// appending its queues to the run.
pub proof fn lemma_apply_all_snoc(
    s: SlotLists,
    queues: Seq<(Seq<usize>, Seq<(NameTag, NameTag)>)>,
    pair: (Seq<usize>, Seq<(NameTag, NameTag)>),
)
    ensures
        apply_all(s, queues.push(pair)) == apply_queues(apply_all(s, queues), pair.0, pair.1),
    decreases queues.len(),
{
    let qp = queues.push(pair);
    if queues.len() == 0 {
        assert(qp[0] == pair);
        assert(qp.drop_first() =~= Seq::<(Seq<usize>, Seq<(NameTag, NameTag)>)>::empty());
        let mid = apply_queues(s, pair.0, pair.1);
        assert(apply_all(s, qp) == apply_all(mid, qp.drop_first()));
        assert(apply_all(mid, qp.drop_first()) == mid);
        assert(apply_all(s, queues) == s);
    } else {
        assert(qp[0] == queues[0]);
        assert(qp.drop_first() =~= queues.drop_first().push(pair));
        let mid = apply_queues(s, queues[0].0, queues[0].1);
        assert(apply_all(s, qp) == apply_all(mid, qp.drop_first()));
        assert(apply_all(s, queues) == apply_all(mid, queues.drop_first()));
        lemma_apply_all_snoc(mid, queues.drop_first(), pair);
    }
}

/// Removing a position and inserting a value back at it is an update.
pub proof fn lemma_remove_insert<A>(s: Seq<A>, i: int, x: A)
    requires
        0 <= i < s.len(),
    ensures
        s.remove(i).insert(i, x) =~= s.update(i, x),
{
    s.remove_ensures(i);
    s.remove(i).insert_ensures(i, x);
}

/// The scheduler's wrapper for one registered behaviour: its position
/// in registration order, the requirement mask computed once at
/// registration, and the spawn and destroy requests deferred during the
/// current tick.
pub struct System {
    pub(crate) index: SystemIndex,
    pub(crate) spawn_requests: Vec<(NameTag, NameTag)>,
    pub(crate) destroy_requests: Vec<ObjectIndex>,
    pub(crate) components: BitFlags,
}

/// What any well-typed user behaviour can do to the system it is
/// handed: enqueue spawn and destroy requests, and nothing else. The
/// registration index and the requirement mask are out of its reach,
/// because `System` exposes no public way to change them.
pub open spec fn system_frame(pre: System, post: System) -> bool {
    &&& post.reg_index() == pre.reg_index()
    &&& post.req_mask() == pre.req_mask()
}

impl System {
    /// The system's position in registration order.
    pub closed spec fn reg_index(&self) -> SystemIndex {
        self.index
    }

    /// The bits of the cached requirement mask.
    pub closed spec fn req_mask(&self) -> u32 {
        self.components.0
    }

    /// The deferred spawn requests, in the order they were enqueued.
    pub closed spec fn spawn_queue(&self) -> Seq<(NameTag, NameTag)> {
        self.spawn_requests@
    }

    /// The deferred destroy requests, in the order they were enqueued.
    pub closed spec fn destroy_queue(&self) -> Seq<ObjectIndex> {
        self.destroy_requests@
    }

    pub(crate) fn new(index: SystemIndex, components: BitFlags) -> (r: Self)
        ensures
            r.reg_index() == index,
            r.req_mask() == components.0,
            r.spawn_queue() == Seq::<(NameTag, NameTag)>::empty(),
            r.destroy_queue() == Seq::<ObjectIndex>::empty(),
    {
        let r = System { index, spawn_requests: Vec::new(), destroy_requests: Vec::new(), components };
        proof {
            assert(r.spawn_queue() =~= Seq::<(NameTag, NameTag)>::empty());
            assert(r.destroy_queue() =~= Seq::<ObjectIndex>::empty());
        }
        r
    }

    /// The cached requirement mask.
    pub(crate) fn requirement(&self) -> (r: BitFlags)
        ensures
            r.0 == self.req_mask(),
    {
        self.components
    }

    /// Whether any deferred request is waiting.
    pub(crate) fn has_requests(&self) -> (r: bool)
        ensures
            r == (self.destroy_queue().len() > 0 || self.spawn_queue().len() > 0),
    {
        self.destroy_requests.len() > 0 || self.spawn_requests.len() > 0
    }

    /// Defers a spawn of an entity named `name`, initialized by the
    /// factory registered under `type_of`. The request is applied only
    /// after the tick's scans complete.
    pub fn spawn(&mut self, name: &str, type_of: &str)
        ensures
            final(self).spawn_queue().len() == old(self).spawn_queue().len() + 1,
            forall|j: int|
                0 <= j < old(self).spawn_queue().len() ==> final(self).spawn_queue()[j] == old(
                    self,
                ).spawn_queue()[j],
            final(self).spawn_queue().last().0@ == crate::types::tag_of_str(name@),
            final(self).spawn_queue().last().1@ == crate::types::tag_of_str(type_of@),
            final(self).destroy_queue() == old(self).destroy_queue(),
            system_frame(*old(self), *final(self)),
    {
        self.spawn_requests.push((NameTag::from_str(name), NameTag::from_str(type_of)));
    }

    /// Defers a destroy of the slot `target`. The request is applied
    /// only after the tick's scans complete.
    pub fn destroy(&mut self, target: &ObjectIndex)
        ensures
            final(self).destroy_queue() == old(self).destroy_queue().push(*target),
            final(self).spawn_queue() == old(self).spawn_queue(),
            system_frame(*old(self), *final(self)),
    {
        self.destroy_requests.push(*target);
    }

    /// Drains this system's deferred requests against the shared
    /// stores: every destroy first, then every spawn, each
    /// most-recently-queued first. Destroy-before-spawn lets a slot
    /// freed this tick be reused by a spawn enqueued the same tick.
    pub(crate) fn handle_requests<T: Default, F: Factory<T>>(
        &mut self,
        objects: &mut Objects<T>,
        entities: &mut Entities,
        factories: &mut Vec<(NameTag, F)>,
        component_refs: &ComponentRefs,
    )
        requires
            old(entities).wf(),
            pools_wf(*old(entities), *old(objects)),
        ensures
            final(entities).wf(),
            pools_wf(*final(entities), *final(objects)),
            final(entities).pool@.len() == old(entities).pool@.len(),
            final(objects).payloads().len() == old(objects).payloads().len(),
            slot_lists(*final(entities), *final(objects)) == apply_queues(
                slot_lists(*old(entities), *old(objects)),
                old(self).destroy_queue(),
                old(self).spawn_queue(),
            ),
            forall|j: int|
                0 <= j < old(entities).pool@.len() && !queue_claims(
                    slot_lists(*old(entities), *old(objects)),
                    old(self).destroy_queue(),
                    old(self).spawn_queue(),
                ).contains(j as usize) ==> final(entities).pool@[j] == old(entities).pool@[j],
            forall|j: int|
                0 <= j < old(objects).payloads().len() && !queue_claims(
                    slot_lists(*old(entities), *old(objects)),
                    old(self).destroy_queue(),
                    old(self).spawn_queue(),
                ).contains(j as usize) ==> final(objects).payloads()[j] == old(
                    objects,
                ).payloads()[j],
            final(self).destroy_queue().len() == 0,
            final(self).spawn_queue().len() == 0,
            system_frame(*old(self), *final(self)),
            factory_keys(final(factories)@) == factory_keys(old(factories)@),
    {
        let ghost s_orig = slot_lists(*old(entities), *old(objects));
        while self.destroy_requests.len() > 0
            invariant
                entities.wf(),
                pools_wf(*entities, *objects),
                entities.pool@ == old(entities).pool@,
                objects.payloads() == old(objects).payloads(),
                apply_destroy_queue(slot_lists(*entities, *objects), self.destroy_requests@)
                    == apply_destroy_queue(s_orig, old(self).destroy_queue()),
                self.spawn_requests@ == old(self).spawn_requests@,
                self.index == old(self).index,
                self.components == old(self).components,
                factory_keys(factories@) == factory_keys(old(factories)@),
            decreases self.destroy_requests.len(),
        {
            let ghost q_pre = self.destroy_requests@;
            let ghost s_pre = slot_lists(*entities, *objects);
            if let Some(target) = self.destroy_requests.pop() {
                crate::destroy_object(&target, entities, objects);
                proof {
                    assert(apply_destroy_queue(s_pre, q_pre) == apply_destroy_queue(
                        apply_destroy(s_pre, q_pre.last()),
                        q_pre.drop_last(),
                    ));
                }
            }
        }
        let ghost s_mid = apply_destroy_queue(s_orig, old(self).destroy_queue());
        let ghost claim_bound = spawn_claims(s_mid, old(self).spawn_queue());
        proof {
            assert(slot_lists(*entities, *objects) == s_mid);
        }
        while self.spawn_requests.len() > 0
            invariant
                entities.wf(),
                pools_wf(*entities, *objects),
                entities.pool@.len() == old(entities).pool@.len(),
                objects.payloads().len() == old(objects).payloads().len(),
                apply_spawn_queue(slot_lists(*entities, *objects), self.spawn_requests@)
                    == apply_spawn_queue(s_mid, old(self).spawn_queue()),
                spawn_claims(slot_lists(*entities, *objects), self.spawn_requests@).subset_of(
                    claim_bound,
                ),
                claim_bound == spawn_claims(s_mid, old(self).spawn_queue()),
                forall|j: int|
                    0 <= j < old(entities).pool@.len() && !claim_bound.contains(j as usize)
                        ==> entities.pool@[j] == old(entities).pool@[j],
                forall|j: int|
                    0 <= j < old(objects).payloads().len() && !claim_bound.contains(j as usize)
                        ==> objects.payloads()[j] == old(objects).payloads()[j],
                self.destroy_requests@.len() == 0,
                self.index == old(self).index,
                self.components == old(self).components,
                factory_keys(factories@) == factory_keys(old(factories)@),
            decreases self.spawn_requests.len(),
        {
            let ghost q_pre = self.spawn_requests@;
            let ghost s_pre = slot_lists(*entities, *objects);
            if let Some(spawn) = self.spawn_requests.pop() {
                let claimed = crate::create_object(
                    spawn.0,
                    &spawn.1,
                    entities,
                    objects,
                    factories,
                    component_refs,
                );
                proof {
                    assert(apply_spawn_queue(s_pre, q_pre) == apply_spawn_queue(
                        apply_spawn(s_pre, q_pre.last().0@),
                        q_pre.drop_last(),
                    ));
                    let taken = if s_pre.free.len() == 0 {
                        Set::<usize>::empty()
                    } else {
                        Set::<usize>::empty().insert(s_pre.free.last())
                    };
                    assert(spawn_claims(s_pre, q_pre) == spawn_claims(
                        apply_spawn(s_pre, q_pre.last().0@),
                        q_pre.drop_last(),
                    ).union(taken));
                    match claimed {
                        Some(p) => {
                            assert(taken.contains(p));
                            assert(claim_bound.contains(p));
                        },
                        None => {},
                    }
                }
            }
        }
    }
}

/// User logic bound to a system, invoked once per matching entity per
/// tick. The runtime treats the hooks as unable to fail; a behaviour
/// that needs to report failure does so through its own payload state.
///
/// The `ensures` on the hooks hold for every implementation compiled
/// against this crate: a behaviour only receives `&mut Objects<T>` and
/// `&mut System`, whose public methods can change payload values and
/// enqueue requests but can reach neither the pool's shape nor the
/// system's registration data. The queues only grow under a hook, and
/// only by appending, because `System`'s public queue methods push and
/// nothing else.
pub trait Behaviour<T: Default>: Sized {
    /// The component names this behaviour requires; queried once, at
    /// registration, to compute the system's requirement mask.
    fn required_components(&self) -> Vec<NameTag>;

    /// Runs once when the runtime starts.
    fn on_startup(&mut self, objects: &mut Objects<T>, system: &mut System)
        ensures
            crate::pool::objects_frame(*old(objects), *final(objects)),
            system_frame(*old(system), *final(system)),
            old(system).spawn_queue().is_prefix_of(final(system).spawn_queue()),
            old(system).destroy_queue().is_prefix_of(final(system).destroy_queue()),
    {
        proof {
            lemma_prefix_reflexive(system.spawn_queue());
            lemma_prefix_reflexive(system.destroy_queue());
        }
    }

    /// Runs once per tick, before the scan.
    fn on_early_update(&mut self, objects: &mut Objects<T>, system: &mut System)
        ensures
            crate::pool::objects_frame(*old(objects), *final(objects)),
            system_frame(*old(system), *final(system)),
            old(system).spawn_queue().is_prefix_of(final(system).spawn_queue()),
            old(system).destroy_queue().is_prefix_of(final(system).destroy_queue()),
    {
        proof {
            lemma_prefix_reflexive(system.spawn_queue());
            lemma_prefix_reflexive(system.destroy_queue());
        }
    }

    /// Runs once per matching entity per tick. Structural changes are
    /// only legal through `system`'s request queues, which defer them
    /// past the scan.
    fn on_update(&mut self, target: &ObjectIndex, objects: &mut Objects<T>, system: &mut System)
        ensures
            crate::pool::objects_frame(*old(objects), *final(objects)),
            system_frame(*old(system), *final(system)),
            old(system).spawn_queue().is_prefix_of(final(system).spawn_queue()),
            old(system).destroy_queue().is_prefix_of(final(system).destroy_queue()),
    ;
}

} // verus!
