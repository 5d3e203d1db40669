//! A data-oriented entity-component-system runtime: fixed-capacity slot
//! storage for per-entity payloads, bitmask component membership, and a
//! scheduler that runs user behaviours over the entities whose masks
//! satisfy each system's requirements.

use vstd::prelude::*;

pub mod factory;
pub mod pool;
pub mod systems;
pub mod types;

verus! {

pub use crate::factory::{BuildTools, Factory};
pub use crate::pool::{Entities, Objects};
pub use crate::systems::{Behaviour, System};
pub use crate::types::{BitFlags, ComponentRef, ComponentRefs, NameTag};

use core::marker::PhantomData;

use crate::factory::{factory_keys, find_factory_index};
use crate::pool::{claim_target, pools_wf};
use crate::systems::{
    all_claims, apply_all, apply_destroy, apply_destroy_queue, apply_spawn, apply_spawn_queue,
    early_trace, lemma_all_claims_snoc, lemma_apply_all_snoc, lemma_prefix_transitive,
    lemma_remove_insert, qualifying_visits, queues_of, scan_trace, slot_lists, spawn_claims,
    startup_trace, system_frame, SlotLists, TickEvent,
};
use crate::types::{
    first_hit, lemma_first_hit_ensures, registry_wf, requirement_mask, tag_of_str,
    unresolved_count,
};

/// Index of a payload slot; the bare index is the entity's identity.
pub type ObjectIndex = usize;

/// Bit position assigned to a component at definition time.
pub type ComponentIndex = usize;

/// Registration order of a system.
pub type SystemIndex = usize;

/// Claims a slot for an entity named `obj_name`: takes the top of the
/// free list, clears its mask, resets its payload and registers the
/// name, then runs the factory registered under `type_tag` on the
/// fresh slot. Without a matching factory the slot stays maskless with
/// a default payload; with an exhausted free list nothing changes and
/// no index is returned.
pub(crate) fn create_object<T: Default, F: Factory<T>>(
    obj_name: NameTag,
    type_tag: &NameTag,
    entities: &mut Entities,
    objects: &mut Objects<T>,
    factories: &mut Vec<(NameTag, F)>,
    component_refs: &ComponentRefs,
) -> (r: Option<ObjectIndex>)
    requires
        old(entities).wf(),
        pools_wf(*old(entities), *old(objects)),
    ensures
        final(entities).wf(),
        pools_wf(*final(entities), *final(objects)),
        final(entities).pool@.len() == old(entities).pool@.len(),
        final(objects).payloads().len() == old(objects).payloads().len(),
        slot_lists(*final(entities), *final(objects)) == apply_spawn(
            slot_lists(*old(entities), *old(objects)),
            obj_name@,
        ),
        r == claim_target(old(entities).free@),
        factory_keys(final(factories)@) == factory_keys(old(factories)@),
        match r {
            Some(p) => {
                &&& p < old(entities).pool@.len()
                &&& forall|j: int|
                    0 <= j < old(entities).pool@.len() && j != p ==> final(entities).pool@[j]
                        == old(entities).pool@[j]
                &&& forall|j: int|
                    0 <= j < old(objects).payloads().len() && j != p
                        ==> final(objects).payloads()[j] == old(objects).payloads()[j]
                &&& (first_hit(factory_keys(old(factories)@), type_tag@) is None ==> {
                    &&& final(entities).pool@[p as int].0 == 0
                    &&& call_ensures(T::default, (), final(objects).payloads()[p as int])
                })
            },
            None => {
                &&& final(entities).pool@ == old(entities).pool@
                &&& final(objects).payloads() == old(objects).payloads()
            },
        },
{
    match entities.claim() {
        Some(pointer) => {
            objects.register(pointer, obj_name);
            objects.reset_slot(pointer);
            proof {
                assert(slot_lists(*entities, *objects) =~= apply_spawn(
                    slot_lists(*old(entities), *old(objects)),
                    obj_name@,
                ));
            }
            match find_factory_index(factories, type_tag) {
                Some(fi) => {
                    let pair = factories.remove(fi);
                    let (key, mut spawn_factory) = pair;
                    let mut tools = BuildTools::new(T::default(), component_refs, BitFlags(0));
                    spawn_factory.make_spawn(&mut tools);
                    let built = tools.finish();
                    objects.put_slot(pointer, built.0);
                    entities.pool[pointer] = built.1;
                    factories.insert(fi, (key, spawn_factory));
                    proof {
                        assert(factory_keys(factories@) =~= factory_keys(old(factories)@));
                        assert(slot_lists(*entities, *objects) =~= apply_spawn(
                            slot_lists(*old(entities), *old(objects)),
                            obj_name@,
                        ));
                    }
                },
                None => {},
            }
            Some(pointer)
        },
        None => None,
    }
}

/// Applies a destroy: removes `target` from the active list by position
/// scan, drops the matching directory entry, and returns the slot index
/// to the free list. A slot that is not active is ignored. The payload
/// is left as it is: the next spawn establishes the fresh state.
pub(crate) fn destroy_object<T>(
    target: &ObjectIndex,
    entities: &mut Entities,
    objects: &mut Objects<T>,
)
    requires
        old(entities).wf(),
        pools_wf(*old(entities), *old(objects)),
    ensures
        final(entities).wf(),
        pools_wf(*final(entities), *final(objects)),
        final(entities).pool@ == old(entities).pool@,
        final(objects).payloads() == old(objects).payloads(),
        slot_lists(*final(entities), *final(objects)) == apply_destroy(
            slot_lists(*old(entities), *old(objects)),
            *target,
        ),
{
    match entities.release(*target) {
        Some(pos) => {
            proof {
                lemma_first_hit_ensures(old(entities).active@, *target);
            }
            objects.unregister(pos);
            proof {
                let s_pre = slot_lists(*old(entities), *old(objects));
                let p = pos as int;
                assert(first_hit(s_pre.active, *target) == Some(p));
                old(objects).directory().remove_ensures(p);
                s_pre.names.remove_ensures(p);
                old(entities).active@.remove_ensures(p);
                assert(slot_lists(*entities, *objects).names =~= s_pre.names.remove(p));
                assert forall|i: int|
                    0 <= i < entities.active@.len() implies (#[trigger] objects.directory()[i]).0
                    == entities.active@[i] by {
                    if i < p {
                    } else {
                        assert(objects.directory()[i] == old(objects).directory()[i + 1]);
                        assert(entities.active@[i] == old(entities).active@[i + 1]);
                    }
                }
                assert(slot_lists(*entities, *objects) =~= apply_destroy(s_pre, *target));
            }
        },
        None => {
            proof {
                assert(slot_lists(*entities, *objects) =~= apply_destroy(
                    slot_lists(*old(entities), *old(objects)),
                    *target,
                ));
            }
        },
    }
}

/// Adding with a ceiling at the largest representable count.
pub open spec fn saturating_add_usize(a: usize, b: usize) -> usize {
    if a + b > usize::MAX {
        usize::MAX
    } else {
        (a + b) as usize
    }
}

/// Resolves a behaviour's requirement names through the registry into
/// its cached mask, and counts the names the registry does not know:
/// those are dropped from the mask without error, and the count is the
/// caller's warning of the loss.
pub(crate) fn compute_requirement_mask(refs: &ComponentRefs, names: &Vec<NameTag>) -> (m: (
    BitFlags,
    usize,
))
    ensures
        m.0.0 == requirement_mask(refs@, names@.map_values(|t: NameTag| t@)),
        m.1 == unresolved_count(refs@, names@.map_values(|t: NameTag| t@)),
{
    let ghost nv = names@.map_values(|t: NameTag| t@);
    let mut flags = BitFlags(0);
    let mut missed: usize = 0;
    let n = names.len();
    let mut i: usize = 0;
    proof {
        assert(nv.take(0) =~= Seq::<Seq<u8>>::empty());
    }
    while i < n
        invariant
            n == names@.len(),
            nv == names@.map_values(|t: NameTag| t@),
            i <= n,
            missed <= i,
            flags.0 == requirement_mask(refs@, nv.take(i as int)),
            missed == unresolved_count(refs@, nv.take(i as int)),
        decreases n - i,
    {
        match refs.get(&names[i]) {
            Some(c) => {
                flags.set_bit(*c.index(), true);
            },
            None => {
                missed += 1;
            },
        }
        proof {
            assert(nv.take(i as int + 1).drop_last() =~= nv.take(i as int));
            assert(nv.take(i as int + 1).last() == nv[i as int]);
            assert(nv[i as int] == names@[i as int]@);
        }
        i += 1;
    }
    proof {
        assert(nv.take(n as int) =~= nv);
    }
    (flags, missed)
}

/// The first builder stage: fixes the capacity and declares the
/// components, which own their bit positions in definition order.
pub struct EcsBuilder {
    size: usize,
    component_refs: ComponentRefs,
}

impl EcsBuilder {
    /// The capacity the runtime will be allocated with.
    pub closed spec fn spec_size(&self) -> usize {
        self.size
    }

    /// The registry declared so far.
    pub closed spec fn spec_registry(&self) -> Seq<ComponentRef> {
        self.component_refs@
    }

    /// Stage validity: bit positions equal insertion order.
    pub open spec fn wf(&self) -> bool {
        registry_wf(self.spec_registry())
    }

    /// Opens the pipeline with the runtime's fixed capacity.
    pub fn new(size: usize) -> (r: Self)
        ensures
            r.wf(),
            r.spec_size() == size,
            r.spec_registry() == Seq::<ComponentRef>::empty(),
    {
        let r = EcsBuilder { size, component_refs: ComponentRefs(Vec::new()) };
        proof {
            assert(r.spec_registry() =~= Seq::<ComponentRef>::empty());
        }
        r
    }

    /// Appends one component definition; its bit position is its
    /// insertion order.
    pub fn define_component(self, name: &str) -> (r: Self)
        requires
            self.wf(),
        ensures
            r.wf(),
            r.spec_size() == self.spec_size(),
            r.spec_registry().len() == self.spec_registry().len() + 1,
            forall|j: int|
                0 <= j < self.spec_registry().len() ==> r.spec_registry()[j]
                    == self.spec_registry()[j],
            r.spec_registry().last().spec_index() == self.spec_registry().len(),
            r.spec_registry().last().spec_name() == tag_of_str(name@),
    {
        let mut b = self;
        let idx = b.component_refs.0.len();
        b.component_refs.0.push(ComponentRef::new(idx, name));
        b
    }

    /// Closes the component stage and opens the system stage.
    pub fn build_systems<T: Default, B: Behaviour<T>>(self) -> (r: SystemBuilder<T, B>)
        requires
            self.wf(),
        ensures
            r.wf(),
            r.spec_size() == self.spec_size(),
            r.spec_registry() == self.spec_registry(),
            r.spec_systems() == Seq::<System>::empty(),
            r.spec_behaviours() == Seq::<B>::empty(),
            r.spec_unresolved() == 0,
    {
        let r = SystemBuilder {
            size: self.size,
            component_refs: self.component_refs,
            systems: Vec::new(),
            behaviours: Vec::new(),
            unresolved: 0,
            _payload: PhantomData,
        };
        proof {
            assert(r.spec_systems() =~= Seq::<System>::empty());
            assert(r.spec_behaviours() =~= Seq::<B>::empty());
        }
        r
    }
}

/// The second builder stage: declares systems. Each system's
/// requirement mask is computed here, once, from its behaviour's
/// declared component names.
pub struct SystemBuilder<T, B> {
    size: usize,
    component_refs: ComponentRefs,
    systems: Vec<System>,
    behaviours: Vec<B>,
    unresolved: usize,
    _payload: PhantomData<T>,
}

impl<T, B> SystemBuilder<T, B> {
    /// The capacity the runtime will be allocated with.
    pub closed spec fn spec_size(&self) -> usize {
        self.size
    }

    /// The frozen registry.
    pub closed spec fn spec_registry(&self) -> Seq<ComponentRef> {
        self.component_refs@
    }

    /// The systems declared so far.
    pub closed spec fn spec_systems(&self) -> Seq<System> {
        self.systems@
    }

    /// How many behaviours were declared.
    pub closed spec fn spec_behaviour_count(&self) -> nat {
        self.behaviours@.len()
    }

    /// The declared behaviours, in registration order.
    pub closed spec fn spec_behaviours(&self) -> Seq<B> {
        self.behaviours@
    }

    /// How many requirement names have failed to resolve so far.
    pub closed spec fn spec_unresolved(&self) -> usize {
        self.unresolved
    }

    /// Stage validity: sound registry, one system per behaviour,
    /// numbered in registration order.
    pub open spec fn wf(&self) -> bool {
        &&& registry_wf(self.spec_registry())
        &&& self.spec_systems().len() == self.spec_behaviour_count()
        &&& forall|i: int|
            0 <= i < self.spec_systems().len() ==> (#[trigger] self.spec_systems()[i]).reg_index()
                == i
    }
}

impl<T: Default, B: Behaviour<T>> SystemBuilder<T, B> {
    /// Declares one system: queries the behaviour's required component
    /// names once and caches the resolved requirement mask.
    pub fn define_system(self, behaviour: B) -> (r: Self)
        requires
            self.wf(),
        ensures
            r.wf(),
            r.spec_size() == self.spec_size(),
            r.spec_registry() == self.spec_registry(),
            r.spec_systems().len() == self.spec_systems().len() + 1,
            forall|j: int|
                0 <= j < self.spec_systems().len() ==> r.spec_systems()[j]
                    == self.spec_systems()[j],
            r.spec_systems().last().reg_index() == self.spec_systems().len(),
            r.spec_systems().last().spawn_queue().len() == 0,
            r.spec_systems().last().destroy_queue().len() == 0,
            r.spec_behaviours() == self.spec_behaviours().push(behaviour),
            r.spec_unresolved() >= self.spec_unresolved(),
            exists|names: Seq<Seq<u8>>|
                r.spec_systems().last().req_mask() == requirement_mask(
                    self.spec_registry(),
                    names,
                ) && r.spec_unresolved() == saturating_add_usize(
                    self.spec_unresolved(),
                    unresolved_count(self.spec_registry(), names) as usize,
                ),
    {
        let mut b = self;
        let names = behaviour.required_components();
        let resolved = compute_requirement_mask(&b.component_refs, &names);
        let idx = b.systems.len();
        b.behaviours.push(behaviour);
        b.systems.push(System::new(idx, resolved.0));
        b.unresolved = if usize::MAX - b.unresolved < resolved.1 {
            usize::MAX
        } else {
            b.unresolved + resolved.1
        };
        b
    }

    /// Closes the system stage and opens the factory stage.
    pub fn setup_factories<F: Factory<T>>(self) -> (r: FactoryBuilder<T, B, F>)
        requires
            self.wf(),
        ensures
            r.wf(),
            r.spec_size() == self.spec_size(),
            r.spec_registry() == self.spec_registry(),
            r.spec_systems() == self.spec_systems(),
            r.spec_behaviours() == self.spec_behaviours(),
            r.spec_factory_keys() == Seq::<Seq<u8>>::empty(),
            r.spec_unresolved() == self.spec_unresolved(),
    {
        let r = FactoryBuilder {
            size: self.size,
            component_refs: self.component_refs,
            systems: self.systems,
            behaviours: self.behaviours,
            factories: Vec::new(),
            unresolved: self.unresolved,
            _payload: PhantomData,
        };
        proof {
            assert(r.spec_factory_keys() =~= Seq::<Seq<u8>>::empty());
        }
        r
    }
}

/// The last builder stage: declares the spawn factories, keyed by type
/// name, then freezes everything into the runtime.
pub struct FactoryBuilder<T, B, F> {
    size: usize,
    component_refs: ComponentRefs,
    systems: Vec<System>,
    behaviours: Vec<B>,
    factories: Vec<(NameTag, F)>,
    unresolved: usize,
    _payload: PhantomData<T>,
}

impl<T, B, F> FactoryBuilder<T, B, F> {
    /// The capacity the runtime will be allocated with.
    pub closed spec fn spec_size(&self) -> usize {
        self.size
    }

    /// The frozen registry.
    pub closed spec fn spec_registry(&self) -> Seq<ComponentRef> {
        self.component_refs@
    }

    /// The declared systems.
    pub closed spec fn spec_systems(&self) -> Seq<System> {
        self.systems@
    }

    /// How many behaviours were declared.
    pub closed spec fn spec_behaviour_count(&self) -> nat {
        self.behaviours@.len()
    }

    /// The declared behaviours, in registration order.
    pub closed spec fn spec_behaviours(&self) -> Seq<B> {
        self.behaviours@
    }

    /// The declared factory keys, in definition order.
    pub closed spec fn spec_factory_keys(&self) -> Seq<Seq<u8>> {
        factory_keys(self.factories@)
    }

    /// How many requirement names failed to resolve at registration.
    pub closed spec fn spec_unresolved(&self) -> usize {
        self.unresolved
    }

    /// Stage validity, carried from the system stage.
    pub open spec fn wf(&self) -> bool {
        &&& registry_wf(self.spec_registry())
        &&& self.spec_systems().len() == self.spec_behaviour_count()
        &&& forall|i: int|
            0 <= i < self.spec_systems().len() ==> (#[trigger] self.spec_systems()[i]).reg_index()
                == i
    }
}

impl<T: Default, B: Behaviour<T>, F: Factory<T>> FactoryBuilder<T, B, F> {
    /// Declares one spawn factory under a type name. A later factory
    /// with the same name is unreachable: lookup takes the first match.
    pub fn define_factory(self, type_of: &str, spawn_factory: F) -> (r: Self)
        requires
            self.wf(),
        ensures
            r.wf(),
            r.spec_size() == self.spec_size(),
            r.spec_registry() == self.spec_registry(),
            r.spec_systems() == self.spec_systems(),
            r.spec_behaviours() == self.spec_behaviours(),
            r.spec_factory_keys() == self.spec_factory_keys().push(tag_of_str(type_of@)),
            r.spec_unresolved() == self.spec_unresolved(),
    {
        let mut b = self;
        b.factories.push((NameTag::from_str(type_of), spawn_factory));
        proof {
            assert(b.spec_factory_keys() =~= self.spec_factory_keys().push(tag_of_str(type_of@)));
        }
        b
    }

    /// Allocates the fixed-capacity pools at the requested capacity,
    /// freezes the registry, and hands over the runtime: every slot
    /// free, every mask empty, every payload default.
    pub fn finalize(self) -> (r: Ecs<T, B, F>)
        requires
            self.wf(),
        ensures
            r.wf(),
            r.capacity() == self.spec_size(),
            r.registry() == self.spec_registry(),
            r.systems_list() == self.spec_systems(),
            r.behaviours_list() == self.spec_behaviours(),
            r.factory_key_list() == self.spec_factory_keys(),
            r.active_list().len() == 0,
            r.free_list().len() == r.capacity(),
            forall|i: int| 0 <= i < r.capacity() ==> (#[trigger] r.free_list()[i]) == i,
            r.directory().len() == 0,
            forall|i: int| 0 <= i < r.capacity() ==> (#[trigger] r.masks()[i]).0 == 0,
            forall|i: int|
                0 <= i < r.capacity() ==> call_ensures(T::default, (), #[trigger] r.payloads()[i]),
            r.unresolved_requirement_count() == self.spec_unresolved(),
            r.event_log() == Seq::<TickEvent>::empty(),
    {
        let entities = Entities::new(self.size);
        let objects = Objects::new(self.size);
        let r = Ecs {
            size: self.size,
            objects,
            entities,
            systems: self.systems,
            behaviours: self.behaviours,
            component_refs: self.component_refs,
            factories: self.factories,
            unresolved: self.unresolved,
            events: Ghost(Seq::empty()),
        };
        proof {
            assert(r.lists() =~= (SlotLists {
                active: r.active_list(),
                free: r.free_list(),
                names: r.directory().map_values(|p: (usize, NameTag)| (p.0, p.1@)),
            }));
        }
        r
    }
}

/// The runtime: the immutable-shape product of the builder pipeline.
/// It owns the payload pool and mask table exclusively; each tick it
/// dispatches every registered behaviour over the active slots whose
/// masks satisfy the behaviour's requirements, then applies the tick's
/// deferred spawn and destroy requests.
pub struct Ecs<T, B, F> {
    size: usize,
    objects: Objects<T>,
    entities: Entities,
    systems: Vec<System>,
    behaviours: Vec<B>,
    component_refs: ComponentRefs,
    factories: Vec<(NameTag, F)>,
    unresolved: usize,
    events: Ghost<Seq<TickEvent>>,
}

impl<T, B, F> Ecs<T, B, F> {
    /// The fixed number of slots, set at finalize.
    pub closed spec fn capacity(&self) -> usize {
        self.size
    }

    /// Every slot's membership mask, at its index.
    pub closed spec fn masks(&self) -> Seq<BitFlags> {
        self.entities.pool@
    }

    /// The live slots, in spawn order.
    pub closed spec fn active_list(&self) -> Seq<usize> {
        self.entities.active@
    }

    /// The claimable slots; the last is claimed first.
    pub closed spec fn free_list(&self) -> Seq<usize> {
        self.entities.free@
    }

    /// Every slot's payload, at its index.
    pub closed spec fn payloads(&self) -> Seq<T> {
        self.objects.payloads()
    }

    /// The live slots' `(index, name)` entries, parallel to the active
    /// list.
    pub closed spec fn directory(&self) -> Seq<(usize, NameTag)> {
        self.objects.directory()
    }

    /// The frozen component registry.
    pub closed spec fn registry(&self) -> Seq<ComponentRef> {
        self.component_refs@
    }

    /// The registered systems, in registration order.
    pub closed spec fn systems_list(&self) -> Seq<System> {
        self.systems@
    }

    /// How many behaviours are registered.
    pub closed spec fn behaviour_count(&self) -> nat {
        self.behaviours@.len()
    }

    /// The registered behaviours, in registration order.
    pub closed spec fn behaviours_list(&self) -> Seq<B> {
        self.behaviours@
    }

    /// Every invocation of user logic so far, in order: startup hooks,
    /// early-update hooks, and one visit per behaviour call on a
    /// matching entity.
    pub closed spec fn event_log(&self) -> Seq<TickEvent> {
        self.events@
    }

    /// The registered factory keys, in definition order.
    pub closed spec fn factory_key_list(&self) -> Seq<Seq<u8>> {
        factory_keys(self.factories@)
    }

    /// The slot bookkeeping the deferred requests act on.
    pub closed spec fn lists(&self) -> SlotLists {
        slot_lists(self.entities, self.objects)
    }

    /// The stores' internal invariants.
    pub closed spec fn inner_wf(&self) -> bool {
        &&& self.entities.wf()
        &&& pools_wf(self.entities, self.objects)
        &&& self.entities.pool@.len() == self.size
    }

    /// Runtime validity: the active and free lists partition the slots,
    /// the directory names the active slots in order, the registry is
    /// sound, and the systems are numbered in registration order.
    pub open spec fn wf(&self) -> bool {
        &&& self.inner_wf()
        &&& self.masks().len() == self.capacity()
        &&& self.payloads().len() == self.capacity()
        &&& self.active_list().len() + self.free_list().len() == self.capacity()
        &&& self.active_list().no_duplicates()
        &&& forall|i: int|
            0 <= i < self.active_list().len() ==> (#[trigger] self.active_list()[i])
                < self.capacity()
        &&& self.directory().len() == self.active_list().len()
        &&& forall|i: int|
            0 <= i < self.active_list().len() ==> (#[trigger] self.directory()[i]).0
                == self.active_list()[i]
        &&& registry_wf(self.registry())
        &&& self.systems_list().len() == self.behaviour_count()
        &&& forall|i: int|
            0 <= i < self.systems_list().len() ==> (#[trigger] self.systems_list()[i]).reg_index()
                == i
        &&& self.lists() == (SlotLists {
            active: self.active_list(),
            free: self.free_list(),
            names: self.directory().map_values(|p: (usize, NameTag)| (p.0, p.1@)),
        })
    }

    /// How many requirement names failed to resolve at registration.
    pub closed spec fn unresolved_requirement_count(&self) -> usize {
        self.unresolved
    }

    /// A view of the frozen component registry.
    pub fn components(&self) -> (r: &ComponentRefs)
        ensures
            r@ == self.registry(),
    {
        &self.component_refs
    }

    /// The warning-level outcome of registration: how many requirement
    /// names named no registered component and were dropped from their
    /// system's mask. Zero means every requirement resolved.
    pub fn unresolved_requirements(&self) -> (r: usize)
        ensures
            r == self.unresolved_requirement_count(),
    {
        self.unresolved
    }
}

impl<T: Default, B: Behaviour<T>, F: Factory<T>> Ecs<T, B, F> {
    /// Spawns an entity named `obj_name` immediately: claims the top of
    /// the free list, clears its mask, resets its payload, and runs the
    /// factory registered under `type_of` on the fresh slot. Returns
    /// the claimed index, or nothing when capacity is exhausted — a
    /// recoverable outcome. Without a matching factory the slot stays
    /// maskless with a default payload.
    pub fn spawn(&mut self, obj_name: &str, type_of: &str) -> (r: Option<ObjectIndex>)
        requires
            old(self).wf(),
        ensures
            final(self).wf(),
            final(self).capacity() == old(self).capacity(),
            r == claim_target(old(self).free_list()),
            final(self).lists() == apply_spawn(old(self).lists(), tag_of_str(obj_name@)),
            final(self).registry() == old(self).registry(),
            final(self).systems_list() == old(self).systems_list(),
            final(self).factory_key_list() == old(self).factory_key_list(),
            final(self).event_log() == old(self).event_log(),
            match r {
                Some(p) => {
                    &&& p < old(self).capacity()
                    &&& forall|j: int|
                        0 <= j < old(self).capacity() && j != p ==> final(self).masks()[j] == old(
                            self,
                        ).masks()[j]
                    &&& forall|j: int|
                        0 <= j < old(self).capacity() && j != p ==> final(self).payloads()[j]
                            == old(self).payloads()[j]
                    &&& (first_hit(old(self).factory_key_list(), tag_of_str(type_of@)) is None
                        ==> final(self).masks()[p as int].0 == 0 && call_ensures(
                        T::default,
                        (),
                        final(self).payloads()[p as int],
                    ))
                },
                None => {
                    &&& final(self).masks() == old(self).masks()
                    &&& final(self).payloads() == old(self).payloads()
                },
            },
    {
        create_object(
            NameTag::from_str(obj_name),
            &NameTag::from_str(type_of),
            &mut self.entities,
            &mut self.objects,
            &mut self.factories,
            &self.component_refs,
        )
    }

    /// Destroys the entity at `target` immediately: removes it from the
    /// active list and the directory, preserving active-list order, and
    /// returns the slot index to the free list for LIFO reuse. An index
    /// that is not active is ignored. The payload is not cleared.
    pub fn destroy(&mut self, target: &ObjectIndex)
        requires
            old(self).wf(),
        ensures
            final(self).wf(),
            final(self).capacity() == old(self).capacity(),
            final(self).lists() == apply_destroy(old(self).lists(), *target),
            final(self).masks() == old(self).masks(),
            final(self).payloads() == old(self).payloads(),
            final(self).registry() == old(self).registry(),
            final(self).systems_list() == old(self).systems_list(),
            final(self).factory_key_list() == old(self).factory_key_list(),
            final(self).event_log() == old(self).event_log(),
    {
        destroy_object(target, &mut self.entities, &mut self.objects);
    }

    /// The first active entity registered under `name`, scanning
    /// active-list order.
    pub fn find(&self, name: &str) -> (r: Option<ObjectIndex>)
        ensures
            ({
                let hit = first_hit(
                    self.directory().map_values(|e: (usize, NameTag)| e.1@),
                    tag_of_str(name@),
                );
                match r {
                    Some(idx) => hit matches Some(i) && idx == self.directory()[i].0,
                    None => hit is None,
                }
            }),
    {
        self.objects.find(name)
    }

    /// Direct payload access for writing; the caller must know the
    /// index names a live slot, as no liveness check is made.
    pub fn get_mut(&mut self, target: &ObjectIndex) -> (r: &mut T)
        requires
            old(self).wf(),
            *target < old(self).capacity(),
        ensures
            final(self).wf(),
            *r == old(self).payloads()[*target as int],
            final(self).payloads() == old(self).payloads().update(*target as int, *final(r)),
            final(self).capacity() == old(self).capacity(),
            final(self).masks() == old(self).masks(),
            final(self).lists() == old(self).lists(),
            final(self).registry() == old(self).registry(),
            final(self).systems_list() == old(self).systems_list(),
            final(self).factory_key_list() == old(self).factory_key_list(),
            final(self).event_log() == old(self).event_log(),
    {
        self.objects.get_mut(target)
    }

    /// Direct payload access for reading; no liveness check, as for
    /// `get_mut`.
    pub fn get_ref(&mut self, target: &ObjectIndex) -> (r: &T)
        requires
            old(self).wf(),
            *target < old(self).capacity(),
        ensures
            *r == old(self).payloads()[*target as int],
            *final(self) == *old(self),
    {
        self.objects.get_ref(target)
    }

    /// The unguarded escape hatch: applies `transform` to every payload
    /// slot, inactive ones included, bypassing mask matching and the
    /// active list entirely — unlike `update`, whose scan touches only
    /// active, mask-qualified slots.
    pub fn open_update<U: Fn(T) -> T>(&mut self, transform: U)
        requires
            old(self).wf(),
            forall|j: int|
                0 <= j < old(self).capacity() ==> call_requires(
                    transform,
                    (#[trigger] old(self).payloads()[j],),
                ),
        ensures
            final(self).wf(),
            final(self).payloads().len() == old(self).payloads().len(),
            forall|j: int|
                0 <= j < old(self).capacity() ==> call_ensures(
                    transform,
                    (old(self).payloads()[j],),
                    #[trigger] final(self).payloads()[j],
                ),
            final(self).capacity() == old(self).capacity(),
            final(self).masks() == old(self).masks(),
            final(self).lists() == old(self).lists(),
            final(self).registry() == old(self).registry(),
            final(self).systems_list() == old(self).systems_list(),
            final(self).factory_key_list() == old(self).factory_key_list(),
            final(self).event_log() == old(self).event_log(),
    {
        let n = self.size;
        let mut i: usize = 0;
        while i < n
            invariant
                old(self).wf(),
                n == old(self).capacity(),
                i <= n,
                self.size == old(self).size,
                self.entities == old(self).entities,
                self.systems == old(self).systems,
                self.behaviours == old(self).behaviours,
                self.factories == old(self).factories,
                self.component_refs == old(self).component_refs,
                self.events == old(self).events,
                self.objects.directory() == old(self).objects.directory(),
                self.objects.payloads().len() == old(self).objects.payloads().len(),
                forall|j: int|
                    0 <= j < n ==> call_requires(transform, (#[trigger] old(self).payloads()[j],)),
                forall|j: int|
                    0 <= j < i ==> call_ensures(
                        transform,
                        (old(self).payloads()[j],),
                        #[trigger] self.objects.payloads()[j],
                    ),
                forall|j: int|
                    i <= j < n ==> self.objects.payloads()[j] == old(self).payloads()[j],
            decreases n - i,
        {
            let v = self.objects.take_slot(i);
            let w = transform(v);
            self.objects.put_slot(i, w);
            i += 1;
        }
    }

    /// One tick's observation phase: for each system in registration
    /// order, the early hook runs, then the behaviour is invoked once
    /// for every active slot whose mask is a bitwise superset of the
    /// system's requirement mask, in active-list order. No structural
    /// change happens here: the masks and the active, free and name
    /// lists leave this phase exactly as they entered it, whatever the
    /// behaviours enqueue.
    pub fn run_scans(&mut self)
        requires
            old(self).wf(),
        ensures
            final(self).wf(),
            final(self).capacity() == old(self).capacity(),
            final(self).masks() == old(self).masks(),
            final(self).active_list() == old(self).active_list(),
            final(self).free_list() == old(self).free_list(),
            final(self).directory() == old(self).directory(),
            final(self).lists() == old(self).lists(),
            final(self).payloads().len() == old(self).payloads().len(),
            final(self).registry() == old(self).registry(),
            final(self).factory_key_list() == old(self).factory_key_list(),
            final(self).systems_list().len() == old(self).systems_list().len(),
            forall|k: int|
                0 <= k < old(self).systems_list().len() ==> system_frame(
                    old(self).systems_list()[k],
                    #[trigger] final(self).systems_list()[k],
                ),
            forall|k: int|
                0 <= k < old(self).systems_list().len() ==> old(self).systems_list()[
                    k].spawn_queue().is_prefix_of(
                    (#[trigger] final(self).systems_list()[k]).spawn_queue(),
                ) && old(self).systems_list()[k].destroy_queue().is_prefix_of(
                    final(self).systems_list()[k].destroy_queue(),
                ),
            final(self).event_log() == old(self).event_log() + scan_trace(
                old(self).systems_list(),
                old(self).active_list(),
                old(self).masks(),
            ),
    {
        let n = self.systems.len();
        let mut i: usize = 0;
        proof {
            assert(old(self).systems_list().take(0) =~= Seq::<System>::empty());
            assert(self.events@ =~= old(self).events@ + scan_trace(
                old(self).systems_list().take(0),
                old(self).active_list(),
                old(self).masks(),
            ));
            assert forall|k: int| 0 <= k < n implies old(self).systems_list()[
                k].spawn_queue().is_prefix_of((#[trigger] self.systems@[k]).spawn_queue()) && old(
                self,
            ).systems_list()[k].destroy_queue().is_prefix_of(
                self.systems@[k].destroy_queue(),
            ) by {
                crate::systems::lemma_prefix_reflexive(self.systems@[k].spawn_queue());
                crate::systems::lemma_prefix_reflexive(self.systems@[k].destroy_queue());
            }
        }
        while i < n
            invariant
                old(self).wf(),
                n == old(self).systems_list().len(),
                i <= n,
                self.systems@.len() == n,
                self.behaviours@.len() == n,
                self.size == old(self).size,
                self.entities == old(self).entities,
                self.component_refs == old(self).component_refs,
                self.factories == old(self).factories,
                self.objects.directory() == old(self).objects.directory(),
                self.objects.payloads().len() == old(self).objects.payloads().len(),
                self.events@ == old(self).events@ + scan_trace(
                    old(self).systems_list().take(i as int),
                    old(self).active_list(),
                    old(self).masks(),
                ),
                forall|k: int|
                    0 <= k < n ==> system_frame(
                        old(self).systems_list()[k],
                        #[trigger] self.systems@[k],
                    ),
                forall|k: int|
                    0 <= k < n ==> old(self).systems_list()[k].spawn_queue().is_prefix_of(
                        (#[trigger] self.systems@[k]).spawn_queue(),
                    ) && old(self).systems_list()[k].destroy_queue().is_prefix_of(
                        self.systems@[k].destroy_queue(),
                    ),
            decreases n - i,
        {
            let ghost systems_pre = self.systems@;
            let ghost behaviours_pre_len = self.behaviours@.len();
            let ghost base0 = self.events@;
            let mut sys = self.systems.remove(i);
            let mut beh = self.behaviours.remove(i);
            self.events = Ghost(self.events@ + seq![TickEvent::EarlyUpdate(i)]);
            let ghost sys_entry = sys;
            beh.on_early_update(&mut self.objects, &mut sys);
            proof {
                lemma_prefix_transitive(
                    old(self).systems_list()[i as int].spawn_queue(),
                    sys_entry.spawn_queue(),
                    sys.spawn_queue(),
                );
                lemma_prefix_transitive(
                    old(self).systems_list()[i as int].destroy_queue(),
                    sys_entry.destroy_queue(),
                    sys.destroy_queue(),
                );
            }
            let req = sys.requirement();
            let ghost base = self.events@;
            let active_count = self.entities.active.len();
            let mut j: usize = 0;
            proof {
                assert(old(self).active_list().take(0) =~= Seq::<usize>::empty());
                assert(self.events@ =~= base + qualifying_visits(
                    i,
                    req.0,
                    old(self).active_list().take(0),
                    old(self).masks(),
                ));
            }
            while j < active_count
                invariant
                    old(self).wf(),
                    self.entities == old(self).entities,
                    active_count == self.entities.active@.len(),
                    j <= active_count,
                    self.size == old(self).size,
                    self.component_refs == old(self).component_refs,
                    self.factories == old(self).factories,
                    self.objects.directory() == old(self).objects.directory(),
                    self.objects.payloads().len() == old(self).objects.payloads().len(),
                    self.systems@ == systems_pre.remove(i as int),
                    self.behaviours@.len() == behaviours_pre_len - 1,
                    0 <= i < n,
                    n == systems_pre.len(),
                    n == old(self).systems_list().len(),
                    system_frame(systems_pre[i as int], sys),
                    req.0 == sys.req_mask(),
                    self.events@ == base + qualifying_visits(
                        i,
                        req.0,
                        old(self).active_list().take(j as int),
                        old(self).masks(),
                    ),
                    old(self).systems_list()[i as int].spawn_queue().is_prefix_of(
                        sys.spawn_queue(),
                    ),
                    old(self).systems_list()[i as int].destroy_queue().is_prefix_of(
                        sys.destroy_queue(),
                    ),
                decreases active_count - j,
            {
                let pointer = self.entities.active[j];
                assert(pointer < self.entities.pool@.len());
                let mask = self.entities.pool[pointer];
                if mask.contains_all(&req) {
                    self.events = Ghost(self.events@ + seq![TickEvent::Visit(i, pointer)]);
                    let ghost sys_pre_call = sys;
                    beh.on_update(&pointer, &mut self.objects, &mut sys);
                    proof {
                        lemma_prefix_transitive(
                            old(self).systems_list()[i as int].spawn_queue(),
                            sys_pre_call.spawn_queue(),
                            sys.spawn_queue(),
                        );
                        lemma_prefix_transitive(
                            old(self).systems_list()[i as int].destroy_queue(),
                            sys_pre_call.destroy_queue(),
                            sys.destroy_queue(),
                        );
                    }
                }
                proof {
                    let av = old(self).active_list();
                    assert(av.take(j as int + 1).drop_last() =~= av.take(j as int));
                    assert(av.take(j as int + 1).last() == av[j as int]);
                    assert(self.events@ =~= base + qualifying_visits(
                        i,
                        req.0,
                        av.take(j as int + 1),
                        old(self).masks(),
                    ));
                }
                j += 1;
            }
            self.behaviours.insert(i, beh);
            self.systems.insert(i, sys);
            proof {
                lemma_remove_insert(systems_pre, i as int, sys);
                assert forall|k: int| 0 <= k < n implies system_frame(
                    old(self).systems_list()[k],
                    #[trigger] self.systems@[k],
                ) by {
                    if k == i {
                    } else {
                        assert(self.systems@[k] == systems_pre[k]);
                    }
                }
                assert forall|k: int| 0 <= k < n implies old(self).systems_list()[
                    k].spawn_queue().is_prefix_of((#[trigger] self.systems@[k]).spawn_queue())
                    && old(self).systems_list()[k].destroy_queue().is_prefix_of(
                    self.systems@[k].destroy_queue(),
                ) by {
                    if k == i {
                    } else {
                        assert(self.systems@[k] == systems_pre[k]);
                    }
                }
                let st = old(self).systems_list();
                let av = old(self).active_list();
                assert(av.take(active_count as int) =~= av);
                assert(st.take(i as int + 1).drop_last() =~= st.take(i as int));
                assert(st.take(i as int + 1).last() == st[i as int]);
                assert(req.0 == st[i as int].req_mask());
                assert(self.events@ =~= old(self).events@ + scan_trace(
                    st.take(i as int + 1),
                    av,
                    old(self).masks(),
                ));
            }
            i += 1;
        }
        proof {
            assert(old(self).systems_list().take(n as int) =~= old(self).systems_list());
            assert(final(self).lists() =~= old(self).lists());
        }
    }

    /// One tick's mutation phase: every system's deferred requests are
    /// drained and applied against the shared stores, in registration
    /// order; within one system every destroy is applied before any
    /// spawn, each most-recently-queued first, so a slot freed this
    /// tick can be reused by a spawn enqueued the same tick.
    pub fn apply_requests(&mut self)
        requires
            old(self).wf(),
        ensures
            final(self).wf(),
            final(self).capacity() == old(self).capacity(),
            final(self).registry() == old(self).registry(),
            final(self).factory_key_list() == old(self).factory_key_list(),
            final(self).payloads().len() == old(self).payloads().len(),
            final(self).lists() == apply_all(old(self).lists(), queues_of(old(self).systems_list())),
            final(self).event_log() == old(self).event_log(),
            forall|j: int|
                0 <= j < old(self).capacity() && !all_claims(
                    old(self).lists(),
                    queues_of(old(self).systems_list()),
                ).contains(j as usize) ==> final(self).masks()[j] == old(self).masks()[j]
                    && final(self).payloads()[j] == old(self).payloads()[j],
            final(self).systems_list().len() == old(self).systems_list().len(),
            forall|k: int|
                0 <= k < old(self).systems_list().len() ==> {
                    &&& system_frame(
                        old(self).systems_list()[k],
                        #[trigger] final(self).systems_list()[k],
                    )
                    &&& final(self).systems_list()[k].spawn_queue().len() == 0
                    &&& final(self).systems_list()[k].destroy_queue().len() == 0
                },
    {
        let n = self.systems.len();
        let mut i: usize = 0;
        proof {
            assert(queues_of(old(self).systems_list()).take(0) =~= Seq::<
                (Seq<usize>, Seq<(NameTag, NameTag)>),
            >::empty());
        }
        while i < n
            invariant
                old(self).wf(),
                n == old(self).systems_list().len(),
                i <= n,
                self.systems@.len() == n,
                self.behaviours == old(self).behaviours,
                self.size == old(self).size,
                self.component_refs == old(self).component_refs,
                self.events == old(self).events,
                self.entities.wf(),
                pools_wf(self.entities, self.objects),
                self.entities.pool@.len() == self.size,
                self.objects.payloads().len() == old(self).objects.payloads().len(),
                factory_keys(self.factories@) == factory_keys(old(self).factories@),
                slot_lists(self.entities, self.objects) == apply_all(
                    old(self).lists(),
                    queues_of(old(self).systems_list()).take(i as int),
                ),
                forall|j: int|
                    0 <= j < old(self).capacity() && !all_claims(
                        old(self).lists(),
                        queues_of(old(self).systems_list()).take(i as int),
                    ).contains(j as usize) ==> self.entities.pool@[j] == old(self).masks()[j]
                        && self.objects.payloads()[j] == old(self).payloads()[j],
                forall|k: int| i <= k < n ==> self.systems@[k] == old(self).systems_list()[k],
                forall|k: int|
                    0 <= k < i ==> {
                        &&& system_frame(
                            old(self).systems_list()[k],
                            #[trigger] self.systems@[k],
                        )
                        &&& self.systems@[k].spawn_queue().len() == 0
                        &&& self.systems@[k].destroy_queue().len() == 0
                    },
            decreases n - i,
        {
            let ghost systems_pre = self.systems@;
            let ghost s_entry = slot_lists(self.entities, self.objects);
            let ghost all_queues = queues_of(old(self).systems_list());
            let ghost pair = (
                old(self).systems_list()[i as int].destroy_queue(),
                old(self).systems_list()[i as int].spawn_queue(),
            );
            let mut sys = self.systems.remove(i);
            if sys.has_requests() {
                sys.handle_requests(
                    &mut self.objects,
                    &mut self.entities,
                    &mut self.factories,
                    &self.component_refs,
                );
            } else {
                proof {
                    assert(pair.0.len() == 0 && pair.1.len() == 0);
                    assert(apply_destroy_queue(s_entry, pair.0) == s_entry);
                    assert(apply_spawn_queue(s_entry, pair.1) == s_entry);
                    assert(spawn_claims(s_entry, pair.1) =~= Set::<usize>::empty());
                }
            }
            self.systems.insert(i, sys);
            proof {
                lemma_remove_insert(systems_pre, i as int, sys);
                assert(all_queues.take(i as int + 1) =~= all_queues.take(i as int).push(
                    all_queues[i as int],
                ));
                assert(all_queues[i as int] == pair);
                lemma_apply_all_snoc(old(self).lists(), all_queues.take(i as int), pair);
                lemma_all_claims_snoc(old(self).lists(), all_queues.take(i as int), pair);
                assert(slot_lists(self.entities, self.objects) == apply_all(
                    old(self).lists(),
                    all_queues.take(i as int + 1),
                ));
                assert forall|k: int| i + 1 <= k < n implies self.systems@[k] == old(
                    self,
                ).systems_list()[k] by {
                    assert(self.systems@[k] == systems_pre[k]);
                }
            }
            i += 1;
        }
        proof {
            assert(queues_of(old(self).systems_list()).take(n as int) =~= queues_of(
                old(self).systems_list(),
            ));
            assert(final(self).lists() =~= (SlotLists {
                active: final(self).active_list(),
                free: final(self).free_list(),
                names: final(self).directory().map_values(|p: (usize, NameTag)| (p.0, p.1@)),
            }));
        }
    }

    /// One tick: the scans, then the deferred-request drain. Requests
    /// enqueued by behaviours during the scans are invisible to every
    /// scan of the same tick: the drain applies them — system by system
    /// in registration order, destroys before spawns, most recently
    /// queued first — to the slot bookkeeping exactly as the scans left
    /// it, which is exactly as the tick began.
    pub fn update(&mut self)
        requires
            old(self).wf(),
        ensures
            final(self).wf(),
            final(self).capacity() == old(self).capacity(),
            final(self).registry() == old(self).registry(),
            final(self).factory_key_list() == old(self).factory_key_list(),
            final(self).payloads().len() == old(self).payloads().len(),
            final(self).systems_list().len() == old(self).systems_list().len(),
            forall|k: int|
                0 <= k < old(self).systems_list().len() ==> {
                    &&& system_frame(
                        old(self).systems_list()[k],
                        #[trigger] final(self).systems_list()[k],
                    )
                    &&& final(self).systems_list()[k].spawn_queue().len() == 0
                    &&& final(self).systems_list()[k].destroy_queue().len() == 0
                },
            final(self).event_log() == old(self).event_log() + scan_trace(
                old(self).systems_list(),
                old(self).active_list(),
                old(self).masks(),
            ),
            exists|requests: Seq<(Seq<usize>, Seq<(NameTag, NameTag)>)>|
                {
                    &&& requests.len() == old(self).systems_list().len()
                    &&& final(self).lists() == apply_all(old(self).lists(), requests)
                    &&& forall|k: int|
                        0 <= k < requests.len() ==> old(self).systems_list()[
                            k].destroy_queue().is_prefix_of((#[trigger] requests[k]).0) && old(
                            self,
                        ).systems_list()[k].spawn_queue().is_prefix_of(requests[k].1)
                    &&& forall|j: int|
                        0 <= j < old(self).capacity() && !all_claims(
                            old(self).lists(),
                            requests,
                        ).contains(j as usize) ==> final(self).masks()[j] == old(self).masks()[j]
                },
    {
        self.run_scans();
        let ghost requests = queues_of(self.systems_list());
        self.apply_requests();
        proof {
            assert(requests.len() == old(self).systems_list().len());
            assert(final(self).lists() == apply_all(old(self).lists(), requests));
            assert forall|k: int| 0 <= k < requests.len() implies old(self).systems_list()[
                k].destroy_queue().is_prefix_of((#[trigger] requests[k]).0) && old(
                self,
            ).systems_list()[k].spawn_queue().is_prefix_of(requests[k].1) by {
            }
        }
    }

    /// Starts the runtime: every startup hook runs once, then each
    /// system runs its early hook and drains whatever requests the
    /// hooks enqueued, in registration order.
    pub fn start(&mut self)
        requires
            old(self).wf(),
        ensures
            final(self).wf(),
            final(self).capacity() == old(self).capacity(),
            final(self).registry() == old(self).registry(),
            final(self).factory_key_list() == old(self).factory_key_list(),
            final(self).payloads().len() == old(self).payloads().len(),
            final(self).systems_list().len() == old(self).systems_list().len(),
            forall|k: int|
                0 <= k < old(self).systems_list().len() ==> {
                    &&& system_frame(
                        old(self).systems_list()[k],
                        #[trigger] final(self).systems_list()[k],
                    )
                    &&& final(self).systems_list()[k].spawn_queue().len() == 0
                    &&& final(self).systems_list()[k].destroy_queue().len() == 0
                },
            final(self).event_log() == old(self).event_log() + startup_trace(
                old(self).systems_list().len(),
            ) + early_trace(old(self).systems_list().len()),
            exists|requests: Seq<(Seq<usize>, Seq<(NameTag, NameTag)>)>|
                {
                    &&& requests.len() == old(self).systems_list().len()
                    &&& final(self).lists() == apply_all(old(self).lists(), requests)
                    &&& forall|k: int|
                        0 <= k < requests.len() ==> old(self).systems_list()[
                            k].destroy_queue().is_prefix_of((#[trigger] requests[k]).0) && old(
                            self,
                        ).systems_list()[k].spawn_queue().is_prefix_of(requests[k].1)
                    &&& forall|j: int|
                        0 <= j < old(self).capacity() && !all_claims(
                            old(self).lists(),
                            requests,
                        ).contains(j as usize) ==> final(self).masks()[j] == old(self).masks()[j]
                },
    {
        let n = self.systems.len();
        let mut i: usize = 0;
        proof {
            assert(startup_trace(0) =~= Seq::<TickEvent>::empty());
            assert(self.events@ =~= old(self).events@ + startup_trace(0));
            assert forall|j: int| 0 <= j < n implies old(self).systems_list()[
                j].spawn_queue().is_prefix_of((#[trigger] self.systems@[j]).spawn_queue()) && old(
                self,
            ).systems_list()[j].destroy_queue().is_prefix_of(
                self.systems@[j].destroy_queue(),
            ) by {
                crate::systems::lemma_prefix_reflexive(self.systems@[j].spawn_queue());
                crate::systems::lemma_prefix_reflexive(self.systems@[j].destroy_queue());
            }
        }
        while i < n
            invariant
                old(self).wf(),
                n == old(self).systems_list().len(),
                i <= n,
                self.systems@.len() == n,
                self.behaviours@.len() == n,
                self.size == old(self).size,
                self.entities == old(self).entities,
                self.component_refs == old(self).component_refs,
                self.factories == old(self).factories,
                self.objects.directory() == old(self).objects.directory(),
                self.objects.payloads().len() == old(self).objects.payloads().len(),
                self.events@ == old(self).events@ + startup_trace(i as nat),
                forall|k: int|
                    0 <= k < n ==> system_frame(
                        old(self).systems_list()[k],
                        #[trigger] self.systems@[k],
                    ),
                forall|k: int|
                    0 <= k < n ==> old(self).systems_list()[k].spawn_queue().is_prefix_of(
                        (#[trigger] self.systems@[k]).spawn_queue(),
                    ) && old(self).systems_list()[k].destroy_queue().is_prefix_of(
                        self.systems@[k].destroy_queue(),
                    ),
            decreases n - i,
        {
            let ghost systems_pre = self.systems@;
            let mut sys = self.systems.remove(i);
            let mut beh = self.behaviours.remove(i);
            self.events = Ghost(self.events@ + seq![TickEvent::Startup(i)]);
            let ghost sys_entry = sys;
            beh.on_startup(&mut self.objects, &mut sys);
            self.behaviours.insert(i, beh);
            self.systems.insert(i, sys);
            proof {
                lemma_prefix_transitive(
                    old(self).systems_list()[i as int].spawn_queue(),
                    sys_entry.spawn_queue(),
                    sys.spawn_queue(),
                );
                lemma_prefix_transitive(
                    old(self).systems_list()[i as int].destroy_queue(),
                    sys_entry.destroy_queue(),
                    sys.destroy_queue(),
                );
                lemma_remove_insert(systems_pre, i as int, sys);
                assert(startup_trace(i as nat + 1) =~= startup_trace(i as nat).push(
                    TickEvent::Startup(i),
                ));
                assert(self.events@ =~= old(self).events@ + startup_trace(i as nat + 1));
                assert forall|k: int| 0 <= k < n implies system_frame(
                    old(self).systems_list()[k],
                    #[trigger] self.systems@[k],
                ) by {
                    if k != i {
                        assert(self.systems@[k] == systems_pre[k]);
                    }
                }
                assert forall|k: int| 0 <= k < n implies old(self).systems_list()[
                    k].spawn_queue().is_prefix_of((#[trigger] self.systems@[k]).spawn_queue())
                    && old(self).systems_list()[k].destroy_queue().is_prefix_of(
                    self.systems@[k].destroy_queue(),
                ) by {
                    if k != i {
                        assert(self.systems@[k] == systems_pre[k]);
                    }
                }
            }
            i += 1;
        }
        let ghost s_mid = slot_lists(self.entities, self.objects);
        proof {
            assert(s_mid =~= old(self).lists());
            assert(early_trace(0) =~= Seq::<TickEvent>::empty());
            assert(self.events@ =~= old(self).events@ + startup_trace(n as nat) + early_trace(0));
        }
        let ghost mut requests: Seq<(Seq<usize>, Seq<(NameTag, NameTag)>)> = Seq::empty();
        let mut k: usize = 0;
        while k < n
            invariant
                old(self).wf(),
                n == old(self).systems_list().len(),
                k <= n,
                self.systems@.len() == n,
                self.behaviours@.len() == n,
                self.size == old(self).size,
                self.component_refs == old(self).component_refs,
                self.entities.wf(),
                pools_wf(self.entities, self.objects),
                self.entities.pool@.len() == self.size,
                self.objects.payloads().len() == old(self).objects.payloads().len(),
                factory_keys(self.factories@) == factory_keys(old(self).factories@),
                requests.len() == k,
                slot_lists(self.entities, self.objects) == apply_all(old(self).lists(), requests),
                self.events@ == old(self).events@ + startup_trace(n as nat) + early_trace(k as nat),
                forall|j: int|
                    0 <= j < old(self).capacity() && !all_claims(
                        old(self).lists(),
                        requests,
                    ).contains(j as usize) ==> self.entities.pool@[j] == old(self).masks()[j],
                forall|j: int|
                    0 <= j < n ==> system_frame(
                        old(self).systems_list()[j],
                        #[trigger] self.systems@[j],
                    ),
                forall|j: int|
                    k <= j < n ==> old(self).systems_list()[j].spawn_queue().is_prefix_of(
                        (#[trigger] self.systems@[j]).spawn_queue(),
                    ) && old(self).systems_list()[j].destroy_queue().is_prefix_of(
                        self.systems@[j].destroy_queue(),
                    ),
                forall|j: int|
                    0 <= j < k ==> (#[trigger] self.systems@[j]).spawn_queue().len() == 0
                        && self.systems@[j].destroy_queue().len() == 0,
                forall|j: int|
                    0 <= j < k ==> old(self).systems_list()[j].destroy_queue().is_prefix_of(
                        (#[trigger] requests[j]).0,
                    ) && old(self).systems_list()[j].spawn_queue().is_prefix_of(requests[j].1),
            decreases n - k,
        {
            let ghost systems_pre = self.systems@;
            let ghost s_entry = slot_lists(self.entities, self.objects);
            let mut sys = self.systems.remove(k);
            let mut beh = self.behaviours.remove(k);
            self.events = Ghost(self.events@ + seq![TickEvent::EarlyUpdate(k)]);
            let ghost sys_entry = sys;
            beh.on_early_update(&mut self.objects, &mut sys);
            proof {
                lemma_prefix_transitive(
                    old(self).systems_list()[k as int].spawn_queue(),
                    sys_entry.spawn_queue(),
                    sys.spawn_queue(),
                );
                lemma_prefix_transitive(
                    old(self).systems_list()[k as int].destroy_queue(),
                    sys_entry.destroy_queue(),
                    sys.destroy_queue(),
                );
            }
            let ghost pair = (sys.destroy_queue(), sys.spawn_queue());
            let ghost s_hooked = slot_lists(self.entities, self.objects);
            proof {
                assert(s_hooked =~= s_entry);
            }
            if sys.has_requests() {
                sys.handle_requests(
                    &mut self.objects,
                    &mut self.entities,
                    &mut self.factories,
                    &self.component_refs,
                );
            } else {
                proof {
                    assert(pair.0.len() == 0 && pair.1.len() == 0);
                    assert(apply_destroy_queue(s_hooked, pair.0) == s_hooked);
                    assert(apply_spawn_queue(s_hooked, pair.1) == s_hooked);
                    assert(spawn_claims(s_hooked, pair.1) =~= Set::<usize>::empty());
                }
            }
            self.behaviours.insert(k, beh);
            self.systems.insert(k, sys);
            proof {
                lemma_remove_insert(systems_pre, k as int, sys);
                lemma_apply_all_snoc(old(self).lists(), requests, pair);
                lemma_all_claims_snoc(old(self).lists(), requests, pair);
                requests = requests.push(pair);
                assert(early_trace(k as nat + 1) =~= early_trace(k as nat).push(
                    TickEvent::EarlyUpdate(k),
                ));
                assert(self.events@ =~= old(self).events@ + startup_trace(n as nat) + early_trace(
                    k as nat + 1,
                ));
                assert forall|j: int| 0 <= j < n implies system_frame(
                    old(self).systems_list()[j],
                    #[trigger] self.systems@[j],
                ) by {
                    if j != k {
                        assert(self.systems@[j] == systems_pre[j]);
                    }
                }
                assert forall|j: int| k + 1 <= j < n implies old(self).systems_list()[
                    j].spawn_queue().is_prefix_of((#[trigger] self.systems@[j]).spawn_queue())
                    && old(self).systems_list()[j].destroy_queue().is_prefix_of(
                    self.systems@[j].destroy_queue(),
                ) by {
                    assert(self.systems@[j] == systems_pre[j]);
                }
                assert forall|j: int| 0 <= j < k + 1 implies (#[trigger] self.systems@[
                j]).spawn_queue().len() == 0 && self.systems@[j].destroy_queue().len() == 0 by {
                    if j != k {
                        assert(self.systems@[j] == systems_pre[j]);
                    }
                }
            }
            k += 1;
        }
        proof {
            assert(final(self).lists() =~= (SlotLists {
                active: final(self).active_list(),
                free: final(self).free_list(),
                names: final(self).directory().map_values(|p: (usize, NameTag)| (p.0, p.1@)),
            }));
        }
    }
}

} // verus!
