//! Spawn-time initializers: the `Factory` capability and the scoped
//! tools a factory is handed to populate one freshly claimed slot.

use vstd::prelude::*;

verus! {

use crate::types::{
    bit_mask, first_hit, registry_names, tag_of_str, BitFlags, ComponentRef, ComponentRefs, NameTag,
};

/// The stored key bytes of a factory table, in definition order.
pub open spec fn factory_keys<F>(fs: Seq<(NameTag, F)>) -> Seq<Seq<u8>> {
    fs.map_values(|p: (NameTag, F)| p.0@)
}

/// A spawn-time initializer, keyed by a type name. It is invoked once
/// per spawn with exclusive, scoped access to the new slot's payload
/// and mask: it translates component names to bit positions through the
/// registry and fills the payload's initial state.
pub trait Factory<T>: Sized {
    fn make_spawn(&mut self, tools: &mut BuildTools<T>);
}

/// Exclusive access to one freshly reset slot during a spawn: the
/// payload under construction, the mask under construction, and a view
/// of the component registry to resolve names.
pub struct BuildTools<'a, T> {
    object: T,
    component_refs: &'a ComponentRefs,
    entity: BitFlags,
}

impl<'a, T> BuildTools<'a, T> {
    /// The payload under construction.
    pub closed spec fn spec_object(&self) -> T {
        self.object
    }

    /// The bits of the mask under construction.
    pub closed spec fn spec_mask(&self) -> u32 {
        self.entity.0
    }

    /// The registry the tools resolve names through.
    pub closed spec fn spec_registry(&self) -> Seq<ComponentRef> {
        self.component_refs@
    }

    /// Tools for one slot: the payload and mask start from the values
    /// the spawn reset them to.
    pub fn new(object: T, component_refs: &'a ComponentRefs, entity: BitFlags) -> (r: Self)
        ensures
            r.spec_object() == object,
            r.spec_mask() == entity.0,
            r.spec_registry() == component_refs@,
    {
        BuildTools { object, component_refs, entity }
    }

    /// The payload, for the factory to fill in.
    pub fn edit(&mut self) -> (r: &mut T)
        ensures
            *r == old(self).spec_object(),
            final(self).spec_object() == *final(r),
            final(self).spec_mask() == old(self).spec_mask(),
            final(self).spec_registry() == old(self).spec_registry(),
    {
        &mut self.object
    }

    /// Grants the slot the named component: resolves the name through
    /// the registry and sets its bit. An unregistered name is dropped
    /// without error, leaving the mask as it was.
    pub fn add_component(&mut self, component_name: &str)
        ensures
            final(self).spec_object() == old(self).spec_object(),
            final(self).spec_registry() == old(self).spec_registry(),
            match first_hit(
                registry_names(old(self).spec_registry()),
                tag_of_str(component_name@),
            ) {
                Some(i) => final(self).spec_mask() == old(self).spec_mask() | bit_mask(
                    old(self).spec_registry()[i].spec_index(),
                ),
                None => final(self).spec_mask() == old(self).spec_mask(),
            },
    {
        let refs = self.component_refs;
        match refs.get(&NameTag::from_str(component_name)) {
            Some(component) => {
                self.entity.set_bit(*component.index(), true);
            },
            None => {},
        }
    }

    /// Withdraws the named component from the slot: clears its bit, or
    /// does nothing for an unregistered name.
    pub fn remove_component(&mut self, component_name: &str)
        ensures
            final(self).spec_object() == old(self).spec_object(),
            final(self).spec_registry() == old(self).spec_registry(),
            match first_hit(
                registry_names(old(self).spec_registry()),
                tag_of_str(component_name@),
            ) {
                Some(i) => final(self).spec_mask() == old(self).spec_mask() & !bit_mask(
                    old(self).spec_registry()[i].spec_index(),
                ),
                None => final(self).spec_mask() == old(self).spec_mask(),
            },
    {
        let refs = self.component_refs;
        match refs.get(&NameTag::from_str(component_name)) {
            Some(component) => {
                self.entity.set_bit(*component.index(), false);
            },
            None => {},
        }
    }

    /// Hands the finished payload and mask back to the spawn.
    pub(crate) fn finish(self) -> (r: (T, BitFlags))
        ensures
            r.0 == self.spec_object(),
            r.1.0 == self.spec_mask(),
    {
        (self.object, self.entity)
    }
}

/// The position of the first factory registered under `tag`, or nothing.
pub(crate) fn find_factory_index<F>(factories: &Vec<(NameTag, F)>, tag: &NameTag) -> (r: Option<
    usize,
>)
    ensures
        match r {
            Some(i) => first_hit(factory_keys(factories@), tag@) == Some(i as int) && i
                < factories@.len(),
            None => first_hit(factory_keys(factories@), tag@) is None,
        },
{
    let n = factories.len();
    let mut i: usize = 0;
    while i < n
        invariant
            n == factories@.len(),
            i <= n,
            forall|j: int| 0 <= j < i ==> factory_keys(factories@)[j] != tag@,
        decreases n - i,
    {
        if factories[i].0 == *tag {
            assert(factory_keys(factories@)[i as int] == tag@);
            proof {
                crate::types::lemma_first_hit_scan(factory_keys(factories@), tag@, i as int);
            }
            return Some(i);
        }
        assert(factory_keys(factories@)[i as int] != tag@);
        i += 1;
    }
    proof {
        crate::types::lemma_first_hit_scan(factory_keys(factories@), tag@, n as int);
    }
    None
}

} // verus!
