//! The runtime's documented guarantees on concrete scenarios: capacity
//! exhaustion, LIFO slot reuse, the 32-component ceiling, mask-filtered
//! dispatch, and the unguarded whole-pool pass.

use ecs_core::{Behaviour, BuildTools, Ecs, EcsBuilder, Factory, NameTag, ObjectIndex, Objects, System};

#[derive(Default, Debug)]
struct Counter {
    pub hits_a: u64,
    pub hits_b: u64,
}

enum Need {
    A,
    B,
}

impl Behaviour<Counter> for Need {
    fn required_components(&self) -> Vec<NameTag> {
        match self {
            Need::A => vec![NameTag::from_str("a")],
            Need::B => vec![NameTag::from_str("b")],
        }
    }

    fn on_update(&mut self, target: &ObjectIndex, objects: &mut Objects<Counter>, _system: &mut System) {
        match self {
            Need::A => objects.get_mut(target).hits_a += 1,
            Need::B => objects.get_mut(target).hits_b += 1,
        }
    }
}

enum Grant {
    OnlyA,
    AddThenRemoveA,
    Bit32,
}

impl Factory<Counter> for Grant {
    fn make_spawn(&mut self, tools: &mut BuildTools<Counter>) {
        match self {
            Grant::OnlyA => tools.add_component("a"),
            Grant::AddThenRemoveA => {
                tools.add_component("a");
                tools.add_component("b");
                tools.remove_component("a");
            }
            Grant::Bit32 => tools.add_component("c32"),
        }
    }
}

fn two_component_runtime(capacity: usize) -> Ecs<Counter, Need, Grant> {
    EcsBuilder::new(capacity)
        .define_component("a")
        .define_component("b")
        .build_systems()
        .define_system(Need::A)
        .define_system(Need::B)
        .setup_factories()
        .define_factory("fa", Grant::OnlyA)
        .define_factory("fswap", Grant::AddThenRemoveA)
        .finalize()
}

#[test]
fn capacity_spawns_then_exhausts() {
    let mut ecs = two_component_runtime(3);
    // The free list starts as [0, 1, 2] and is claimed from the top.
    assert_eq!(ecs.spawn("e1", "fa"), Some(2));
    assert_eq!(ecs.spawn("e2", "fa"), Some(1));
    assert_eq!(ecs.spawn("e3", "fa"), Some(0));
    assert_eq!(ecs.spawn("e4", "fa"), None);
    // Capacity exhaustion is recoverable: freeing one slot lets the
    // next spawn succeed again.
    ecs.destroy(&1);
    assert_eq!(ecs.spawn("e5", "fa"), Some(1));
}

#[test]
fn zero_capacity_never_spawns() {
    let mut ecs = two_component_runtime(0);
    assert_eq!(ecs.spawn("e1", "fa"), None);
}

#[test]
fn destroy_then_spawn_reuses_slot_with_empty_mask() {
    let mut ecs = two_component_runtime(4);
    let first = ecs.spawn("doomed", "fa").unwrap();
    ecs.destroy(&first);
    // LIFO reuse: the just-freed slot is the first one handed out again.
    let second = ecs.spawn("fresh", "nothing-registered").unwrap();
    assert_eq!(second, first);
    // The reused slot's mask was reset on spawn and no factory matched,
    // so the "a"-system must not visit it.
    ecs.update();
    assert_eq!(ecs.get_ref(&second).hits_a, 0);
    assert_eq!(ecs.get_ref(&second).hits_b, 0);
}

#[test]
fn destroying_an_inactive_index_is_ignored() {
    let mut ecs = two_component_runtime(2);
    let e = ecs.spawn("e1", "fa").unwrap();
    ecs.destroy(&99);
    ecs.destroy(&e);
    ecs.destroy(&e);
    assert_eq!(ecs.spawn("e2", "fa"), Some(e));
}

#[test]
fn matching_system_counts_and_other_does_not() {
    // Registry {a, b}; the "a"-system and the "b"-system each increment
    // their own counter; the entity has only "a".
    let mut ecs = two_component_runtime(4);
    let e = ecs.spawn("only-a", "fa").unwrap();
    ecs.update();
    assert_eq!(ecs.get_ref(&e).hits_a, 1);
    assert_eq!(ecs.get_ref(&e).hits_b, 0);
}

#[test]
fn factory_can_withdraw_a_granted_component() {
    let mut ecs = two_component_runtime(4);
    let e = ecs.spawn("swapped", "fswap").unwrap();
    ecs.update();
    assert_eq!(ecs.get_ref(&e).hits_a, 0);
    assert_eq!(ecs.get_ref(&e).hits_b, 1);
}

#[test]
fn unknown_requirement_names_are_dropped() {
    // A behaviour requiring {"a", "ghost"} matches entities that have
    // just "a": the unregistered name falls out of the mask silently.
    struct NeedAGhost;
    impl Behaviour<Counter> for NeedAGhost {
        fn required_components(&self) -> Vec<NameTag> {
            vec![NameTag::from_str("a"), NameTag::from_str("ghost")]
        }

        fn on_update(&mut self, target: &ObjectIndex, objects: &mut Objects<Counter>, _system: &mut System) {
            objects.get_mut(target).hits_a += 1;
        }
    }
    let mut ecs: Ecs<Counter, NeedAGhost, Grant> = EcsBuilder::new(4)
        .define_component("a")
        .build_systems()
        .define_system(NeedAGhost)
        .setup_factories()
        .define_factory("fa", Grant::OnlyA)
        .finalize();
    // The dropped name is surfaced as a warning-level count.
    assert_eq!(ecs.unresolved_requirements(), 1);
    let e = ecs.spawn("e1", "fa").unwrap();
    ecs.update();
    assert_eq!(ecs.get_ref(&e).hits_a, 1);
}

#[test]
fn fully_resolved_requirements_raise_no_warning() {
    let ecs = two_component_runtime(2);
    assert_eq!(ecs.unresolved_requirements(), 0);
}

#[test]
fn unknown_factory_type_spawns_maskless_default() {
    let mut ecs = two_component_runtime(4);
    let e = ecs.spawn("plain", "no-such-type").unwrap();
    assert_eq!(ecs.find("plain"), Some(e));
    assert_eq!(ecs.get_ref(&e).hits_a, 0);
    ecs.update();
    // No component, so no system touches it.
    assert_eq!(ecs.get_ref(&e).hits_a, 0);
    assert_eq!(ecs.get_ref(&e).hits_b, 0);
}

#[test]
fn thirty_third_component_aliases_an_earlier_bit() {
    // 33 components: "c32" lands on bit 32 % 32 == 0, the bit of "c0".
    // A system requiring "c0" therefore also visits an entity granted
    // only "c32".
    struct NeedC0;
    impl Behaviour<Counter> for NeedC0 {
        fn required_components(&self) -> Vec<NameTag> {
            vec![NameTag::from_str("c0")]
        }

        fn on_update(&mut self, target: &ObjectIndex, objects: &mut Objects<Counter>, _system: &mut System) {
            objects.get_mut(target).hits_a += 1;
        }
    }
    let mut builder = EcsBuilder::new(4);
    for i in 0..33 {
        let name = format!("c{}", i);
        builder = builder.define_component(name.as_str());
    }
    let mut ecs: Ecs<Counter, NeedC0, Grant> = builder
        .build_systems()
        .define_system(NeedC0)
        .setup_factories()
        .define_factory("f32", Grant::Bit32)
        .finalize();
    let high = ecs.components().get(&NameTag::from_str("c32")).unwrap();
    assert_eq!(*high.index(), 32);
    let e = ecs.spawn("aliased", "f32").unwrap();
    ecs.update();
    assert_eq!(ecs.get_ref(&e).hits_a, 1);
}

#[test]
fn open_update_touches_every_slot_even_inactive() {
    // Capacity 10 with one active entity: the unguarded pass reaches
    // all ten slots, where the masked update reaches only the one.
    let mut ecs = two_component_runtime(10);
    let e = ecs.spawn("lone", "fa").unwrap();
    ecs.open_update(|mut c: Counter| {
        c.hits_b += 1;
        c
    });
    for i in 0..10 {
        assert_eq!(ecs.get_ref(&i).hits_b, 1);
    }
    ecs.update();
    let mut touched: u64 = 0;
    for i in 0..10 {
        touched += ecs.get_ref(&i).hits_a;
    }
    assert_eq!(touched, 1);
    assert_eq!(ecs.get_ref(&e).hits_a, 1);
}

#[test]
fn find_returns_first_match_in_active_order() {
    let mut ecs = two_component_runtime(4);
    let first = ecs.spawn("twin", "fa").unwrap();
    let second = ecs.spawn("twin", "fa").unwrap();
    assert_ne!(first, second);
    assert_eq!(ecs.find("twin"), Some(first));
    assert_eq!(ecs.find("nobody"), None);
    ecs.destroy(&first);
    assert_eq!(ecs.find("twin"), Some(second));
}

#[test]
fn get_mut_writes_through() {
    let mut ecs = two_component_runtime(2);
    let e = ecs.spawn("e1", "fa").unwrap();
    ecs.get_mut(&e).hits_a = 41;
    ecs.get_mut(&e).hits_a += 1;
    assert_eq!(ecs.get_ref(&e).hits_a, 42);
}
