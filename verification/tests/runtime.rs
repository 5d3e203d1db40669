//! The runtime exercised end to end: hooks, ticks, and the unguarded
//! whole-pool pass.

use ecs_core::{Behaviour, BuildTools, Ecs, EcsBuilder, Factory, NameTag, ObjectIndex, Objects, System};

const CAPACITY: usize = 10;
const NUM_UPDATES: u128 = 1000;

#[derive(Default, Debug)]
struct Cell {
    pub spawned: bool,
    pub early: u128,
    pub call1: u128,
    pub call2: u128,
    pub call3: u128,
}

enum FactoryKind {
    Factory1,
    Factory2,
    Factory3,
}

impl Factory<Cell> for FactoryKind {
    fn make_spawn(&mut self, tools: &mut BuildTools<Cell>) {
        match self {
            FactoryKind::Factory1 => {
                tools.add_component("call-1");
                tools.edit().call1 = 0;
            }
            FactoryKind::Factory2 => tools.add_component("call-2"),
            FactoryKind::Factory3 => tools.add_component("call-3"),
        }
    }
}

enum BehaviourKind {
    Call1,
    Call2,
    Call3,
}

impl Behaviour<Cell> for BehaviourKind {
    fn required_components(&self) -> Vec<NameTag> {
        match self {
            BehaviourKind::Call1 => vec![NameTag::from_str("call-1")],
            BehaviourKind::Call2 => vec![NameTag::from_str("call-2")],
            BehaviourKind::Call3 => vec![NameTag::from_str("call-3")],
        }
    }

    fn on_startup(&mut self, _objects: &mut Objects<Cell>, system: &mut System) {
        if let BehaviourKind::Call1 = self {
            system.spawn("test", "type-2");
        }
    }

    fn on_early_update(&mut self, objects: &mut Objects<Cell>, _system: &mut System) {
        if let BehaviourKind::Call1 = self {
            // Slot 0 is the last slot any spawn would claim, so it is a
            // safe scratch cell for counting early-update invocations.
            objects.get_mut(&0).early += 1;
        }
    }

    fn on_update(&mut self, target: &ObjectIndex, objects: &mut Objects<Cell>, _system: &mut System) {
        match self {
            BehaviourKind::Call1 => objects.get_mut(target).call1 += 1,
            BehaviourKind::Call2 => objects.get_mut(target).call2 += 1,
            BehaviourKind::Call3 => objects.get_mut(target).call3 += 1,
        }
    }
}

#[test]
fn early_update() {
    let mut ecs: Ecs<Cell, BehaviourKind, FactoryKind> = EcsBuilder::new(CAPACITY)
        .define_component("call-1")
        .build_systems()
        .define_system(BehaviourKind::Call1)
        .setup_factories()
        .define_factory("type-1", FactoryKind::Factory1)
        .finalize();

    assert_eq!(ecs.get_ref(&0).early, 0);
    ecs.start();
    assert_eq!(ecs.get_ref(&0).early, 1);
    ecs.update();
    assert_eq!(ecs.get_ref(&0).early, 2);
}

#[test]
fn update_speed() {
    let mut ecs: Ecs<Cell, BehaviourKind, FactoryKind> = EcsBuilder::new(CAPACITY)
        .define_component("call-1")
        .define_component("call-2")
        .define_component("call-3")
        .build_systems()
        .define_system(BehaviourKind::Call1)
        .define_system(BehaviourKind::Call2)
        .define_system(BehaviourKind::Call3)
        .setup_factories()
        .define_factory("type-1", FactoryKind::Factory1)
        .define_factory("type-2", FactoryKind::Factory2)
        .define_factory("type-3", FactoryKind::Factory3)
        .finalize();

    ecs.spawn("entity-1", "type-1");
    ecs.spawn("entity-2", "type-2");
    ecs.spawn("entity-3", "type-3");
    ecs.start();

    for _i in 0..NUM_UPDATES {
        ecs.update();
    }

    let entity1 = ecs.find("entity-1").unwrap();
    assert_eq!(ecs.get_ref(&entity1).call1, NUM_UPDATES);
    assert_eq!(ecs.get_ref(&entity1).call2, 0);
    assert_eq!(ecs.get_ref(&entity1).call3, 0);

    let entity2 = ecs.find("entity-2").unwrap();
    assert_eq!(ecs.get_ref(&entity2).call1, 0);
    assert_eq!(ecs.get_ref(&entity2).call2, NUM_UPDATES);
    assert_eq!(ecs.get_ref(&entity2).call3, 0);

    let entity3 = ecs.find("entity-3").unwrap();
    assert_eq!(ecs.get_ref(&entity3).call1, 0);
    assert_eq!(ecs.get_ref(&entity3).call2, 0);
    assert_eq!(ecs.get_ref(&entity3).call3, NUM_UPDATES);

    // The entity spawned by Call1's startup hook carries "call-2".
    let test = ecs.find("test").unwrap();
    assert_eq!(ecs.get_ref(&test).call1, 0);
    assert_eq!(ecs.get_ref(&test).call2, NUM_UPDATES);
    assert_eq!(ecs.get_ref(&test).call3, 0);
}

#[test]
fn open_update_speed() {
    let mut ecs: Ecs<Cell, BehaviourKind, FactoryKind> = EcsBuilder::new(CAPACITY)
        .build_systems()
        .setup_factories()
        .define_factory("type-1", FactoryKind::Factory1)
        .finalize();

    ecs.spawn("entity-1", "type-1");
    ecs.start();

    for _i in 0..NUM_UPDATES {
        ecs.open_update(|mut cell: Cell| {
            cell.call1 += 1;
            cell
        });
    }

    let entity1 = ecs.find("entity-1").unwrap();
    assert_eq!(ecs.get_ref(&entity1).call1, NUM_UPDATES);
}
