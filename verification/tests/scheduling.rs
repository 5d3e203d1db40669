//! Dispatch and deferral: the superset test over every mask
//! relationship, and the tick-boundary guarantees of the deferred
//! request queues.

use ecs_core::{Behaviour, BuildTools, Ecs, EcsBuilder, Factory, NameTag, ObjectIndex, Objects, System};

#[derive(Default, Debug)]
struct Probe {
    pub visits: u64,
}

struct NeedBoth;

impl Behaviour<Probe> for NeedBoth {
    fn required_components(&self) -> Vec<NameTag> {
        vec![NameTag::from_str("c0"), NameTag::from_str("c1")]
    }

    fn on_update(&mut self, target: &ObjectIndex, objects: &mut Objects<Probe>, _system: &mut System) {
        objects.get_mut(target).visits += 1;
    }
}

enum GrantSet {
    Exact,
    Superset,
    Full,
    OnlyC0,
    Nothing,
}

impl Factory<Probe> for GrantSet {
    fn make_spawn(&mut self, tools: &mut BuildTools<Probe>) {
        match self {
            GrantSet::Exact => {
                tools.add_component("c0");
                tools.add_component("c1");
            }
            GrantSet::Superset => {
                tools.add_component("c0");
                tools.add_component("c1");
                tools.add_component("c2");
            }
            GrantSet::Full => {
                tools.add_component("c0");
                tools.add_component("c1");
                tools.add_component("c2");
                tools.add_component("c3");
            }
            GrantSet::OnlyC0 => tools.add_component("c0"),
            GrantSet::Nothing => {}
        }
    }
}

#[test]
fn visits_exactly_the_mask_supersets() {
    // The system requires {c0, c1}. An entity is visited in a tick iff
    // its mask is a bitwise superset of that requirement: equal mask,
    // strict superset and the full registry mask qualify; a strict
    // subset and the empty mask do not.
    let mut ecs: Ecs<Probe, NeedBoth, GrantSet> = EcsBuilder::new(8)
        .define_component("c0")
        .define_component("c1")
        .define_component("c2")
        .define_component("c3")
        .build_systems()
        .define_system(NeedBoth)
        .setup_factories()
        .define_factory("exact", GrantSet::Exact)
        .define_factory("superset", GrantSet::Superset)
        .define_factory("full", GrantSet::Full)
        .define_factory("only-c0", GrantSet::OnlyC0)
        .define_factory("nothing", GrantSet::Nothing)
        .finalize();
    let equal = ecs.spawn("equal", "exact").unwrap();
    let above = ecs.spawn("above", "superset").unwrap();
    let full = ecs.spawn("full", "full").unwrap();
    let below = ecs.spawn("below", "only-c0").unwrap();
    let empty = ecs.spawn("empty", "nothing").unwrap();
    ecs.update();
    ecs.update();
    assert_eq!(ecs.get_ref(&equal).visits, 2);
    assert_eq!(ecs.get_ref(&above).visits, 2);
    assert_eq!(ecs.get_ref(&full).visits, 2);
    assert_eq!(ecs.get_ref(&below).visits, 0);
    assert_eq!(ecs.get_ref(&empty).visits, 0);
}

struct Replacer {
    fired: bool,
}

impl Behaviour<Probe> for Replacer {
    fn required_components(&self) -> Vec<NameTag> {
        vec![NameTag::from_str("c0")]
    }

    fn on_update(&mut self, target: &ObjectIndex, objects: &mut Objects<Probe>, system: &mut System) {
        objects.get_mut(target).visits += 1;
        if !self.fired {
            self.fired = true;
            system.destroy(target);
            system.spawn("repl", "grant-c0");
        }
    }
}

#[test]
fn requests_apply_after_the_scan_into_the_freed_slot() {
    // During the tick the visited entity enqueues its own destruction
    // and a replacement spawn. Neither is observed by the scan; after
    // the tick the destroy has run before the spawn, so the
    // replacement reuses the freed slot, unvisited so far.
    let mut ecs: Ecs<Probe, Replacer, GrantSet> = EcsBuilder::new(4)
        .define_component("c0")
        .build_systems()
        .define_system(Replacer { fired: false })
        .setup_factories()
        .define_factory("grant-c0", GrantSet::OnlyC0)
        .finalize();
    let doomed = ecs.spawn("doomed", "grant-c0").unwrap();
    ecs.update();
    assert_eq!(ecs.find("doomed"), None);
    let repl = ecs.find("repl").unwrap();
    assert_eq!(repl, doomed);
    assert_eq!(ecs.get_ref(&repl).visits, 0);
    ecs.update();
    assert_eq!(ecs.get_ref(&repl).visits, 1);
}

struct Scrambler;

impl Behaviour<Probe> for Scrambler {
    fn required_components(&self) -> Vec<NameTag> {
        vec![NameTag::from_str("c1")]
    }

    fn on_update(&mut self, _target: &ObjectIndex, _objects: &mut Objects<Probe>, system: &mut System) {
        system.destroy(&3);
        system.destroy(&2);
        system.spawn("s1", "grant-c0");
        system.spawn("s2", "grant-c0");
    }
}

enum TriggerOrC0 {
    C1,
    C0,
}

impl Factory<Probe> for TriggerOrC0 {
    fn make_spawn(&mut self, tools: &mut BuildTools<Probe>) {
        match self {
            TriggerOrC0::C1 => tools.add_component("c1"),
            TriggerOrC0::C0 => tools.add_component("c0"),
        }
    }
}

#[test]
fn drain_runs_destroys_before_spawns_most_recent_first() {
    // One tick enqueues destroy(3), destroy(2), spawn(s1), spawn(s2).
    // Draining pops each queue most-recently-queued first and runs all
    // destroys before any spawn: slot 2 is freed first, then slot 3,
    // leaving the free list topped by 3; s2 is spawned first and takes
    // slot 3, s1 takes slot 2.
    let mut ecs: Ecs<Probe, Scrambler, TriggerOrC0> = EcsBuilder::new(4)
        .define_component("c0")
        .define_component("c1")
        .build_systems()
        .define_system(Scrambler)
        .setup_factories()
        .define_factory("grant-c0", TriggerOrC0::C0)
        .define_factory("trigger", TriggerOrC0::C1)
        .finalize();
    assert_eq!(ecs.spawn("victim-a", "grant-c0"), Some(3));
    assert_eq!(ecs.spawn("victim-b", "grant-c0"), Some(2));
    assert_eq!(ecs.spawn("trig", "trigger"), Some(1));
    ecs.update();
    assert_eq!(ecs.find("victim-a"), None);
    assert_eq!(ecs.find("victim-b"), None);
    assert_eq!(ecs.find("s2"), Some(3));
    assert_eq!(ecs.find("s1"), Some(2));
}
