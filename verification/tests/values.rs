//! The leaf value types: name tags, membership masks, and the registry.

use ecs_core::{Behaviour, BitFlags, BuildTools, Ecs, EcsBuilder, Factory, NameTag, ObjectIndex, Objects, System};

#[derive(Default, Debug)]
struct Payload {
    pub value: u64,
}

enum NoBehaviour {}

impl Behaviour<Payload> for NoBehaviour {
    fn required_components(&self) -> Vec<NameTag> {
        match *self {}
    }

    fn on_update(&mut self, _target: &ObjectIndex, _objects: &mut Objects<Payload>, _system: &mut System) {
        match *self {}
    }
}

struct NoFactory;

impl Factory<Payload> for NoFactory {
    fn make_spawn(&mut self, _tools: &mut BuildTools<Payload>) {}
}

#[test]
fn name_tag_stores_utf8_bytes_padded() {
    let tag = NameTag::from_str("abc");
    assert_eq!(
        tag.0,
        [97, 98, 99, 0, 0, 0, 0, 0, 0, 0, 0, 0, 0, 0, 0, 0]
    );
}

#[test]
fn name_tag_round_trips_through_string() {
    let tag = NameTag::from_str("abc");
    let back = tag.to_string();
    assert_eq!(back, "abc\0\0\0\0\0\0\0\0\0\0\0\0\0");
}

#[test]
fn name_tag_with_invalid_utf8_reads_back_empty() {
    let tag = NameTag([0xFF; 16]);
    assert_eq!(tag.to_string(), "");
}

#[test]
fn name_tag_from_string_matches_from_str() {
    assert_eq!(NameTag::from_string(String::from("call-1")), NameTag::from_str("call-1"));
}

#[test]
fn name_tag_truncates_past_sixteen_bytes() {
    let long = NameTag::from_str("abcdefghijklmnop-tail");
    let cut = NameTag::from_str("abcdefghijklmnop");
    assert_eq!(long, cut);
    assert_ne!(long, NameTag::from_str("abcdefghijklmnoq"));
}

#[test]
fn bit_flags_operations() {
    let mut flags = BitFlags(0);
    flags.set_bit(0, true);
    assert_eq!(flags.0, 1);
    flags.set_bit(3, true);
    assert_eq!(flags.0, 0b1001);
    flags.set_bit(0, false);
    assert_eq!(flags.0, 0b1000);
    flags.enable_bits(0b0110);
    assert_eq!(flags.0, 0b1110);
    flags.disable_bits(0b0010);
    assert_eq!(flags.0, 0b1100);
    flags.reset();
    assert_eq!(flags.0, 0);
}

#[test]
fn bit_flags_position_wraps_at_thirty_two() {
    let mut low = BitFlags(0);
    low.set_bit(0, true);
    let mut high = BitFlags(0);
    high.set_bit(32, true);
    assert_eq!(low.0, high.0);
}

#[test]
fn bit_flags_superset_test() {
    let mask = BitFlags(0b1110);
    assert!(mask.contains_all(&BitFlags(0b0110)));
    assert!(mask.contains_all(&BitFlags(0b1110)));
    assert!(mask.contains_all(&BitFlags(0)));
    assert!(!mask.contains_all(&BitFlags(0b0001)));
    assert!(!mask.contains_all(&BitFlags(0b10110)));
    assert!(BitFlags(0xffff_ffff).contains_all(&mask));
}

#[test]
fn fresh_runtime_holds_default_payloads() {
    let mut ecs: Ecs<Payload, NoBehaviour, NoFactory> = EcsBuilder::new(4)
        .build_systems()
        .setup_factories()
        .finalize();
    for i in 0..4 {
        assert_eq!(ecs.get_ref(&i).value, 0);
    }
}

#[test]
fn registry_assigns_positions_in_definition_order() {
    let ecs: Ecs<Payload, NoBehaviour, NoFactory> = EcsBuilder::new(4)
        .define_component("pos")
        .define_component("vel")
        .define_component("hp")
        .build_systems()
        .setup_factories()
        .finalize();
    let refs = ecs.components();
    assert_eq!(refs.list().len(), 3);
    let vel = refs.get(&NameTag::from_str("vel")).unwrap();
    assert_eq!(*vel.index(), 1);
    assert_eq!(*vel.name(), NameTag::from_str("vel"));
    assert!(refs.get(&NameTag::from_str("missing")).is_none());
}
