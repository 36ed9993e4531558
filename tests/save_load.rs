use moonshine_save::codec::{decode_snapshot, encode_snapshot};
use moonshine_save::entity::Entity;
use moonshine_save::filter::{EntityFilter, TypeFilter};
use moonshine_save::load::{load_world, LoadError, LoadWorld};
use moonshine_save::mapper::Retag;
use moonshine_save::save::{save_world, SaveWorld, SAVE};
use moonshine_save::snapshot::Snapshot;
use moonshine_save::value::{Attachments, Value};
use moonshine_save::world::World;

const FOO: u64 = 1;
const BAR: u64 = 2;
const BAZ: u64 = 3;
const NAME: u64 = 10;
const CHILDREN: u64 = 11;
const PARENT: u64 = 12;
const KIND: u64 = 13;
const SECRET: u64 = 20;
const PLAIN: u64 = 21;

fn text(s: &str) -> Value {
    Value::Bytes(s.as_bytes().to_vec())
}

fn table_value(t: &Attachments, k: u64) -> Option<Value> {
    t.iter().rev().find(|p| p.0 == k).map(|p| p.1.clone())
}

fn spawn(world: &mut World, t: Attachments) -> Entity {
    world.spawn_with(t).unwrap()
}

fn decoded(data: &Vec<u8>) -> Snapshot {
    decode_snapshot(data).expect("saved bytes decode")
}

#[test]
fn test_save_into_stream() {
    let mut world = World::new();
    spawn(&mut world, vec![(FOO, Value::Unit), (SAVE, Value::Unit)]);
    let saved = save_world(&mut world, &SaveWorld::<Retag>::new());
    let scene = decoded(&saved.data);
    assert_eq!(scene.entities.len(), 1);
    assert!(table_value(&scene.entities[0].1, FOO).is_some());
}

#[test]
fn test_save_resource() {
    let mut world = World::new();
    world.insert_resource(BAR, Value::Int(5));
    let req = SaveWorld::<Retag>::new().include_resource(BAR);
    let saved = save_world(&mut world, &req);
    let scene = decoded(&saved.data);
    assert_eq!(table_value(&scene.resources, BAR), Some(Value::Int(5)));
}

#[test]
fn resources_are_not_saved_by_default() {
    let mut world = World::new();
    world.insert_resource(BAR, Value::Int(5));
    let saved = save_world(&mut world, &SaveWorld::<Retag>::new());
    assert!(decoded(&saved.data).resources.is_empty());
}

#[test]
fn test_save_without_component() {
    let mut world = World::new();
    spawn(&mut world, vec![(FOO, Value::Unit), (BAZ, Value::Unit), (SAVE, Value::Unit)]);
    let req = SaveWorld::<Retag>::new().exclude_component(BAZ);
    let saved = save_world(&mut world, &req);
    let scene = decoded(&saved.data);
    assert!(table_value(&scene.entities[0].1, FOO).is_some());
    assert!(table_value(&scene.entities[0].1, BAZ).is_none());
}

#[test]
fn test_map_component() {
    let mut world = World::new();
    let e = spawn(&mut world, vec![(BAR, Value::Int(12)), (SAVE, Value::Unit)]);
    let req = SaveWorld::new().exclude_component(BAR).map_component(BAR, BAZ, Retag);
    let saved = save_world(&mut world, &req);
    let scene = decoded(&saved.data);
    assert_eq!(table_value(&scene.entities[0].1, BAZ), Some(Value::Int(12)));
    assert!(table_value(&scene.entities[0].1, BAR).is_none());
    assert!(world.has(e, BAR));
    assert!(!world.has(e, BAZ));
}

#[test]
fn test_load_stream() {
    let mut source = World::new();
    spawn(&mut source, vec![(FOO, Value::Unit), (SAVE, Value::Unit)]);
    let saved = save_world(&mut source, &SaveWorld::<Retag>::new());

    let mut world = World::new();
    let loaded = load_world(&mut world, &saved.data, &LoadWorld::<Retag>::new()).unwrap();
    let entities = loaded.entities();
    assert_eq!(entities.len(), 1);
    assert!(world.has(entities[0], FOO));
}

#[test]
fn test_load_map_component() {
    let mut source = World::new();
    spawn(&mut source, vec![(BAZ, Value::Int(7)), (SAVE, Value::Unit)]);
    let saved = save_world(&mut source, &SaveWorld::<Retag>::new());

    let mut world = World::new();
    let req = LoadWorld::new().map_component(BAZ, BAR, Retag);
    let loaded = load_world(&mut world, &saved.data, &req).unwrap();
    let e = loaded.entities()[0];
    assert_eq!(world.get(e, BAR), Some(Value::Int(7)));
    assert!(!world.has(e, BAZ));
}

#[test]
fn load_clears_marked_entities_first() {
    let mut source = World::new();
    spawn(&mut source, vec![(FOO, Value::Unit), (SAVE, Value::Unit)]);
    let saved = save_world(&mut source, &SaveWorld::<Retag>::new());

    let mut world = World::new();
    let old_saved = spawn(&mut world, vec![(SAVE, Value::Unit)]);
    let transient = spawn(&mut world, vec![(moonshine_save::load::UNLOAD, Value::Unit)]);
    let kept = spawn(&mut world, vec![(NAME, text("kept"))]);
    let loaded = load_world(&mut world, &saved.data, &LoadWorld::<Retag>::new()).unwrap();
    assert!(!world.contains(old_saved));
    assert!(!world.contains(transient));
    assert!(world.contains(kept));
    let mut live = vec![kept];
    live.extend(loaded.entities());
    assert_eq!(world.entities(), live);
}

#[test]
fn load_rejects_malformed_bytes_and_keeps_the_store() {
    let mut world = World::new();
    let e = spawn(&mut world, vec![(SAVE, Value::Unit)]);
    let garbage = vec![1u8, 2, 3];
    let r = load_world(&mut world, &garbage, &LoadWorld::<Retag>::new());
    assert!(matches!(r, Err(LoadError::Parse)));
    assert!(world.contains(e));

    let mut good = Vec::new();
    let mut w2 = World::new();
    let saved = save_world(&mut w2, &SaveWorld::<Retag>::all());
    good.extend(saved.data);
    good.push(0);
    assert!(matches!(load_world(&mut world, &good, &LoadWorld::<Retag>::new()), Err(LoadError::Parse)));
}

#[test]
fn basic_main() {
    let mut world = World::new();
    let a = spawn(&mut world, vec![(FOO, Value::Int(42)), (SAVE, Value::Unit)]);
    let b = spawn(&mut world, vec![(BAR, Value::Ref(a)), (SAVE, Value::Unit)]);
    let saved = save_world(&mut world, &SaveWorld::<Retag>::new());
    assert_eq!(saved.entities(), vec![a, b]);
    assert_eq!(world.get(a, FOO), Some(Value::Int(42)));
    assert_eq!(world.get(b, BAR), Some(Value::Ref(a)));
    assert!(world.has(a, SAVE));

    let mut fresh = World::new();
    spawn(&mut fresh, Vec::new());
    let loaded = load_world(&mut fresh, &saved.data, &LoadWorld::<Retag>::new()).unwrap();
    let new = loaded.entities();
    assert_eq!(new.len(), 2);
    assert_eq!(loaded.entity_map, vec![(a, new[0]), (b, new[1])]);
    assert_eq!(fresh.get(new[0], FOO), Some(Value::Int(42)));
    assert_eq!(fresh.get(new[1], BAR), Some(Value::Ref(new[0])));
    assert!(fresh.has(new[0], SAVE));
    assert!(loaded.dangling.is_empty());
}

#[test]
fn mapper_main() {
    // A `Secret` attachment is saved as a `Plain` surrogate and turned back on load.
    let mut world = World::new();
    let e = spawn(&mut world, vec![(SECRET, Value::Int(42)), (BAR, Value::Unit), (SAVE, Value::Unit)]);
    let req = SaveWorld::new().exclude_component(SECRET).map_component(SECRET, PLAIN, Retag);
    let saved = save_world(&mut world, &req);
    assert_eq!(world.get(e, SECRET), Some(Value::Int(42)));
    assert!(world.has(e, BAR));
    assert!(world.has(e, SAVE));
    assert!(!world.has(e, PLAIN));

    let mut fresh = World::new();
    let req = LoadWorld::new().map_component(PLAIN, SECRET, Retag);
    let loaded = load_world(&mut fresh, &saved.data, &req).unwrap();
    let new = loaded.entities();
    assert_eq!(new.len(), 1);
    assert_eq!(fresh.get(new[0], SECRET), Some(Value::Int(42)));
    assert!(fresh.has(new[0], BAR));
    assert!(fresh.has(new[0], SAVE));
    assert!(!fresh.has(new[0], PLAIN));
}

#[test]
fn resource_main() {
    let mut world = World::new();
    world.insert_resource(FOO, Value::Unit);
    let req = SaveWorld::<Retag>::new().include_resource(FOO);
    let saved = save_world(&mut world, &req);
    assert!(world.has_resource(FOO));

    let mut fresh = World::new();
    load_world(&mut fresh, &saved.data, &LoadWorld::<Retag>::new()).unwrap();
    assert!(fresh.has_resource(FOO));
}

#[test]
fn load_writes_saved_globals_over_old_ones() {
    let mut world = World::new();
    world.insert_resource(BAR, Value::Int(3));
    let saved = save_world(&mut world, &SaveWorld::<Retag>::new().include_resource(BAR));

    let mut target = World::new();
    target.insert_resource(BAR, Value::Int(1));
    target.insert_resource(BAZ, Value::Int(2));
    load_world(&mut target, &saved.data, &LoadWorld::<Retag>::new()).unwrap();
    assert_eq!(target.get_resource(BAR), Some(Value::Int(3)));
    assert_eq!(target.get_resource(BAZ), Some(Value::Int(2)));
}

#[test]
fn unsaved_main() {
    // A saved parent lists a saved child and an unsaved one.
    let mut world = World::new();
    let parent = spawn(&mut world, vec![(SAVE, Value::Unit)]);
    let a = spawn(&mut world, vec![(NAME, text("A")), (SAVE, Value::Unit), (PARENT, Value::Ref(parent))]);
    let b = spawn(&mut world, vec![(NAME, text("B")), (PARENT, Value::Ref(parent))]);
    world.insert(parent, CHILDREN, Value::Refs(vec![a, b]));
    let saved = save_world(&mut world, &SaveWorld::<Retag>::new());
    assert_eq!(world.get(parent, CHILDREN), Some(Value::Refs(vec![a, b])));

    let mut fresh = World::new();
    spawn(&mut fresh, Vec::new());
    let loaded = load_world(&mut fresh, &saved.data, &LoadWorld::<Retag>::new()).unwrap();
    let new = loaded.entities();
    assert_eq!(new.len(), 2);
    let children = match fresh.get(new[0], CHILDREN) {
        Some(Value::Refs(c)) => c,
        other => panic!("unexpected {:?}", other),
    };
    assert_eq!(children.len(), 2);
    assert_eq!(children[0], new[1]);
    assert_eq!(children[1], Entity::placeholder());
    let broken = children.iter().filter(|c| !fresh.has(**c, NAME)).count();
    assert_eq!(broken, 1);
    assert_eq!(loaded.dangling, vec![b]);
    assert_eq!(fresh.get(new[1], PARENT), Some(Value::Ref(new[0])));
}

#[test]
fn hierarchy_main() {
    let mut world = World::new();
    let parent = spawn(&mut world, vec![(SAVE, Value::Unit)]);
    let c1 = spawn(&mut world, vec![(SAVE, Value::Unit), (PARENT, Value::Ref(parent))]);
    let c2 = spawn(&mut world, vec![(SAVE, Value::Unit), (PARENT, Value::Ref(parent))]);
    world.insert(parent, CHILDREN, Value::Refs(vec![c1, c2]));
    let saved = save_world(&mut world, &SaveWorld::<Retag>::new());

    let mut fresh = World::new();
    spawn(&mut fresh, Vec::new());
    let loaded = load_world(&mut fresh, &saved.data, &LoadWorld::<Retag>::new()).unwrap();
    let new = loaded.entities();
    assert_eq!(fresh.get(new[0], CHILDREN), Some(Value::Refs(vec![new[1], new[2]])));
    for child in &new[1..] {
        assert_eq!(fresh.get(*child, PARENT), Some(Value::Ref(new[0])));
    }
    assert!(loaded.dangling.is_empty());
}

#[test]
fn two_kinds_load_into_an_empty_store() {
    let mut world = World::new();
    spawn(&mut world, vec![(KIND, text("Melee")), (SAVE, Value::Unit)]);
    spawn(&mut world, vec![(KIND, text("Ranged")), (SAVE, Value::Unit)]);
    let saved = save_world(&mut world, &SaveWorld::<Retag>::new());

    let mut fresh = World::new();
    load_world(&mut fresh, &saved.data, &LoadWorld::<Retag>::new()).unwrap();
    let live = fresh.entities();
    assert_eq!(live.len(), 2);
    let mut kinds: Vec<Value> = live.iter().map(|e| fresh.get(*e, KIND).unwrap()).collect();
    kinds.sort_by_key(|v| format!("{:?}", v));
    assert_eq!(kinds, vec![text("Melee"), text("Ranged")]);
    let melee = live.iter().filter(|e| fresh.get(**e, KIND) == Some(text("Melee"))).count();
    assert_eq!(melee, 1);
}

#[test]
fn saving_twice_writes_the_same_bytes() {
    let mut world = World::new();
    let a = spawn(&mut world, vec![(SECRET, Value::Int(9)), (SAVE, Value::Unit)]);
    spawn(&mut world, vec![(FOO, Value::Ref(a)), (SAVE, Value::Unit)]);
    let req = SaveWorld::new().map_component(SECRET, PLAIN, Retag);
    let first = save_world(&mut world, &req);
    let second = save_world(&mut world, &req);
    assert_eq!(first.data, second.data);
}

#[test]
fn excluded_type_is_absent_from_every_entity() {
    let mut world = World::new();
    spawn(&mut world, vec![(FOO, Value::Int(1)), (BAZ, Value::Int(2)), (SAVE, Value::Unit)]);
    spawn(&mut world, vec![(BAZ, Value::Int(3)), (SAVE, Value::Unit)]);
    let saved = save_world(&mut world, &SaveWorld::<Retag>::new().exclude_component(BAZ));
    for (_, t) in &decoded(&saved.data).entities {
        assert!(t.iter().all(|p| p.0 != BAZ));
    }
}

#[test]
fn save_leaves_no_surrogate_behind() {
    let mut world = World::new();
    let e = spawn(&mut world, vec![(SECRET, Value::Int(1)), (SAVE, Value::Unit)]);
    let other = spawn(&mut world, vec![(SECRET, Value::Int(2))]);
    let req = SaveWorld::new().map_component(SECRET, PLAIN, Retag);
    let saved = save_world(&mut world, &req);
    assert_eq!(table_value(&saved.scene.entities[0].1, PLAIN), Some(Value::Int(1)));
    assert!(!world.has(e, PLAIN));
    assert!(!world.has(other, PLAIN));
    assert_eq!(world.get(e, SECRET), Some(Value::Int(1)));
}

#[test]
fn entity_filter_selects_entities() {
    let mut world = World::new();
    let a = spawn(&mut world, vec![(FOO, Value::Unit)]);
    let b = spawn(&mut world, vec![(FOO, Value::Unit)]);
    let c = spawn(&mut world, vec![(FOO, Value::Unit)]);
    let only = SaveWorld::<Retag>::all().with_entities(EntityFilter::allow(vec![c, a]));
    assert_eq!(save_world(&mut world, &only).entities(), vec![a, c]);
    let but = SaveWorld::<Retag>::all().with_entities(EntityFilter::block(vec![a]));
    assert_eq!(save_world(&mut world, &but).entities(), vec![b, c]);
    let none = SaveWorld::<Retag>::all().with_entities(EntityFilter::allow(Vec::new()));
    assert!(save_world(&mut world, &none).entities().is_empty());
    assert!(EntityFilter::allow_all().filter_entity(b));
    assert!(EntityFilter::default().filter_entity(b));
}

#[test]
fn type_filter_exceptions_win() {
    let f = TypeFilter::allow_all().deny(FOO);
    assert!(!f.is_allowed(FOO));
    assert!(f.is_allowed(BAR));
    let g = TypeFilter::deny_all().allow(FOO);
    assert!(g.is_allowed(FOO));
    assert!(!g.is_allowed(BAR));
    assert!(!g.clone().deny(FOO).is_allowed(FOO));
    assert!(f.allow(FOO).is_allowed(FOO));
}

#[test]
fn entity_bits_round_trip() {
    let e = Entity::new(7, 3);
    assert_eq!(e.to_bits(), 3 * 0x1_0000_0000 + 7);
    assert_eq!(Entity::from_bits(e.to_bits()), e);
    assert_eq!(Entity::from_bits(4294967296), Entity::new(0, 1));
}

#[test]
fn snapshot_bytes_round_trip() {
    let scene = Snapshot {
        entities: vec![
            (Entity::new(4, 1), vec![(FOO, Value::Bytes(vec![1, 2, 3])), (BAR, Value::Refs(vec![Entity::new(9, 0)]))]),
            (Entity::new(5, 0), vec![]),
        ],
        resources: vec![(BAZ, Value::Int(u64::MAX))],
    };
    let bytes = encode_snapshot(&scene);
    let back = decode_snapshot(&bytes).unwrap();
    assert_eq!(back.entities, scene.entities);
    assert_eq!(back.resources, scene.resources);
    assert_eq!(&bytes[0..8], &1u64.to_le_bytes());
}

#[test]
fn world_attachment_operations() {
    let mut world = World::new();
    let e = world.spawn().unwrap();
    assert!(world.insert(e, FOO, Value::Int(1)));
    assert!(world.insert(e, FOO, Value::Int(2)));
    assert_eq!(world.get(e, FOO), Some(Value::Int(2)));
    assert_eq!(world.attachments(e).unwrap().len(), 1);
    assert!(world.remove(e, FOO));
    assert!(!world.has(e, FOO));
    assert!(world.despawn(e));
    assert!(!world.despawn(e));
    assert!(!world.insert(e, FOO, Value::Unit));
    assert_eq!(world.get(e, FOO), None);
}


#[test]
fn global_values() {
    let mut world = World::new();
    assert!(!world.has_resource(BAR));
    world.insert_resource(BAR, Value::Int(1));
    world.insert_resource(BAR, Value::Int(2));
    assert!(world.has_resource(BAR));
    assert_eq!(world.get_resource(BAR), Some(Value::Int(2)));
    assert_eq!(world.resources().len(), 1);
    world.remove_resource(BAR);
    assert!(!world.has_resource(BAR));
}

#[test]
fn save_keeps_an_attachment_of_a_surrogate_type() {
    let mut world = World::new();
    let e = spawn(&mut world, vec![(SECRET, Value::Int(1)), (PLAIN, Value::Int(7)), (SAVE, Value::Unit)]);
    let before = world.attachments(e).unwrap();
    let req = SaveWorld::new().map_component(SECRET, PLAIN, Retag);
    let first = save_world(&mut world, &req);
    assert_eq!(table_value(&first.scene.entities[0].1, PLAIN), Some(Value::Int(1)));
    assert_eq!(world.attachments(e).unwrap(), before);
    let second = save_world(&mut world, &req);
    assert_eq!(first.data, second.data);
}

#[test]
fn load_rejects_a_repeated_identity() {
    let id = Entity::new(1, 0);
    let scene = Snapshot { entities: vec![(id, vec![]), (id, vec![])], resources: vec![] };
    let bytes = encode_snapshot(&scene);
    assert!(decode_snapshot(&bytes).is_none());
    let mut world = World::new();
    let r = load_world(&mut world, &bytes, &LoadWorld::<Retag>::new());
    assert!(matches!(r, Err(LoadError::Parse)));
    assert!(world.entities().is_empty());
}

#[test]
fn loaded_identities_are_fresh() {
    let mut source = World::new();
    spawn(&mut source, vec![(SAVE, Value::Unit)]);
    let saved = save_world(&mut source, &SaveWorld::<Retag>::new());

    let mut world = World::new();
    let removed = spawn(&mut world, vec![(SAVE, Value::Unit)]);
    let loaded = load_world(&mut world, &saved.data, &LoadWorld::<Retag>::new()).unwrap();
    assert_ne!(loaded.entities()[0], removed);
    assert!(!world.contains(removed));
    assert!(!world.contains(Entity::placeholder()));
}
