use vstd::prelude::*;

use crate::codec::{decode, decode_snapshot};
use crate::entity::Entity;
use crate::mapper::{replace_all, MapComponent, MapPass, SceneMapper};
use crate::save::SAVE;
use crate::snapshot::SnapshotModel;
use crate::table::{keys, lookup};
use crate::value::{copy_table, model, resolve, Attachments, Datum, Value};
use crate::world::{put_all, unmarked, World};

verus! {

/// The type key of the marker attachment that asks for an entity to be
/// removed before a load, though it is not saved.
pub const UNLOAD: u64 = 0xFFFF_FFFF_FFFF_FFFD;

/// Where a saved identity points after a load: its new identity, or the
/// placeholder when it was not part of the snapshot.
pub open spec fn remap(e: Entity, map: Seq<(Entity, Entity)>) -> Entity {
    match lookup(map, e) {
        Some(n) => n,
        None => Entity::spec_placeholder(),
    }
}

pub open spec fn remap_datum(d: Datum, map: Seq<(Entity, Entity)>) -> Datum {
    match d {
        Datum::Ref(e) => Datum::Ref(remap(e, map)),
        Datum::Refs(es) => Datum::Refs(es.map_values(|e: Entity| remap(e, map))),
        _ => d,
    }
}

/// A table with every reference carried into the new identities.
pub open spec fn remap_table(t: Seq<(u64, Datum)>, map: Seq<(Entity, Entity)>) -> Seq<(u64, Datum)> {
    t.map_values(|p: (u64, Datum)| (p.0, remap_datum(p.1, map)))
}

/// The references of a list that the map does not resolve, in order.
pub open spec fn missing_ids(es: Seq<Entity>, map: Seq<(Entity, Entity)>) -> Seq<Entity>
    decreases es.len(),
{
    if es.len() == 0 {
        es
    } else if lookup(map, es.last()) is None {
        missing_ids(es.drop_last(), map).push(es.last())
    } else {
        missing_ids(es.drop_last(), map)
    }
}

pub open spec fn missing_datum(d: Datum, map: Seq<(Entity, Entity)>) -> Seq<Entity> {
    match d {
        Datum::Ref(e) => missing_ids(seq![e], map),
        Datum::Refs(es) => missing_ids(es, map),
        _ => Seq::empty(),
    }
}

pub open spec fn missing_table(t: Seq<(u64, Datum)>, map: Seq<(Entity, Entity)>) -> Seq<Entity>
    decreases t.len(),
{
    if t.len() == 0 {
        Seq::empty()
    } else {
        missing_table(t.drop_last(), map) + missing_datum(t.last().1, map)
    }
}

/// Every reference of the snapshot's records that no saved entity resolves,
/// in snapshot order.
pub open spec fn missing_records(rs: Seq<(Entity, Seq<(u64, Datum)>)>, map: Seq<(Entity, Entity)>) -> Seq<
    Entity,
>
    decreases rs.len(),
{
    if rs.len() == 0 {
        Seq::empty()
    } else {
        missing_records(rs.drop_last(), map) + missing_table(rs.last().1, map)
    }
}

/// The new identities of a map, in order.
pub open spec fn targets(map: Seq<(Entity, Entity)>) -> Seq<Entity> {
    map.map_values(|p: (Entity, Entity)| p.1)
}

fn fix_ids(es: &Vec<Entity>, map: &Vec<(Entity, Entity)>, dangling: &mut Vec<Entity>) -> (r: Vec<Entity>)
    ensures
        r@ == es@.map_values(|e: Entity| remap(e, map@)),
        final(dangling)@ == old(dangling)@ + missing_ids(es@, map@),
{
    let ghost start = dangling@;
    let mut r: Vec<Entity> = Vec::new();
    let mut i: usize = 0;
    while i < es.len()
        invariant
            i <= es.len(),
            r@ == es@.take(i as int).map_values(|e: Entity| remap(e, map@)),
            dangling@ == start + missing_ids(es@.take(i as int), map@),
        decreases es.len() - i,
    {
        assert(es@.take(i + 1).drop_last() == es@.take(i as int));
        match resolve(map, es[i]) {
            Some(n) => r.push(n),
            None => {
                r.push(Entity::placeholder());
                dangling.push(es[i]);
            },
        }
        i = i + 1;
        assert(r@ =~= es@.take(i as int).map_values(|e: Entity| remap(e, map@)));
        assert(dangling@ =~= start + missing_ids(es@.take(i as int), map@));
    }
    assert(es@.take(es.len() as int) == es@);
    r
}

fn fix_value(v: &Value, map: &Vec<(Entity, Entity)>, dangling: &mut Vec<Entity>) -> (r: Value)
    ensures
        r@ == remap_datum(v@, map@),
        final(dangling)@ == old(dangling)@ + missing_datum(v@, map@),
{
    match v {
        Value::Ref(e) => {
            let one = vec![*e];
            let fixed = fix_ids(&one, map, dangling);
            assert(one@ =~= seq![*e]);
            Value::Ref(fixed[0])
        },
        Value::Refs(es) => Value::Refs(fix_ids(es, map, dangling)),
        _ => {
            assert(dangling@ =~= dangling@ + missing_datum(v@, map@));
            v.copy()
        },
    }
}

/// A table with every reference carried into the new identities; the
/// unresolved ones are added to `dangling`.
pub fn fix_table(t: &Attachments, map: &Vec<(Entity, Entity)>, dangling: &mut Vec<Entity>) -> (r: Attachments)
    ensures
        model(r@) == remap_table(model(t@), map@),
        final(dangling)@ == old(dangling)@ + missing_table(model(t@), map@),
{
    let ghost start = dangling@;
    let mut r: Attachments = Vec::new();
    let mut i: usize = 0;
    while i < t.len()
        invariant
            i <= t.len(),
            model(r@) == remap_table(model(t@).take(i as int), map@),
            dangling@ == start + missing_table(model(t@).take(i as int), map@),
        decreases t.len() - i,
    {
        assert(model(t@).take(i + 1).drop_last() == model(t@).take(i as int));
        let ghost before = r@;
        let ghost d0 = dangling@;
        let v = fix_value(&t[i].1, map, dangling);
        r.push((t[i].0, v));
        assert(model(r@) =~= model(before).push((t@[i as int].0, v@)));
        assert(model(t@).take(i + 1) =~= model(t@).take(i as int).push(model(t@)[i as int]));
        i = i + 1;
        assert(model(r@) =~= remap_table(model(t@).take(i as int), map@));
        assert(dangling@ =~= start + missing_table(model(t@).take(i as int), map@));
    }
    assert(model(t@).take(t.len() as int) == model(t@));
    r
}

/// What to load: which entities to clear first, and the surrogates to turn
/// back into real attachments.
pub struct LoadWorld<M> {
    /// An entity that carries any of these types is removed before loading.
    pub unload: Vec<u64>,
    pub mapper: SceneMapper<M>,
}

impl<M: MapComponent> LoadWorld<M> {
    /// Clears every entity marked [`SAVE`] or [`UNLOAD`], maps nothing.
    pub fn new() -> (r: LoadWorld<M>)
        ensures
            r.unload@ == seq![SAVE, UNLOAD],
            r.mapper.rules().len() == 0,
    {
        let unload = vec![SAVE, UNLOAD];
        LoadWorld { unload, mapper: SceneMapper::new() }
    }

    /// Turns each loaded attachment of type `input` into one of type `output`.
    pub fn map_component(self, input: u64, output: u64, transform: M) -> (r: LoadWorld<M>)
        ensures
            r.mapper.rules() == crate::mapper::add_rule(
                self.mapper.rules(),
                crate::mapper::MapRule { input, output, transform },
            ),
            r.unload == self.unload,
    {
        LoadWorld { mapper: self.mapper.map(input, output, transform), unload: self.unload }
    }
}

/// The result of a load.
pub struct Loaded {
    /// Each saved identity with the live identity it was given, in snapshot
    /// order.
    pub entity_map: Vec<(Entity, Entity)>,
    /// The saved identities that references pointed at but that were not
    /// part of the snapshot; those references now point at the placeholder.
    pub dangling: Vec<Entity>,
}

impl Loaded {
    /// The new identities, in snapshot order.
    pub fn entities(&self) -> (r: Vec<Entity>)
        ensures
            r@ == targets(self.entity_map@),
    {
        let mut r: Vec<Entity> = Vec::new();
        let mut i: usize = 0;
        while i < self.entity_map.len()
            invariant
                i <= self.entity_map.len(),
                r@ == targets(self.entity_map@).take(i as int),
            decreases self.entity_map.len() - i,
        {
            r.push(self.entity_map[i].1);
            i = i + 1;
            assert(r@ =~= targets(self.entity_map@).take(i as int));
        }
        assert(r@ =~= targets(self.entity_map@));
        r
    }
}

/// Why a load failed.
#[derive(Clone, Debug, PartialEq, Eq)]
pub enum LoadError {
    /// The source could not be read.
    Io(String),
    /// The bytes hold no snapshot.
    Parse,
    /// The store ran out of identities while instantiating the snapshot.
    Scene,
}

/// How a store `after` results from loading snapshot `s` into store
/// `before`: the marked entities are gone, every record of `s` became a
/// fresh entity (in order) whose attachments are the record's with every
/// reference carried over and the surrogates turned back, and every other
/// entity is as it was.
pub open spec fn loaded_into<M: MapComponent>(
    before: Seq<(Entity, Seq<(u64, Datum)>)>,
    s: SnapshotModel,
    unload: Seq<u64>,
    rs: Seq<crate::mapper::MapRule<M>>,
    after: Seq<(Entity, Seq<(u64, Datum)>)>,
    map: Seq<(Entity, Entity)>,
) -> bool {
    let kept = unmarked(before, unload);
    &&& map.len() == s.entities.len()
    &&& forall|i: int| 0 <= i < map.len() ==> #[trigger] map[i].0 == s.entities[i].0
    &&& keys(after) == keys(kept) + targets(map)
    &&& forall|i: int| 0 <= i < map.len() ==> lookup(kept, #[trigger] map[i].1) is None
    &&& forall|i: int|
        0 <= i < map.len() ==> lookup(after, #[trigger] map[i].1) == Some(
            replace_all(remap_table(s.entities[i].1, map), rs),
        )
    &&& forall|x: Entity| !targets(map).contains(x) ==> #[trigger] lookup(after, x) == lookup(kept, x)
}

/// Every entity that the unload step removed is still gone afterwards.
pub open spec fn unloaded_stay_dead(
    before: Seq<(Entity, Seq<(u64, Datum)>)>,
    unload: Seq<u64>,
    after: Seq<(Entity, Seq<(u64, Datum)>)>,
) -> bool {
    forall|x: Entity|
        lookup(before, x) is Some && lookup(unmarked(before, unload), x) is None ==> #[trigger] lookup(
            after,
            x,
        ) is None
}

/// Loads a snapshot from bytes into a store.  Nothing changes when the
/// bytes hold no snapshot; once they do, the marked entities are removed and
/// the snapshot's global values are written before its records are
/// instantiated, and that is not undone if the store then runs out of
/// identities.
pub fn load_world<M: MapComponent>(world: &mut World, bytes: &Vec<u8>, req: &LoadWorld<M>) -> (r: Result<Loaded, LoadError>)
    requires
        old(world).wf(),
    ensures
        final(world).wf(),
        decode(bytes@) is Some ==> {
            &&& final(world).globals() == put_all(old(world).globals(), decode(bytes@).unwrap().resources)
            &&& forall|k: u64|
                #![trigger lookup(final(world).globals(), k)]
                lookup(final(world).globals(), k) == match lookup(decode(bytes@).unwrap().resources, k) {
                    Some(v) => Some(v),
                    None => lookup(old(world).globals(), k),
                }
            &&& unloaded_stay_dead(old(world)@, req.unload@, final(world)@)
        },
        match r {
            Ok(loaded) => {
                &&& decode(bytes@) is Some
                &&& old(world).next() + decode(bytes@).unwrap().entities.len() <= u32::MAX
                &&& forall|i: int|
                    0 <= i < loaded.entity_map@.len() ==> lookup(old(world)@, #[trigger] loaded.entity_map@[i].1)
                        is None
                &&& lookup(final(world)@, Entity::spec_placeholder()) is None
                &&& loaded_into(
                    old(world)@,
                    decode(bytes@).unwrap(),
                    req.unload@,
                    req.mapper.rules(),
                    final(world)@,
                    loaded.entity_map@,
                )
                &&& loaded.dangling@ == missing_records(decode(bytes@).unwrap().entities, loaded.entity_map@)
            },
            Err(LoadError::Parse) => decode(bytes@) is None && *final(world) == *old(world),
            Err(LoadError::Scene) => decode(bytes@) is Some && old(world).next()
                + decode(bytes@).unwrap().entities.len() > u32::MAX,
            Err(LoadError::Io(_)) => false,
        },
{
    let snap = match decode_snapshot(bytes) {
        Some(s) => s,
        None => {
            return Err(LoadError::Parse);
        },
    };
    let ghost s = snap@;
    let ghost n0 = world.next();
    proof {
        world.lemma_live_below_next();
    }
    world.despawn_marked(&req.unload);
    world.insert_resources(&snap.resources);
    let ghost kept = world@;
    let ghost g1 = world.globals();
    proof {
        assert forall|k: u64| #[trigger] lookup(g1, k) == match lookup(s.resources, k) {
            Some(v) => Some(v),
            None => lookup(old(world).globals(), k),
        } by {
            crate::world::lemma_put_all_lookup(old(world).globals(), s.resources, k);
        }
    }
    let mut map: Vec<(Entity, Entity)> = Vec::new();
    let mut i: usize = 0;
    while i < snap.entities.len()
        invariant
            i <= snap.entities.len(),
            s == snap@,
            decode(bytes@) == Some(s),
            n0 == old(world).next(),
            world.wf(),
            world.globals() == g1,
            g1 == put_all(old(world).globals(), s.resources),
            forall|k: u64| #[trigger] lookup(g1, k) == match lookup(s.resources, k) {
                Some(v) => Some(v),
                None => lookup(old(world).globals(), k),
            },
            world.next() == n0 + i,
            kept == unmarked(old(world)@, req.unload@),
            forall|x: Entity| #[trigger] lookup(old(world)@, x) is Some ==> x.index < n0,
            forall|a: int| 0 <= a < i ==> (#[trigger] map@[a]).1.index >= n0,
            map.len() == i,
            forall|a: int| 0 <= a < i ==> #[trigger] map@[a].0 == s.entities[a].0,
            targets(map@).no_duplicates(),
            keys(world@) == keys(kept) + targets(map@),
            forall|a: int| 0 <= a < i ==> lookup(kept, #[trigger] map@[a].1) is None,
            forall|a: int| 0 <= a < i ==> lookup(world@, #[trigger] map@[a].1) == Some(s.entities[a].1),
            forall|x: Entity| !targets(map@).contains(x) ==> #[trigger] lookup(world@, x) == lookup(kept, x),
        decreases snap.entities.len() - i,
    {
        let ghost w = world@;
        let ghost m = map@;
        let raw = copy_table(&snap.entities[i].1);
        match world.spawn_with(raw) {
            Some(e) => {
                proof {
                    assert(!targets(m).contains(e)) by {
                        if targets(m).contains(e) {
                            let a = choose|a: int| 0 <= a < m.len() && targets(m)[a] == e;
                            assert(lookup(w, m[a].1) is Some);
                        }
                    }
                    assert(lookup(kept, e) is None);
                }
                map.push((snap.entities[i].0, e));
                proof {
                    assert forall|a: int| 0 <= a < i + 1 implies (#[trigger] map@[a]).1.index >= n0 by {
                        if a < i {
                            assert(map@[a] == m[a]);
                        }
                    }
                    assert(targets(map@) =~= targets(m).push(e));
                    assert(world@.drop_last() == w);
                    assert(keys(world@) =~= keys(w).push(e));
                    assert forall|x: Entity| !targets(map@).contains(x) implies #[trigger] lookup(world@, x)
                        == lookup(kept, x) by {
                        crate::table::lemma_push_contains(targets(m), e, x);
                        assert(lookup(world@, x) == lookup(w, x));
                        assert(!targets(m).contains(x));
                    }
                    assert forall|a: int| 0 <= a < i + 1 implies lookup(world@, #[trigger] map@[a].1) == Some(
                        s.entities[a].1,
                    ) by {
                        if a < i {
                            assert(map@[a] == m[a]);
                            assert(m[a].1 != e) by {
                                assert(targets(m)[a] == m[a].1);
                            }
                        }
                    }
                    assert forall|a: int| 0 <= a < i + 1 implies lookup(kept, #[trigger] map@[a].1) is None by {
                        if a < i {
                            assert(map@[a] == m[a]);
                        }
                    }
                }
            },
            None => {
                proof {
                    assert forall|x: Entity|
                        lookup(old(world)@, x) is Some && lookup(unmarked(old(world)@, req.unload@), x)
                            is None implies #[trigger] lookup(world@, x) is None by {
                        if targets(map@).contains(x) {
                            let a = choose|a: int| 0 <= a < map@.len() && targets(map@)[a] == x;
                            assert(map@[a].1 == x);
                        }
                    }
                }
                return Err(LoadError::Scene);
            },
        }
        i = i + 1;
    }
    let ghost inst = world@;
    let ghost fresh = targets(map@);
    let mut dangling: Vec<Entity> = Vec::new();
    let mut j: usize = 0;
    while j < snap.entities.len()
        invariant
            j <= snap.entities.len(),
            s == snap@,
            decode(bytes@) == Some(s),
            n0 == old(world).next(),
            n0 + s.entities.len() <= u32::MAX,
            world.wf(),
            world.globals() == g1,
            g1 == put_all(old(world).globals(), s.resources),
            forall|k: u64| #[trigger] lookup(g1, k) == match lookup(s.resources, k) {
                Some(v) => Some(v),
                None => lookup(old(world).globals(), k),
            },
            kept == unmarked(old(world)@, req.unload@),
            forall|x: Entity| #[trigger] lookup(old(world)@, x) is Some ==> x.index < n0,
            forall|a: int| 0 <= a < snap.entities.len() ==> (#[trigger] map@[a]).1.index >= n0,
            forall|x: Entity| !fresh.contains(x) ==> #[trigger] lookup(inst, x) == lookup(kept, x),
            map.len() == snap.entities.len(),
            fresh == targets(map@),
            fresh.no_duplicates(),
            keys(world@) == keys(inst),
            forall|a: int| 0 <= a < snap.entities.len() ==> lookup(inst, #[trigger] map@[a].1) == Some(s.entities[a].1),
            forall|a: int| 0 <= a < j ==> lookup(world@, #[trigger] map@[a].1) == Some(remap_table(s.entities[a].1, map@)),
            forall|a: int| j <= a < snap.entities.len() ==> lookup(world@, #[trigger] map@[a].1) == lookup(inst, map@[a].1),
            forall|x: Entity| !fresh.contains(x) ==> #[trigger] lookup(world@, x) == lookup(inst, x),
            dangling@ == missing_records(s.entities.take(j as int), map@),
        decreases snap.entities.len() - j,
    {
        assert(s.entities.take(j + 1).drop_last() == s.entities.take(j as int));
        let ghost w = world@;
        let fixed = fix_table(&snap.entities[j].1, &map, &mut dangling);
        let e = map[j].1;
        assert(fresh[j as int] == e);
        world.set_attachments(e, fixed);
        proof {
            assert forall|a: int| 0 <= a < j + 1 implies lookup(world@, #[trigger] map@[a].1) == Some(
                remap_table(s.entities[a].1, map@),
            ) by {
                if a < j {
                    assert(fresh[a] == map@[a].1);
                }
            }
            assert forall|a: int| j + 1 <= a < snap.entities.len() implies lookup(world@, #[trigger] map@[a].1)
                == lookup(inst, map@[a].1) by {
                assert(fresh[a] == map@[a].1);
            }
            assert forall|x: Entity| !fresh.contains(x) implies #[trigger] lookup(world@, x) == lookup(inst, x) by {
                if x == e {
                    assert(fresh.contains(e));
                }
            }
        }
        j = j + 1;
    }
    assert(s.entities.take(snap.entities.len() as int) == s.entities);
    let ghost fixed_world = world@;
    let fresh_ids = loaded_targets(&map);
    req.mapper.pass(MapPass::Replace, world, &fresh_ids);
    proof {
        assert forall|a: int| 0 <= a < map.len() implies lookup(world@, #[trigger] map@[a].1) == Some(
            replace_all(remap_table(s.entities[a].1, map@), req.mapper.rules()),
        ) by {
            assert(fresh[a] == map@[a].1);
            assert(fresh.contains(map@[a].1));
        }
        assert(keys(world@) == keys(kept) + targets(map@));
        world.lemma_placeholder_dead();
        assert forall|a: int| 0 <= a < map@.len() implies lookup(old(world)@, #[trigger] map@[a].1) is None by {
            assert(map@[a].1.index >= n0);
        }
        assert forall|x: Entity|
            lookup(old(world)@, x) is Some && lookup(unmarked(old(world)@, req.unload@), x)
                is None implies #[trigger] lookup(world@, x) is None by {
            if fresh.contains(x) {
                let a = choose|a: int| 0 <= a < fresh.len() && fresh[a] == x;
                assert(map@[a].1 == x);
            }
        }
    }
    Ok(Loaded { entity_map: map, dangling })
}

/// Loading the bytes that a save wrote rebuilds the saved entities: the
/// i-th saved entity becomes the i-th new one, it carries the attachments
/// that were saved for it with every reference carried into the new
/// identities (and the load's surrogates turned back), and a reference to a
/// saved entity now points at that entity's new identity.
pub proof fn lemma_load_after_save<M: MapComponent, N: MapComponent>(
    w: Seq<(Entity, Seq<(u64, Datum)>)>,
    g: Seq<(u64, Datum)>,
    req: crate::save::SaveWorld<M>,
    saved: &crate::save::Saved,
    before: Seq<(Entity, Seq<(u64, Datum)>)>,
    load: LoadWorld<N>,
    after: Seq<(Entity, Seq<(u64, Datum)>)>,
    map: Seq<(Entity, Entity)>,
)
    requires
        keys(w).no_duplicates(),
        saved.scene@ == crate::save::saved_snapshot(w, g, req),
        saved.data@ == crate::codec::encode(saved.scene@),
        loaded_into(before, decode(saved.data@).unwrap(), load.unload@, load.mapper.rules(), after, map),
    ensures
        decode(saved.data@) == Some(saved.scene@),
        map.len() == crate::save::chosen(w, req).len(),
        forall|i: int|
            0 <= i < map.len() ==> {
                let e = #[trigger] crate::save::chosen(w, req)[i];
                &&& map[i].0 == e
                &&& remap(e, map) == map[i].1
                &&& lookup(after, map[i].1) == Some(
                    replace_all(
                        remap_table(
                            crate::save::filtered(
                                crate::mapper::apply_all(lookup(w, e).unwrap(), req.mapper.rules()),
                                req.components,
                            ),
                            map,
                        ),
                        load.mapper.rules(),
                    ),
                )
            },
{
    let es = crate::save::chosen(w, req);
    crate::save::lemma_chosen_unique(w, req);
    assert(keys(saved.scene@.entities) =~= es);
    crate::codec::lemma_snapshot_sized(&saved.scene);
    crate::codec::lemma_round_trip(saved.scene@);
    assert forall|i: int| 0 <= i < map.len() implies remap(#[trigger] es[i], map) == map[i].1 by {
        assert(map[i].0 == saved.scene@.entities[i].0);
        assert forall|a: int| 0 <= a < map.len() && a != i implies map[a].0 != map[i].0 by {
            assert(map[a].0 == saved.scene@.entities[a].0);
        }
        crate::table::lemma_lookup_unique(map, i);
    }
    assert forall|i: int| 0 <= i < map.len() implies #[trigger] map[i].0 == es[i] by {
        assert(map[i].0 == saved.scene@.entities[i].0);
    }
}

fn loaded_targets(map: &Vec<(Entity, Entity)>) -> (r: Vec<Entity>)
    ensures
        r@ == targets(map@),
{
    let mut r: Vec<Entity> = Vec::new();
    let mut i: usize = 0;
    while i < map.len()
        invariant
            i <= map.len(),
            r@ == targets(map@).take(i as int),
        decreases map.len() - i,
    {
        r.push(map[i].1);
        i = i + 1;
        assert(r@ =~= targets(map@).take(i as int));
    }
    assert(r@ =~= targets(map@));
    r
}

} // verus!
