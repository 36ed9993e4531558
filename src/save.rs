use vstd::prelude::*;

use crate::codec::{encode, encode_snapshot};
use crate::entity::Entity;
use crate::filter::{lemma_selection_members, selection, EntityFilter, TypeFilter};
use crate::mapper::{add_rule, apply_all, MapComponent, MapPass, MapRule, SceneMapper};
use crate::snapshot::{records, Snapshot, SnapshotModel};
use crate::table::{keys, lemma_lookup_none, lemma_push_contains, lookup};
use crate::value::{copy_table, model, Attachments, Datum};
use crate::world::{attachment, World};

verus! {

/// The type key of the marker attachment that asks for an entity to be saved.
pub const SAVE: u64 = 0xFFFF_FFFF_FFFF_FFFE;

/// The entities of `live` that carry `marker` (all of them when there is none).
pub open spec fn marked(w: Seq<(Entity, Seq<(u64, Datum)>)>, marker: Option<u64>, live: Seq<Entity>) -> Seq<
    Entity,
>
    decreases live.len(),
{
    if live.len() == 0 {
        live
    } else if marker is None || attachment(w, live.last(), marker.unwrap()) is Some {
        marked(w, marker, live.drop_last()).push(live.last())
    } else {
        marked(w, marker, live.drop_last())
    }
}

pub proof fn lemma_marked_members(w: Seq<(Entity, Seq<(u64, Datum)>)>, marker: Option<u64>, live: Seq<Entity>)
    ensures
        forall|e: Entity|
            marked(w, marker, live).contains(e) <==> (live.contains(e) && (marker is None
                || attachment(w, e, marker.unwrap()) is Some)),
        live.no_duplicates() ==> marked(w, marker, live).no_duplicates(),
    decreases live.len(),
{
    if live.len() > 0 {
        let p = live.drop_last();
        lemma_marked_members(w, marker, p);
        assert(live == p.push(live.last()));
        if live.no_duplicates() {
            assert(p.no_duplicates());
            assert(!p.contains(live.last()));
        }
        assert forall|e: Entity|
            marked(w, marker, live).contains(e) <==> (live.contains(e) && (marker is None
                || attachment(w, e, marker.unwrap()) is Some)) by {
            lemma_push_contains(p, live.last(), e);
            lemma_push_contains(marked(w, marker, p), live.last(), e);
        }
    }
}

/// The attachments of `t` whose type the filter allows, in order.
pub open spec fn filtered(t: Seq<(u64, Datum)>, f: TypeFilter) -> Seq<(u64, Datum)>
    decreases t.len(),
{
    if t.len() == 0 {
        t
    } else if f.allows(t.last().0) {
        filtered(t.drop_last(), f).push(t.last())
    } else {
        filtered(t.drop_last(), f)
    }
}

/// A filtered table holds an attachment exactly when the filter allows its
/// type and the table holds it.
pub proof fn lemma_filtered_lookup(t: Seq<(u64, Datum)>, f: TypeFilter, k: u64)
    ensures
        lookup(filtered(t, f), k) == if f.allows(k) {
            lookup(t, k)
        } else {
            None
        },
    decreases t.len(),
{
    if t.len() > 0 {
        lemma_filtered_lookup(t.drop_last(), f, k);
        let u = filtered(t.drop_last(), f);
        assert(u.push(t.last()).drop_last() == u);
    }
}

/// Every attachment of a filtered table is of an allowed type.
pub proof fn lemma_filtered_allowed(t: Seq<(u64, Datum)>, f: TypeFilter)
    ensures
        forall|j: int| 0 <= j < filtered(t, f).len() ==> f.allows(#[trigger] filtered(t, f)[j].0),
    decreases t.len(),
{
    if t.len() > 0 {
        lemma_filtered_allowed(t.drop_last(), f);
        let u = filtered(t.drop_last(), f);
        if f.allows(t.last().0) {
            assert forall|j: int| 0 <= j < filtered(t, f).len() implies f.allows(
                #[trigger] filtered(t, f)[j].0,
            ) by {
                if j < u.len() {
                    assert(filtered(t, f)[j] == u[j]);
                }
            }
        }
    }
}

pub fn filter_table(t: &Attachments, f: &TypeFilter) -> (r: Attachments)
    ensures
        model(r@) == filtered(model(t@), *f),
{
    let mut r: Attachments = Vec::new();
    let mut i: usize = 0;
    while i < t.len()
        invariant
            i <= t.len(),
            model(r@) == filtered(model(t@).take(i as int), *f),
        decreases t.len() - i,
    {
        assert(model(t@).take(i + 1).drop_last() == model(t@).take(i as int));
        if f.is_allowed(t[i].0) {
            let ghost before = r@;
            r.push((t[i].0, t[i].1.copy()));
            assert(model(r@) =~= model(before).push((t@[i as int].0, t@[i as int].1@)));
        }
        i = i + 1;
    }
    assert(model(t@).take(t.len() as int) == model(t@));
    r
}

/// What to save: which entities, which attachment and global types, and the
/// surrogates to put in place of attachments that cannot be saved as they are.
pub struct SaveWorld<M> {
    /// An attachment type that every saved entity must carry, if any.
    pub marker: Option<u64>,
    pub entities: EntityFilter,
    pub resources: TypeFilter,
    pub components: TypeFilter,
    pub mapper: SceneMapper<M>,
}

impl<M: MapComponent> SaveWorld<M> {
    /// Saves every entity that carries the [`SAVE`] marker, with all its
    /// attachments and no global values.
    pub fn new() -> (r: SaveWorld<M>)
        ensures
            r.marker == Some(SAVE),
            forall|e: Entity| r.entities.selects(e),
            forall|k: u64| r.components.allows(k),
            forall|k: u64| !r.resources.allows(k),
            r.mapper.rules().len() == 0,
    {
        SaveWorld {
            marker: Some(SAVE),
            entities: EntityFilter::allow_all(),
            resources: TypeFilter::deny_all(),
            components: TypeFilter::allow_all(),
            mapper: SceneMapper::new(),
        }
    }

    /// Saves every entity, with all its attachments and no global values.
    pub fn all() -> (r: SaveWorld<M>)
        ensures
            r.marker is None,
            forall|e: Entity| r.entities.selects(e),
            forall|k: u64| r.components.allows(k),
            forall|k: u64| !r.resources.allows(k),
            r.mapper.rules().len() == 0,
    {
        SaveWorld {
            marker: None,
            entities: EntityFilter::allow_all(),
            resources: TypeFilter::deny_all(),
            components: TypeFilter::allow_all(),
            mapper: SceneMapper::new(),
        }
    }

    /// Saves the global value of type `k` as well.
    pub fn include_resource(self, k: u64) -> (r: SaveWorld<M>)
        ensures
            forall|j: u64| r.resources.allows(j) == (j == k || self.resources.allows(j)),
            r.marker == self.marker,
            r.entities == self.entities,
            r.components == self.components,
            r.mapper == self.mapper,
    {
        SaveWorld { resources: self.resources.allow(k), ..self }
    }

    /// Leaves attachments of type `k` out.
    pub fn exclude_component(self, k: u64) -> (r: SaveWorld<M>)
        ensures
            forall|j: u64| r.components.allows(j) == (j != k && self.components.allows(j)),
            r.marker == self.marker,
            r.entities == self.entities,
            r.resources == self.resources,
            r.mapper == self.mapper,
    {
        SaveWorld { components: self.components.deny(k), ..self }
    }

    /// Saves a surrogate of type `output` for each attachment of type `input`.
    pub fn map_component(self, input: u64, output: u64, transform: M) -> (r: SaveWorld<M>)
        ensures
            r.mapper.rules() == add_rule(self.mapper.rules(), MapRule { input, output, transform }),
            r.marker == self.marker,
            r.entities == self.entities,
            r.resources == self.resources,
            r.components == self.components,
    {
        SaveWorld { mapper: self.mapper.map(input, output, transform), ..self }
    }

    /// Only the given entities are saved, and only where they pass the
    /// other choices.
    pub fn with_entities(self, entities: EntityFilter) -> (r: SaveWorld<M>)
        ensures
            r.entities == entities,
            r.marker == self.marker,
            r.resources == self.resources,
            r.components == self.components,
            r.mapper == self.mapper,
    {
        SaveWorld { entities, ..self }
    }
}

/// The entities that a save picks from a store, in the store's order.
pub open spec fn chosen<M>(w: Seq<(Entity, Seq<(u64, Datum)>)>, req: SaveWorld<M>) -> Seq<Entity> {
    selection(req.entities, marked(w, req.marker, keys(w)))
}

/// The snapshot that a save of store `w` with globals `g` builds: each chosen
/// entity with its attachments after the surrogates were added, of the
/// allowed types; and the allowed global values.
pub open spec fn saved_snapshot<M: MapComponent>(
    w: Seq<(Entity, Seq<(u64, Datum)>)>,
    g: Seq<(u64, Datum)>,
    req: SaveWorld<M>,
) -> SnapshotModel {
    let es = chosen(w, req);
    SnapshotModel {
        entities: Seq::new(
            es.len(),
            |i: int| (es[i], filtered(apply_all(lookup(w, es[i]).unwrap(), req.mapper.rules()), req.components)),
        ),
        resources: filtered(g, req.resources),
    }
}

/// The result of a save.
pub struct Saved {
    /// What was saved.
    pub scene: Snapshot,
    /// Its bytes.
    pub data: Vec<u8>,
}

impl Saved {
    /// The saved identities, in save order.
    pub fn entities(&self) -> (r: Vec<Entity>)
        ensures
            r@ == self.scene@.entities.map_values(|p: (Entity, Seq<(u64, Datum)>)| p.0),
    {
        self.scene.entity_ids()
    }
}

/// A save never picks an entity twice.
pub proof fn lemma_chosen_unique<M>(w: Seq<(Entity, Seq<(u64, Datum)>)>, req: SaveWorld<M>)
    requires
        keys(w).no_duplicates(),
    ensures
        chosen(w, req).no_duplicates(),
{
    lemma_marked_members(w, req.marker, keys(w));
    lemma_selection_members(req.entities, marked(w, req.marker, keys(w)));
}

proof fn lemma_chosen<M>(world: &World, req: SaveWorld<M>)
    requires
        world.wf(),
    ensures
        chosen(world@, req).no_duplicates(),
        forall|e: Entity| chosen(world@, req).contains(e) ==> lookup(world@, e) is Some,
{
    world.lemma_live_unique();
    lemma_chosen_unique(world@, req);
    assert forall|e: Entity| chosen(world@, req).contains(e) implies lookup(world@, e) is Some by {
        lemma_chosen_live(world@, req, e);
    }
}

/// Saves part of a store: picks the entities, adds the surrogates, builds the
/// snapshot, encodes it, and gives every chosen entity back the attachments it
/// had before the save.
pub fn save_world<M: MapComponent>(world: &mut World, req: &SaveWorld<M>) -> (r: Saved)
    requires
        old(world).wf(),
    ensures
        final(world).wf(),
        r.scene@ == saved_snapshot(old(world)@, old(world).globals(), *req),
        r.data@ == encode(r.scene@),
        final(world).live() == old(world).live(),
        final(world).globals() == old(world).globals(),
        final(world).next() == old(world).next(),
        forall|e: Entity| #[trigger] lookup(final(world)@, e) == lookup(old(world)@, e),
{
    let ghost w0 = world@;
    let live = world.entities();
    let marked_es = marked_entities(world, req.marker, &live);
    let es = req.entities.select(&marked_es);
    proof {
        lemma_chosen(world, *req);
    }
    let mut originals: Vec<Attachments> = Vec::new();
    let mut i: usize = 0;
    while i < es.len()
        invariant
            i <= es.len(),
            world.wf(),
            w0 == world@,
            es@ == chosen(w0, *req),
            forall|e: Entity| es@.contains(e) ==> lookup(w0, e) is Some,
            originals.len() == i,
            forall|a: int| 0 <= a < i ==> lookup(w0, es@[a]) == Some(model(#[trigger] originals@[a]@)),
        decreases es.len() - i,
    {
        assert(es@.contains(es@[i as int]));
        match world.attachments(es[i]) {
            Some(t) => originals.push(t),
            None => {},
        }
        i = i + 1;
    }
    req.mapper.pass(MapPass::Apply, world, &es);
    let ghost w1 = world@;
    let mut entities: Vec<(Entity, Attachments)> = Vec::new();
    let mut i: usize = 0;
    while i < es.len()
        invariant
            i <= es.len(),
            world.wf(),
            w1 == world@,
            es@ == chosen(w0, *req),
            forall|e: Entity| es@.contains(e) ==> lookup(w0, e) is Some,
            crate::mapper::passed(MapPass::Apply, w0, w1, es@, req.mapper.rules()),
            records(entities@) == Seq::new(
                i as nat,
                |a: int| (es@[a], filtered(apply_all(lookup(w0, es@[a]).unwrap(), req.mapper.rules()), req.components)),
            ),
        decreases es.len() - i,
    {
        let e = es[i];
        assert(es@.contains(e));
        assert(lookup(w1, e) == Some(apply_all(lookup(w0, e).unwrap(), req.mapper.rules())));
        match world.attachments(e) {
            Some(t) => {
                let ghost before = entities@;
                let kept = filter_table(&t, &req.components);
                entities.push((e, kept));
                assert(model(t@) == apply_all(lookup(w0, e).unwrap(), req.mapper.rules()));
                assert(records(entities@) =~= records(before).push((e, model(kept@))));
                assert(records(entities@) =~= Seq::new(
                    (i + 1) as nat,
                    |a: int| (es@[a], filtered(apply_all(lookup(w0, es@[a]).unwrap(), req.mapper.rules()), req.components)),
                ));
            },
            None => {},
        }
        i = i + 1;
    }
    let resources = filter_table(&world.resources(), &req.resources);
    let scene = Snapshot { entities, resources };
    let data = encode_snapshot(&scene);
    // Put every chosen entity's attachments back as they were before the
    // surrogates were added.
    let mut i: usize = 0;
    while i < es.len()
        invariant
            i <= es.len(),
            world.wf(),
            world.live() == old(world).live(),
            world.globals() == old(world).globals(),
            world.next() == old(world).next(),
            w0 == old(world)@,
            es@.no_duplicates(),
            forall|e: Entity| es@.contains(e) ==> lookup(w0, e) is Some,
            crate::mapper::passed(MapPass::Apply, w0, w1, es@, req.mapper.rules()),
            originals.len() == es.len(),
            forall|a: int| 0 <= a < es.len() ==> lookup(w0, es@[a]) == Some(model(#[trigger] originals@[a]@)),
            forall|a: int| 0 <= a < i ==> #[trigger] lookup(world@, es@[a]) == lookup(w0, es@[a]),
            forall|x: Entity| !es@.take(i as int).contains(x) ==> #[trigger] lookup(world@, x) == lookup(w1, x),
        decreases es.len() - i,
    {
        let ghost mid = world@;
        let e = es[i];
        proof {
            assert(lookup(w0, e) == Some(model(originals@[i as int]@)));
        }
        let t = copy_table(&originals[i]);
        world.set_attachments(e, t);
        proof {
            assert(!es@.take(i as int).contains(e)) by {
                if es@.take(i as int).contains(e) {
                    let a = choose|a: int| 0 <= a < i && es@.take(i as int)[a] == e;
                    assert(es@[a] == es@[i as int]);
                }
            }
            assert(lookup(mid, e) == lookup(w1, e));
            assert(lookup(w1, e) is Some) by {
                assert(es@.contains(e));
            }
            assert forall|a: int| 0 <= a < i + 1 implies #[trigger] lookup(world@, es@[a]) == lookup(w0, es@[a]) by {
                if a < i {
                    assert(es@[a] != e);
                }
            }
            assert forall|x: Entity| !es@.take(i + 1).contains(x) implies #[trigger] lookup(world@, x) == lookup(w1, x) by {
                assert(es@.take(i + 1) == es@.take(i as int).push(e));
                lemma_push_contains(es@.take(i as int), e, x);
            }
        }
        i = i + 1;
    }
    proof {
        assert(es@.take(es.len() as int) == es@);
        assert forall|e: Entity| #[trigger] lookup(world@, e) == lookup(w0, e) by {
            if es@.contains(e) {
                let a = choose|a: int| 0 <= a < es.len() && es@[a] == e;
                assert(lookup(world@, es@[a]) == lookup(w0, es@[a]));
            }
        }
    }
    Saved { scene, data }
}

/// A snapshot holds no attachment of a type that the save's attachment filter
/// excludes, on any entity, and no global value of an excluded type.
pub proof fn lemma_excluded_types_absent<M: MapComponent>(
    w: Seq<(Entity, Seq<(u64, Datum)>)>,
    g: Seq<(u64, Datum)>,
    req: SaveWorld<M>,
    k: u64,
)
    ensures
        !req.components.allows(k) ==> forall|i: int, j: int|
            0 <= i < saved_snapshot(w, g, req).entities.len() && 0 <= j < saved_snapshot(
                w,
                g,
                req,
            ).entities[i].1.len() ==> #[trigger] saved_snapshot(w, g, req).entities[i].1[j].0 != k,
        !req.resources.allows(k) ==> forall|j: int|
            0 <= j < saved_snapshot(w, g, req).resources.len() ==> #[trigger] saved_snapshot(
                w,
                g,
                req,
            ).resources[j].0 != k,
{
    let s = saved_snapshot(w, g, req);
    let es = chosen(w, req);
    assert forall|i: int, j: int|
        0 <= i < s.entities.len() && 0 <= j < s.entities[i].1.len() && !req.components.allows(
            k,
        ) implies #[trigger] s.entities[i].1[j].0 != k by {
        lemma_filtered_allowed(apply_all(lookup(w, es[i]).unwrap(), req.mapper.rules()), req.components);
    }
    lemma_filtered_allowed(g, req.resources);
}

proof fn lemma_marked_same(
    w0: Seq<(Entity, Seq<(u64, Datum)>)>,
    w1: Seq<(Entity, Seq<(u64, Datum)>)>,
    marker: Option<u64>,
    live: Seq<Entity>,
)
    requires
        forall|e: Entity| #[trigger] lookup(w1, e) == lookup(w0, e),
    ensures
        marked(w1, marker, live) == marked(w0, marker, live),
    decreases live.len(),
{
    if live.len() > 0 {
        lemma_marked_same(w0, w1, marker, live.drop_last());
        assert(lookup(w1, live.last()) == lookup(w0, live.last()));
    }
}

/// Saving twice with the same request, with nothing else changing the store
/// in between, writes the same bytes.
pub proof fn lemma_resave_same_bytes<M: MapComponent>(
    w0: Seq<(Entity, Seq<(u64, Datum)>)>,
    g: Seq<(u64, Datum)>,
    req: SaveWorld<M>,
    first: &Saved,
    w1: Seq<(Entity, Seq<(u64, Datum)>)>,
    second: &Saved,
)
    requires
        first.scene@ == saved_snapshot(w0, g, req),
        first.data@ == encode(first.scene@),
        keys(w1) == keys(w0),
        forall|e: Entity| #[trigger] lookup(w1, e) == lookup(w0, e),
        second.scene@ == saved_snapshot(w1, g, req),
        second.data@ == encode(second.scene@),
    ensures
        second.data@ == first.data@,
        second.scene@ == first.scene@,
{
    lemma_marked_same(w0, w1, req.marker, keys(w0));
    assert(chosen(w1, req) == chosen(w0, req));
    assert(saved_snapshot(w1, g, req).entities =~= saved_snapshot(w0, g, req).entities);
}

proof fn lemma_chosen_live<M>(w: Seq<(Entity, Seq<(u64, Datum)>)>, req: SaveWorld<M>, e: Entity)
    requires
        chosen(w, req).contains(e),
    ensures
        lookup(w, e) is Some,
{
    let live = keys(w);
    lemma_marked_members(w, req.marker, live);
    lemma_selection_members(req.entities, marked(w, req.marker, live));
    assert(marked(w, req.marker, live).contains(e));
    assert(live.contains(e));
    let i = choose|i: int| 0 <= i < live.len() && live[i] == e;
    lemma_lookup_none(w, e);
    assert(w[i].0 == e);
}

/// The entities of `live` that carry `marker` (all of them when there is none).
fn marked_entities(world: &World, marker: Option<u64>, live: &Vec<Entity>) -> (r: Vec<Entity>)
    requires
        world.wf(),
    ensures
        r@ == marked(world@, marker, live@),
{
    let mut r: Vec<Entity> = Vec::new();
    let mut i: usize = 0;
    while i < live.len()
        invariant
            i <= live.len(),
            world.wf(),
            r@ == marked(world@, marker, live@.take(i as int)),
        decreases live.len() - i,
    {
        assert(live@.take(i + 1).drop_last() == live@.take(i as int));
        let keep = match marker {
            Some(m) => world.has(live[i], m),
            None => true,
        };
        if keep {
            r.push(live[i]);
        }
        i = i + 1;
    }
    assert(live@.take(live.len() as int) == live@);
    r
}

} // verus!
