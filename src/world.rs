use vstd::prelude::*;

use crate::entity::Entity;
use crate::table::{keys, lemma_lookup_none, lemma_update_lookup, lemma_with_lookup, lookup, with, without};
use crate::value::{copy_table, get_value, has_key, model, remove_key, Attachments, Datum, Value};

verus! {

/// A live entity store: entities in the order of their creation, each with a
/// table of attachments, and a table of global values.
pub struct World {
    ids: Vec<Entity>,
    tables: Vec<Attachments>,
    resources: Attachments,
    next_index: u32,
}

impl View for World {
    type V = Seq<(Entity, Seq<(u64, Datum)>)>;

    closed spec fn view(&self) -> Seq<(Entity, Seq<(u64, Datum)>)> {
        Seq::new(self.ids@.len(), |i: int| (self.ids@[i], model(self.tables@[i]@)))
    }
}

/// What a store holds for an entity: its attachment table, if it is live.
pub open spec fn table_of(w: Seq<(Entity, Seq<(u64, Datum)>)>, e: Entity) -> Option<
    Seq<(u64, Datum)>,
> {
    lookup(w, e)
}

/// The attachment of type `k` on entity `e`, if both exist.
pub open spec fn attachment(w: Seq<(Entity, Seq<(u64, Datum)>)>, e: Entity, k: u64) -> Option<Datum> {
    match lookup(w, e) {
        Some(t) => lookup(t, k),
        None => None,
    }
}

/// Whether a table carries an attachment of any of the types `ms`.
pub open spec fn carries_any(t: Seq<(u64, Datum)>, ms: Seq<u64>) -> bool {
    exists|i: int| 0 <= i < ms.len() && lookup(t, #[trigger] ms[i]) is Some
}

/// The store without the entities that carry any of the types `ms`.
pub open spec fn unmarked(w: Seq<(Entity, Seq<(u64, Datum)>)>, ms: Seq<u64>) -> Seq<
    (Entity, Seq<(u64, Datum)>),
>
    decreases w.len(),
{
    if w.len() == 0 {
        w
    } else if carries_any(w.last().1, ms) {
        unmarked(w.drop_last(), ms)
    } else {
        unmarked(w.drop_last(), ms).push(w.last())
    }
}

/// The table `g` with every entry of `t` written into it, in order.
pub open spec fn put_all(g: Seq<(u64, Datum)>, t: Seq<(u64, Datum)>) -> Seq<(u64, Datum)>
    decreases t.len(),
{
    if t.len() == 0 {
        g
    } else {
        with(put_all(g, t.drop_last()), t.last().0, t.last().1)
    }
}

/// After writing `t` into `g`, a key holds its value in `t` where `t` has
/// one, and its value in `g` otherwise.
pub proof fn lemma_put_all_lookup(g: Seq<(u64, Datum)>, t: Seq<(u64, Datum)>, k: u64)
    ensures
        lookup(put_all(g, t), k) == match lookup(t, k) {
            Some(v) => Some(v),
            None => lookup(g, k),
        },
    decreases t.len(),
{
    if t.len() > 0 {
        lemma_put_all_lookup(g, t.drop_last(), k);
        lemma_with_lookup(put_all(g, t.drop_last()), t.last().0, t.last().1, k);
    }
}

impl World {
    pub closed spec fn wf(&self) -> bool {
        &&& self.ids.len() == self.tables.len()
        &&& forall|i: int| 0 <= i < self.ids.len() ==> #[trigger] self.ids@[i].index < self.next_index
        &&& self.ids@.no_duplicates()
    }

    /// The global values.
    pub closed spec fn globals(&self) -> Seq<(u64, Datum)> {
        model(self.resources@)
    }

    /// The live entities, in order of creation.
    pub open spec fn live(&self) -> Seq<Entity> {
        keys(self@)
    }

    /// No identity is live twice.
    pub proof fn lemma_live_unique(&self)
        requires
            self.wf(),
        ensures
            self.live().no_duplicates(),
            self.live().len() == self@.len(),
            forall|i: int| 0 <= i < self@.len() ==> #[trigger] self@[i].0 == self.live()[i],
    {
        assert(self.live() =~= self.ids@);
    }

    /// The index that the next spawned entity gets.
    pub closed spec fn next(&self) -> u32 {
        self.next_index
    }

    /// Every live entity has an index below the next one to be handed out.
    pub proof fn lemma_live_below_next(&self)
        requires
            self.wf(),
        ensures
            forall|e: Entity| #[trigger] lookup(self@, e) is Some ==> e.index < self.next(),
    {
        assert forall|e: Entity| #[trigger] lookup(self@, e) is Some implies e.index < self.next() by {
            lemma_lookup_none(self@, e);
            let i = choose|i: int| 0 <= i < self@.len() && self@[i].0 == e;
            assert(self.ids@[i].index < self.next_index);
        }
    }

    /// No store holds the placeholder.
    pub proof fn lemma_placeholder_dead(&self)
        requires
            self.wf(),
        ensures
            lookup(self@, Entity::spec_placeholder()) is None,
    {
        self.lemma_live_below_next();
    }

    proof fn lemma_fresh(&self)
        requires
            self.wf(),
        ensures
            lookup(self@, Entity { index: self.next_index, generation: 0 }) is None,
    {
        let e = Entity { index: self.next_index, generation: 0 };
        assert forall|i: int| 0 <= i < self@.len() implies self@[i].0 != e by {
            assert(self.ids@[i].index < self.next_index);
        }
        lemma_lookup_none(self@, e);
    }

    pub fn new() -> (r: World)
        ensures
            r.wf(),
            r@.len() == 0,
            r.globals().len() == 0,
            r.next() == 0,
    {
        World { ids: Vec::new(), tables: Vec::new(), resources: Vec::new(), next_index: 0 }
    }

    /// The live entities, in order of creation.
    pub fn entities(&self) -> (r: Vec<Entity>)
        requires
            self.wf(),
        ensures
            r@ == self.live(),
    {
        let mut r: Vec<Entity> = Vec::new();
        let mut i: usize = 0;
        while i < self.ids.len()
            invariant
                i <= self.ids.len(),
                self.wf(),
                r@ == self.live().take(i as int),
            decreases self.ids.len() - i,
        {
            r.push(self.ids[i]);
            i = i + 1;
            assert(r@ =~= self.live().take(i as int));
        }
        assert(r@ =~= self.live());
        r
    }

    /// Creates an entity that carries the given attachments.  `None` when
    /// the store has run out of identities.
    pub fn spawn_with(&mut self, attachments: Attachments) -> (r: Option<Entity>)
        requires
            old(self).wf(),
        ensures
            final(self).wf(),
            final(self).globals() == old(self).globals(),
            r is None == (old(self).next() == u32::MAX),
            match r {
                Some(e) => {
                    &&& lookup(old(self)@, e) is None
                    &&& e != Entity::spec_placeholder()
                    &&& final(self)@ == old(self)@.push((e, model(attachments@)))
                    &&& final(self).next() == old(self).next() + 1
                    &&& e.index == old(self).next()
                },
                None => *final(self) == *old(self),
            },
    {
        if self.next_index == u32::MAX {
            return None;
        }
        let e = Entity { index: self.next_index, generation: 0 };
        proof {
            self.lemma_fresh();
        }
        let ghost before = self@;
        let ghost old_ids = self.ids@;
        self.ids.push(e);
        self.tables.push(attachments);
        proof {
            assert forall|a: int| 0 <= a < old_ids.len() implies old_ids[a] != e by {
                assert(old_ids[a].index < self.next_index);
            }
            assert forall|a: int, b: int| 0 <= a < b < self.ids@.len() implies self.ids@[a] != self.ids@[b] by {
                if b < old_ids.len() {
                    assert(old_ids[a] != old_ids[b]);
                }
            }
        }
        self.next_index = self.next_index + 1;
        assert(self@ =~= before.push((e, model(attachments@))));
        Some(e)
    }

    /// Creates an entity with no attachments.
    pub fn spawn(&mut self) -> (r: Option<Entity>)
        requires
            old(self).wf(),
        ensures
            final(self).wf(),
            final(self).globals() == old(self).globals(),
            r is None == (old(self).next() == u32::MAX),
            match r {
                Some(e) => {
                    &&& lookup(old(self)@, e) is None
                    &&& e != Entity::spec_placeholder()
                    &&& final(self)@ == old(self)@.push((e, Seq::<(u64, Datum)>::empty()))
                    &&& final(self).next() == old(self).next() + 1
                },
                None => *final(self) == *old(self),
            },
    {
        let t: Attachments = Vec::new();
        assert(model(t@) =~= Seq::<(u64, Datum)>::empty());
        self.spawn_with(t)
    }

    /// The position of the entry that `lookup` reads for `e`.
    fn position(&self, e: Entity) -> (r: Option<usize>)
        requires
            self.wf(),
        ensures
            match r {
                Some(i) => {
                    &&& i < self@.len()
                    &&& self@[i as int].0 == e
                    &&& forall|a: int| i < a < self@.len() ==> self@[a].0 != e
                    &&& lookup(self@, e) == Some(self@[i as int].1)
                },
                None => lookup(self@, e) is None,
            },
    {
        let ghost v = self@;
        assert(v.take(v.len() as int) == v);
        let mut i: usize = self.ids.len();
        while i > 0
            invariant
                i <= self.ids.len(),
                self.wf(),
                v == self@,
                lookup(v, e) == lookup(v.take(i as int), e),
                forall|a: int| i <= a < v.len() ==> v[a].0 != e,
            decreases i,
        {
            assert(v.take(i as int).drop_last() =~= v.take(i - 1));
            if self.ids[i - 1] == e {
                return Some(i - 1);
            }
            i = i - 1;
        }
        None
    }

    /// Whether `e` is live.
    pub fn contains(&self, e: Entity) -> (r: bool)
        requires
            self.wf(),
        ensures
            r == lookup(self@, e) is Some,
    {
        self.position(e).is_some()
    }

    /// The attachment table of `e`, copied out.
    pub fn attachments(&self, e: Entity) -> (r: Option<Attachments>)
        requires
            self.wf(),
        ensures
            r is Some == lookup(self@, e) is Some,
            r is Some ==> lookup(self@, e) == Some(model(r.unwrap()@)),
    {
        match self.position(e) {
            Some(i) => Some(copy_table(&self.tables[i])),
            None => None,
        }
    }

    /// The attachment of type `k` on `e`, copied out.
    pub fn get(&self, e: Entity, k: u64) -> (r: Option<Value>)
        requires
            self.wf(),
        ensures
            r is Some == attachment(self@, e, k) is Some,
            r is Some ==> attachment(self@, e, k) == Some(r.unwrap()@),
    {
        match self.position(e) {
            Some(i) => get_value(&self.tables[i], k),
            None => None,
        }
    }

    /// Whether `e` is live and carries an attachment of type `k`.
    pub fn has(&self, e: Entity, k: u64) -> (r: bool)
        requires
            self.wf(),
        ensures
            r == attachment(self@, e, k) is Some,
    {
        match self.position(e) {
            Some(i) => has_key(&self.tables[i], k),
            None => false,
        }
    }

    /// Replaces the attachment table of `e`, if `e` is live; the order of the
    /// entities is kept.
    pub fn set_attachments(&mut self, e: Entity, t: Attachments) -> (r: bool)
        requires
            old(self).wf(),
        ensures
            final(self).wf(),
            final(self).globals() == old(self).globals(),
            final(self).live() == old(self).live(),
            final(self).next() == old(self).next(),
            r == lookup(old(self)@, e) is Some,
            forall|x: Entity|
                #![trigger lookup(final(self)@, x)]
                lookup(final(self)@, x) == if x == e && r {
                    Some(model(t@))
                } else {
                    lookup(old(self)@, x)
                },
    {
        match self.position(e) {
            Some(i) => {
                let ghost before = self@;
                self.tables.set(i, t);
                assert(self@ =~= before.update(i as int, (e, model(t@))));
                assert(self.live() =~= keys(before));
                proof {
                    assert forall|x: Entity| #[trigger]
                        lookup(self@, x) == (if x == e { Some(model(t@)) } else { lookup(before, x) }) by {
                        lemma_update_lookup(before, i as int, model(t@), x);
                    }
                }
                true
            },
            None => false,
        }
    }

    /// Attaches `v` under type key `k` to `e`, replacing any earlier one.
    pub fn insert(&mut self, e: Entity, k: u64, v: Value) -> (r: bool)
        requires
            old(self).wf(),
        ensures
            final(self).wf(),
            final(self).globals() == old(self).globals(),
            final(self).live() == old(self).live(),
            final(self).next() == old(self).next(),
            r == lookup(old(self)@, e) is Some,
            forall|x: Entity|
                #![trigger lookup(final(self)@, x)]
                lookup(final(self)@, x) == if x == e && r {
                    Some(with(lookup(old(self)@, e).unwrap(), k, v@))
                } else {
                    lookup(old(self)@, x)
                },
    {
        match self.position(e) {
            Some(i) => {
                let mut t = remove_key(&self.tables[i], k);
                let ghost mid = t@;
                t.push((k, v));
                assert(model(t@) =~= model(mid).push((k, v@)));
                self.set_attachments(e, t)
            },
            None => false,
        }
    }

    /// Takes the attachment of type `k` off `e`.
    pub fn remove(&mut self, e: Entity, k: u64) -> (r: bool)
        requires
            old(self).wf(),
        ensures
            final(self).wf(),
            final(self).globals() == old(self).globals(),
            final(self).live() == old(self).live(),
            final(self).next() == old(self).next(),
            r == lookup(old(self)@, e) is Some,
            forall|x: Entity|
                #![trigger lookup(final(self)@, x)]
                lookup(final(self)@, x) == if x == e && r {
                    Some(without(lookup(old(self)@, e).unwrap(), k))
                } else {
                    lookup(old(self)@, x)
                },
    {
        match self.position(e) {
            Some(i) => {
                let t = remove_key(&self.tables[i], k);
                self.set_attachments(e, t)
            },
            None => false,
        }
    }

    /// Removes `e` and its attachments; the other entities keep their order.
    pub fn despawn(&mut self, e: Entity) -> (r: bool)
        requires
            old(self).wf(),
        ensures
            final(self).wf(),
            final(self).globals() == old(self).globals(),
            final(self)@ == without(old(self)@, e),
            final(self).next() == old(self).next(),
            r == lookup(old(self)@, e) is Some,
    {
        let ghost before = self@;
        let found = self.contains(e);
        let mut ids: Vec<Entity> = Vec::new();
        let mut tables: Vec<Attachments> = Vec::new();
        let mut i: usize = 0;
        while i < self.ids.len()
            invariant
                i <= self.ids.len(),
                self.wf(),
                before == self@,
                ids.len() == tables.len(),
                Seq::new(ids@.len(), |a: int| (ids@[a], model(tables@[a]@))) == without(
                    before.take(i as int),
                    e,
                ),
                forall|a: int| 0 <= a < ids.len() ==> #[trigger] ids@[a].index < self.next_index,
                ids@.no_duplicates(),
                forall|a: int| 0 <= a < ids.len() ==> exists|b: int| 0 <= b < i && #[trigger] ids@[a] == self.ids@[b],
            decreases self.ids.len() - i,
        {
            assert(before.take(i + 1).drop_last() =~= before.take(i as int));
            let ghost prev = Seq::new(ids@.len(), |a: int| (ids@[a], model(tables@[a]@)));
            if self.ids[i] != e {
                let ghost old_ids = ids@;
                proof {
                    assert forall|a: int| 0 <= a < old_ids.len() implies old_ids[a] != self.ids@[i as int] by {
                        let b = choose|b: int| 0 <= b < i && old_ids[a] == self.ids@[b];
                        assert(self.ids@[b] != self.ids@[i as int]);
                    }
                }
                ids.push(self.ids[i]);
                proof {
                    assert forall|a: int| 0 <= a < ids.len() implies exists|b: int| 0 <= b < i + 1 && #[trigger] ids@[a] == self.ids@[b] by {
                        if a < old_ids.len() {
                            let b = choose|b: int| 0 <= b < i && old_ids[a] == self.ids@[b];
                            assert(ids@[a] == self.ids@[b]);
                        } else {
                            assert(ids@[a] == self.ids@[i as int]);
                        }
                    }
                    assert forall|a: int, c: int| 0 <= a < c < ids@.len() implies ids@[a] != ids@[c] by {
                        if c < old_ids.len() {
                            assert(old_ids[a] != old_ids[c]);
                        }
                    }
                }
                tables.push(copy_table(&self.tables[i]));
                assert(Seq::new(ids@.len(), |a: int| (ids@[a], model(tables@[a]@))) =~= prev.push(
                    before[i as int],
                ));
            }
            i = i + 1;
        }
        assert(before.take(before.len() as int) == before);
        proof {
            assert forall|a: int| 0 <= a < ids.len() implies #[trigger] ids@[a].index < self.next_index by {
                let b = choose|b: int| 0 <= b < self.ids.len() && ids@[a] == self.ids@[b];
                assert(self.ids@[b].index < self.next_index);
            }
        }
        self.ids = ids;
        self.tables = tables;
        assert(self@ =~= without(before, e));
        found
    }

    /// Removes every entity that carries an attachment of any of the types
    /// `ms`; the others keep their order.
    pub fn despawn_marked(&mut self, ms: &Vec<u64>)
        requires
            old(self).wf(),
        ensures
            final(self).wf(),
            final(self).globals() == old(self).globals(),
            final(self)@ == unmarked(old(self)@, ms@),
            final(self).next() == old(self).next(),
    {
        let ghost before = self@;
        let mut ids: Vec<Entity> = Vec::new();
        let mut tables: Vec<Attachments> = Vec::new();
        let mut i: usize = 0;
        while i < self.ids.len()
            invariant
                i <= self.ids.len(),
                self.wf(),
                before == self@,
                ids.len() == tables.len(),
                Seq::new(ids@.len(), |a: int| (ids@[a], model(tables@[a]@))) == unmarked(
                    before.take(i as int),
                    ms@,
                ),
                ids@.no_duplicates(),
                forall|a: int| 0 <= a < ids.len() ==> exists|b: int| 0 <= b < i && #[trigger] ids@[a] == self.ids@[b],
            decreases self.ids.len() - i,
        {
            assert(before.take(i + 1).drop_last() =~= before.take(i as int));
            let ghost prev = Seq::new(ids@.len(), |a: int| (ids@[a], model(tables@[a]@)));
            let mut marked = false;
            let mut j: usize = 0;
            while j < ms.len()
                invariant
                    j <= ms.len(),
                    i < self.ids.len(),
                    self.wf(),
                    marked == exists|c: int| 0 <= c < j && lookup(model(self.tables@[i as int]@), #[trigger] ms@[c]) is Some,
                decreases ms.len() - j,
            {
                if has_key(&self.tables[i], ms[j]) {
                    marked = true;
                }
                j = j + 1;
            }
            assert(before[i as int].1 == model(self.tables@[i as int]@));
            if !marked {
                let ghost old_ids = ids@;
                proof {
                    assert forall|a: int| 0 <= a < old_ids.len() implies old_ids[a] != self.ids@[i as int] by {
                        let b = choose|b: int| 0 <= b < i && old_ids[a] == self.ids@[b];
                        assert(self.ids@[b] != self.ids@[i as int]);
                    }
                }
                ids.push(self.ids[i]);
                tables.push(copy_table(&self.tables[i]));
                proof {
                    assert forall|a: int| 0 <= a < ids.len() implies exists|b: int| 0 <= b < i + 1 && #[trigger] ids@[a] == self.ids@[b] by {
                        if a < old_ids.len() {
                            let b = choose|b: int| 0 <= b < i && old_ids[a] == self.ids@[b];
                            assert(ids@[a] == self.ids@[b]);
                        } else {
                            assert(ids@[a] == self.ids@[i as int]);
                        }
                    }
                    assert forall|a: int, c: int| 0 <= a < c < ids@.len() implies ids@[a] != ids@[c] by {
                        if c < old_ids.len() {
                            assert(old_ids[a] != old_ids[c]);
                        }
                    }
                }
                assert(Seq::new(ids@.len(), |a: int| (ids@[a], model(tables@[a]@))) =~= prev.push(
                    before[i as int],
                ));
            }
            i = i + 1;
        }
        assert(before.take(before.len() as int) == before);
        proof {
            assert forall|a: int| 0 <= a < ids.len() implies #[trigger] ids@[a].index < self.next_index by {
                let b = choose|b: int| 0 <= b < self.ids.len() && ids@[a] == self.ids@[b];
                assert(self.ids@[b].index < self.next_index);
            }
        }
        self.ids = ids;
        self.tables = tables;
        assert(self@ =~= unmarked(before, ms@));
    }

    /// The global value of type `k`, copied out.
    pub fn get_resource(&self, k: u64) -> (r: Option<Value>)
        ensures
            r is Some == lookup(self.globals(), k) is Some,
            r is Some ==> lookup(self.globals(), k) == Some(r.unwrap()@),
    {
        get_value(&self.resources, k)
    }

    /// Sets the global value of type `k`.
    pub fn insert_resource(&mut self, k: u64, v: Value)
        requires
            old(self).wf(),
        ensures
            final(self).wf(),
            final(self)@ == old(self)@,
            final(self).next() == old(self).next(),
            final(self).globals() == with(old(self).globals(), k, v@),
    {
        let mut t = remove_key(&self.resources, k);
        let ghost mid = t@;
        t.push((k, v));
        assert(model(t@) =~= model(mid).push((k, v@)));
        self.resources = t;
    }

    /// Whether a global value of type `k` is set.
    pub fn has_resource(&self, k: u64) -> (r: bool)
        ensures
            r == lookup(self.globals(), k) is Some,
    {
        has_key(&self.resources, k)
    }

    /// Unsets the global value of type `k`.
    pub fn remove_resource(&mut self, k: u64)
        requires
            old(self).wf(),
        ensures
            final(self).wf(),
            final(self)@ == old(self)@,
            final(self).next() == old(self).next(),
            final(self).globals() == without(old(self).globals(), k),
    {
        self.resources = remove_key(&self.resources, k);
    }

    /// Writes every entry of `t` into the global values, in order.
    pub fn insert_resources(&mut self, t: &Attachments)
        requires
            old(self).wf(),
        ensures
            final(self).wf(),
            final(self)@ == old(self)@,
            final(self).next() == old(self).next(),
            final(self).globals() == put_all(old(self).globals(), model(t@)),
    {
        let mut i: usize = 0;
        while i < t.len()
            invariant
                i <= t.len(),
                self.wf(),
                self@ == old(self)@,
                self.next() == old(self).next(),
                self.globals() == put_all(old(self).globals(), model(t@).take(i as int)),
            decreases t.len() - i,
        {
            assert(model(t@).take(i + 1).drop_last() == model(t@).take(i as int));
            self.insert_resource(t[i].0, t[i].1.copy());
            i = i + 1;
        }
        assert(model(t@).take(t.len() as int) == model(t@));
    }

    /// The table of global values, copied out.
    pub fn resources(&self) -> (r: Attachments)
        ensures
            model(r@) == self.globals(),
    {
        copy_table(&self.resources)
    }
}

} // verus!
