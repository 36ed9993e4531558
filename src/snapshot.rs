use vstd::prelude::*;

use crate::entity::Entity;
use crate::value::{model, Attachments, Datum};

verus! {

/// A serialization-ready capture of part of a store: entity records in save
/// order, each with its attachment table, and a table of global values.
pub struct Snapshot {
    pub entities: Vec<(Entity, Attachments)>,
    pub resources: Attachments,
}

/// The content of a [`Snapshot`].
pub struct SnapshotModel {
    pub entities: Seq<(Entity, Seq<(u64, Datum)>)>,
    pub resources: Seq<(u64, Datum)>,
}

/// The content of a list of entity records.
pub open spec fn records(v: Seq<(Entity, Attachments)>) -> Seq<(Entity, Seq<(u64, Datum)>)> {
    Seq::new(v.len(), |i: int| (v[i].0, model(v[i].1@)))
}

impl View for Snapshot {
    type V = SnapshotModel;

    open spec fn view(&self) -> SnapshotModel {
        SnapshotModel { entities: records(self.entities@), resources: model(self.resources@) }
    }
}

impl Snapshot {
    /// The saved identities, in save order.
    pub fn entity_ids(&self) -> (r: Vec<Entity>)
        ensures
            r@ == self@.entities.map_values(|p: (Entity, Seq<(u64, Datum)>)| p.0),
    {
        let mut r: Vec<Entity> = Vec::new();
        let mut i: usize = 0;
        while i < self.entities.len()
            invariant
                i <= self.entities.len(),
                r@ == self@.entities.map_values(|p: (Entity, Seq<(u64, Datum)>)| p.0).take(i as int),
            decreases self.entities.len() - i,
        {
            r.push(self.entities[i].0);
            i = i + 1;
            assert(r@ =~= self@.entities.map_values(|p: (Entity, Seq<(u64, Datum)>)| p.0).take(
                i as int,
            ));
        }
        assert(r@ =~= self@.entities.map_values(|p: (Entity, Seq<(u64, Datum)>)| p.0));
        r
    }
}

} // verus!
