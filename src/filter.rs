use vstd::prelude::*;

use crate::entity::Entity;
use crate::table::lemma_push_contains;

verus! {

pub fn contains_entity(v: &Vec<Entity>, e: Entity) -> (r: bool)
    ensures
        r == v@.contains(e),
{
    let mut i: usize = 0;
    while i < v.len()
        invariant
            i <= v.len(),
            forall|j: int| 0 <= j < i ==> v@[j] != e,
        decreases v.len() - i,
    {
        if v[i] == e {
            return true;
        }
        i = i + 1;
    }
    false
}

pub fn contains_key(v: &Vec<u64>, k: u64) -> (r: bool)
    ensures
        r == v@.contains(k),
{
    let mut i: usize = 0;
    while i < v.len()
        invariant
            i <= v.len(),
            forall|j: int| 0 <= j < i ==> v@[j] != k,
        decreases v.len() - i,
    {
        if v[i] == k {
            return true;
        }
        i = i + 1;
    }
    false
}

/// Selects which entities of a store an operation touches.
#[derive(Clone, Debug)]
pub enum EntityFilter {
    /// Only the listed entities.
    Allow(Vec<Entity>),
    /// Every entity but the listed ones.
    Block(Vec<Entity>),
}

impl EntityFilter {
    pub open spec fn selects(&self, e: Entity) -> bool {
        match self {
            EntityFilter::Allow(v) => v@.contains(e),
            EntityFilter::Block(v) => !v@.contains(e),
        }
    }

    /// Selects every entity.
    pub fn allow_all() -> (r: EntityFilter)
        ensures
            forall|e: Entity| r.selects(e),
    {
        EntityFilter::Block(Vec::new())
    }

    /// Selects exactly the given entities.
    pub fn allow(entities: Vec<Entity>) -> (r: EntityFilter)
        ensures
            forall|e: Entity| r.selects(e) == entities@.contains(e),
    {
        EntityFilter::Allow(entities)
    }

    /// Selects every entity but the given ones.
    pub fn block(entities: Vec<Entity>) -> (r: EntityFilter)
        ensures
            forall|e: Entity| r.selects(e) == !entities@.contains(e),
    {
        EntityFilter::Block(entities)
    }

    pub fn filter_entity(&self, e: Entity) -> (r: bool)
        ensures
            r == self.selects(e),
    {
        match self {
            EntityFilter::Allow(v) => contains_entity(v, e),
            EntityFilter::Block(v) => !contains_entity(v, e),
        }
    }
}

impl Default for EntityFilter {
    fn default() -> (r: EntityFilter)
        ensures
            forall|e: Entity| r.selects(e),
    {
        EntityFilter::allow_all()
    }
}

/// The entities of `live` that the filter selects, in their order.
pub open spec fn selection(f: EntityFilter, live: Seq<Entity>) -> Seq<Entity>
    decreases live.len(),
{
    if live.len() == 0 {
        live
    } else if f.selects(live.last()) {
        selection(f, live.drop_last()).push(live.last())
    } else {
        selection(f, live.drop_last())
    }
}

pub proof fn lemma_selection_members(f: EntityFilter, live: Seq<Entity>)
    ensures
        forall|e: Entity| selection(f, live).contains(e) <==> (live.contains(e) && f.selects(e)),
        selection(f, live).len() <= live.len(),
        live.no_duplicates() ==> selection(f, live).no_duplicates(),
    decreases live.len(),
{
    if live.len() > 0 {
        let p = live.drop_last();
        lemma_selection_members(f, p);
        assert(live == p.push(live.last()));
        if live.no_duplicates() {
            assert(p.no_duplicates());
            assert(!p.contains(live.last()));
        }
        assert forall|e: Entity| selection(f, live).contains(e) <==> (live.contains(e) && f.selects(
            e,
        )) by {
            lemma_push_contains(p, live.last(), e);
            lemma_push_contains(selection(f, p), live.last(), e);
        }
    }
}

impl EntityFilter {
    /// The entities of `live` that this filter selects, in their order.
    pub fn select(&self, live: &Vec<Entity>) -> (r: Vec<Entity>)
        ensures
            r@ == selection(*self, live@),
    {
        let mut r: Vec<Entity> = Vec::new();
        let mut i: usize = 0;
        while i < live.len()
            invariant
                i <= live.len(),
                r@ == selection(*self, live@.take(i as int)),
            decreases live.len() - i,
        {
            assert(live@.take(i + 1).drop_last() == live@.take(i as int));
            if self.filter_entity(live[i]) {
                r.push(live[i]);
            }
            i = i + 1;
        }
        assert(live@.take(live.len() as int) == live@);
        r
    }
}

/// Decides which type keys (of attachments, or of global values) an
/// operation carries: a default, and the keys that are exceptions to it.
#[derive(Clone, Debug)]
pub struct TypeFilter {
    pub allow_by_default: bool,
    pub exceptions: Vec<u64>,
}

impl TypeFilter {
    pub open spec fn allows(&self, k: u64) -> bool {
        self.allow_by_default != self.exceptions@.contains(k)
    }

    /// Allows every type key.
    pub fn allow_all() -> (r: TypeFilter)
        ensures
            forall|k: u64| r.allows(k),
    {
        TypeFilter { allow_by_default: true, exceptions: Vec::new() }
    }

    /// Denies every type key.
    pub fn deny_all() -> (r: TypeFilter)
        ensures
            forall|k: u64| !r.allows(k),
    {
        TypeFilter { allow_by_default: false, exceptions: Vec::new() }
    }

    /// The filter with `k` allowed as well: an explicit inclusion wins over a
    /// default denial.
    pub fn allow(self, k: u64) -> (r: TypeFilter)
        ensures
            forall|j: u64| r.allows(j) == (j == k || self.allows(j)),
    {
        if self.allow_by_default {
            TypeFilter { allow_by_default: true, exceptions: remove_all(&self.exceptions, k) }
        } else {
            let mut exceptions = self.exceptions;
            exceptions.push(k);
            proof {
                assert forall|j: u64| exceptions@.contains(j) == (j == k || self.exceptions@.contains(j)) by {
                    lemma_push_contains(self.exceptions@, k, j);
                }
            }
            TypeFilter { allow_by_default: false, exceptions }
        }
    }

    /// The filter with `k` denied: an explicit exclusion wins over a default
    /// allowance.
    pub fn deny(self, k: u64) -> (r: TypeFilter)
        ensures
            forall|j: u64| r.allows(j) == (j != k && self.allows(j)),
    {
        if self.allow_by_default {
            let mut exceptions = self.exceptions;
            exceptions.push(k);
            proof {
                assert forall|j: u64| exceptions@.contains(j) == (j == k || self.exceptions@.contains(j)) by {
                    lemma_push_contains(self.exceptions@, k, j);
                }
            }
            TypeFilter { allow_by_default: true, exceptions }
        } else {
            TypeFilter { allow_by_default: false, exceptions: remove_all(&self.exceptions, k) }
        }
    }

    pub fn is_allowed(&self, k: u64) -> (r: bool)
        ensures
            r == self.allows(k),
    {
        self.allow_by_default != contains_key(&self.exceptions, k)
    }
}

/// The keys of `v` other than `k`.
fn remove_all(v: &Vec<u64>, k: u64) -> (r: Vec<u64>)
    ensures
        forall|j: u64| r@.contains(j) == (j != k && v@.contains(j)),
{
    let mut r: Vec<u64> = Vec::new();
    let mut i: usize = 0;
    while i < v.len()
        invariant
            i <= v.len(),
            forall|j: u64| r@.contains(j) == (j != k && v@.take(i as int).contains(j)),
        decreases v.len() - i,
    {
        let ghost before = r@;
        assert(v@.take(i + 1) == v@.take(i as int).push(v@[i as int]));
        if v[i] != k {
            r.push(v[i]);
        }
        proof {
            assert forall|j: u64| r@.contains(j) == (j != k && v@.take(i + 1).contains(j)) by {
                lemma_push_contains(v@.take(i as int), v@[i as int], j);
                lemma_push_contains(before, v@[i as int], j);
            }
        }
        i = i + 1;
    }
    assert(v@.take(v.len() as int) == v@);
    r
}

} // verus!
