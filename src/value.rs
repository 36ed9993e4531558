use vstd::prelude::*;

use crate::entity::Entity;
use crate::table::{lookup, without};

verus! {

/// The serialized data of one attachment or one global value.
#[derive(Clone, Debug, PartialEq, Eq)]
pub enum Value {
    Unit,
    Int(u64),
    Bytes(Vec<u8>),
    /// A reference to another entity.
    Ref(Entity),
    /// An ordered list of references to other entities.
    Refs(Vec<Entity>),
}

/// The mathematical content of a [`Value`].
pub enum Datum {
    Unit,
    Int(u64),
    Bytes(Seq<u8>),
    Ref(Entity),
    Refs(Seq<Entity>),
}

impl View for Value {
    type V = Datum;

    open spec fn view(&self) -> Datum {
        match self {
            Value::Unit => Datum::Unit,
            Value::Int(n) => Datum::Int(*n),
            Value::Bytes(b) => Datum::Bytes(b@),
            Value::Ref(e) => Datum::Ref(*e),
            Value::Refs(es) => Datum::Refs(es@),
        }
    }
}

/// The content of a table of values.
pub open spec fn model(t: Seq<(u64, Value)>) -> Seq<(u64, Datum)> {
    t.map_values(|p: (u64, Value)| (p.0, p.1@))
}

/// A table of attachments (or of global values), keyed by type key.
pub type Attachments = Vec<(u64, Value)>;

pub fn copy_bytes(b: &Vec<u8>) -> (r: Vec<u8>)
    ensures
        r@ == b@,
{
    let mut r: Vec<u8> = Vec::new();
    let mut i: usize = 0;
    while i < b.len()
        invariant
            i <= b.len(),
            r@ == b@.take(i as int),
        decreases b.len() - i,
    {
        r.push(b[i]);
        i = i + 1;
        assert(r@ == b@.take(i as int));
    }
    assert(b@.take(b.len() as int) == b@);
    r
}

pub fn copy_entities(b: &Vec<Entity>) -> (r: Vec<Entity>)
    ensures
        r@ == b@,
{
    let mut r: Vec<Entity> = Vec::new();
    let mut i: usize = 0;
    while i < b.len()
        invariant
            i <= b.len(),
            r@ == b@.take(i as int),
        decreases b.len() - i,
    {
        r.push(b[i]);
        i = i + 1;
        assert(r@ == b@.take(i as int));
    }
    assert(b@.take(b.len() as int) == b@);
    r
}

impl Value {
    /// A copy with the same content.
    pub fn copy(&self) -> (r: Value)
        ensures
            r@ == self@,
    {
        match self {
            Value::Unit => Value::Unit,
            Value::Int(n) => Value::Int(*n),
            Value::Bytes(b) => Value::Bytes(copy_bytes(b)),
            Value::Ref(e) => Value::Ref(*e),
            Value::Refs(es) => Value::Refs(copy_entities(es)),
        }
    }
}

pub fn copy_table(t: &Attachments) -> (r: Attachments)
    ensures
        model(r@) == model(t@),
{
    let mut r: Attachments = Vec::new();
    let mut i: usize = 0;
    while i < t.len()
        invariant
            i <= t.len(),
            model(r@) == model(t@.take(i as int)),
        decreases t.len() - i,
    {
        let ghost before = r@;
        let c = t[i].1.copy();
        r.push((t[i].0, c));
        assert(model(r@) =~= model(before).push((t@[i as int].0, t@[i as int].1@)));
        assert(t@.take(i + 1) =~= t@.take(i as int).push(t@[i as int]));
        assert(model(t@.take(i + 1)) =~= model(t@.take(i as int)).push(
            (t@[i as int].0, t@[i as int].1@),
        ));
        i = i + 1;
    }
    assert(t@.take(t.len() as int) == t@);
    r
}

/// The value bound to `k`, copied out.
pub fn get_value(t: &Attachments, k: u64) -> (r: Option<Value>)
    ensures
        r is Some == lookup(model(t@), k) is Some,
        r is Some ==> lookup(model(t@), k) == Some(r.unwrap()@),
{
    assert(t@.take(t.len() as int) == t@);
    let mut i: usize = t.len();
    while i > 0
        invariant
            i <= t.len(),
            lookup(model(t@), k) == lookup(model(t@.take(i as int)), k),
        decreases i,
    {
        let ghost s = model(t@.take(i as int));
        assert(s.drop_last() =~= model(t@.take(i - 1)));
        if t[i - 1].0 == k {
            return Some(t[i - 1].1.copy());
        }
        i = i - 1;
    }
    None
}

/// Whether `k` is bound.
pub fn has_key(t: &Attachments, k: u64) -> (r: bool)
    ensures
        r == lookup(model(t@), k) is Some,
{
    assert(t@.take(t.len() as int) == t@);
    let mut i: usize = t.len();
    while i > 0
        invariant
            i <= t.len(),
            lookup(model(t@), k) == lookup(model(t@.take(i as int)), k),
        decreases i,
    {
        let ghost s = model(t@.take(i as int));
        assert(s.drop_last() =~= model(t@.take(i - 1)));
        if t[i - 1].0 == k {
            return true;
        }
        i = i - 1;
    }
    false
}

/// The table with `k` taken out.
pub fn remove_key(t: &Attachments, k: u64) -> (r: Attachments)
    ensures
        model(r@) == without(model(t@), k),
{
    let mut r: Attachments = Vec::new();
    let mut i: usize = 0;
    while i < t.len()
        invariant
            i <= t.len(),
            model(r@) == without(model(t@.take(i as int)), k),
        decreases t.len() - i,
    {
        assert(model(t@.take(i + 1)).drop_last() =~= model(t@.take(i as int)));
        if t[i].0 != k {
            r.push((t[i].0, t[i].1.copy()));
            assert(model(r@) =~= without(model(t@.take(i + 1)), k));
        }
        i = i + 1;
    }
    assert(t@.take(t.len() as int) == t@);
    r
}

/// The live identity that a saved identity was given, if any.
pub fn resolve(map: &Vec<(Entity, Entity)>, e: Entity) -> (r: Option<Entity>)
    ensures
        r == lookup(map@, e),
{
    assert(map@.take(map.len() as int) == map@);
    let mut i: usize = map.len();
    while i > 0
        invariant
            i <= map.len(),
            lookup(map@, e) == lookup(map@.take(i as int), e),
        decreases i,
    {
        let ghost s = map@.take(i as int);
        assert(s.drop_last() == map@.take(i - 1));
        if map[i - 1].0 == e {
            return Some(map[i - 1].1);
        }
        i = i - 1;
    }
    None
}

} // verus!
