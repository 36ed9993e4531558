use vstd::bytes::{
    lemma_auto_spec_u64_to_from_le_bytes, spec_u64_from_le_bytes, spec_u64_to_le_bytes,
    u64_from_le_bytes, u64_to_le_bytes,
};
use vstd::prelude::*;
use vstd::slice::slice_subrange;

use crate::entity::Entity;
use crate::table::keys;
use crate::snapshot::{records, Snapshot, SnapshotModel};
use crate::value::{model, Attachments, Datum, Value};

verus! {

// The wire format.  Every integer is eight little-endian bytes.  A value is
// a tag byte and its payload; a table is its length and then each key with
// its value; a snapshot is its table of globals, the number of records, and
// each record's identity and table.

pub open spec fn le(x: u64) -> Seq<u8> {
    spec_u64_to_le_bytes(x)
}

pub open spec fn enc_ids(es: Seq<Entity>) -> Seq<u8>
    decreases es.len(),
{
    if es.len() == 0 {
        Seq::empty()
    } else {
        enc_ids(es.drop_last()) + le(es.last().spec_bits())
    }
}

pub open spec fn enc_datum(d: Datum) -> Seq<u8> {
    match d {
        Datum::Unit => seq![0u8],
        Datum::Int(n) => seq![1u8] + le(n),
        Datum::Bytes(b) => seq![2u8] + le(b.len() as u64) + b,
        Datum::Ref(e) => seq![3u8] + le(e.spec_bits()),
        Datum::Refs(es) => seq![4u8] + le(es.len() as u64) + enc_ids(es),
    }
}

pub open spec fn enc_entries(t: Seq<(u64, Datum)>) -> Seq<u8>
    decreases t.len(),
{
    if t.len() == 0 {
        Seq::empty()
    } else {
        enc_entries(t.drop_last()) + le(t.last().0) + enc_datum(t.last().1)
    }
}

pub open spec fn enc_table(t: Seq<(u64, Datum)>) -> Seq<u8> {
    le(t.len() as u64) + enc_entries(t)
}

pub open spec fn enc_records(rs: Seq<(Entity, Seq<(u64, Datum)>)>) -> Seq<u8>
    decreases rs.len(),
{
    if rs.len() == 0 {
        Seq::empty()
    } else {
        enc_records(rs.drop_last()) + le(rs.last().0.spec_bits()) + enc_table(rs.last().1)
    }
}

/// The bytes of a snapshot.
pub open spec fn encode(s: SnapshotModel) -> Seq<u8> {
    enc_table(s.resources) + le(s.entities.len() as u64) + enc_records(s.entities)
}

fn push_u64(out: &mut Vec<u8>, x: u64)
    ensures
        final(out)@ == old(out)@ + le(x),
{
    let b = u64_to_le_bytes(x);
    push_all(out, &b);
}

fn push_all(out: &mut Vec<u8>, b: &Vec<u8>)
    ensures
        final(out)@ == old(out)@ + b@,
{
    let ghost start = out@;
    let mut i: usize = 0;
    while i < b.len()
        invariant
            i <= b.len(),
            out@ == start + b@.take(i as int),
        decreases b.len() - i,
    {
        out.push(b[i]);
        i = i + 1;
        assert(out@ =~= start + b@.take(i as int));
    }
    assert(b@.take(b.len() as int) == b@);
}

fn write_ids(out: &mut Vec<u8>, es: &Vec<Entity>)
    ensures
        final(out)@ == old(out)@ + enc_ids(es@),
{
    let ghost start = out@;
    assert(es@.take(0) =~= Seq::<Entity>::empty());
    let mut i: usize = 0;
    while i < es.len()
        invariant
            i <= es.len(),
            out@ == start + enc_ids(es@.take(i as int)),
        decreases es.len() - i,
    {
        assert(es@.take(i + 1).drop_last() == es@.take(i as int));
        push_u64(out, es[i].to_bits());
        i = i + 1;
        assert(out@ =~= start + enc_ids(es@.take(i as int)));
    }
    assert(es@.take(es.len() as int) == es@);
}

fn write_value(out: &mut Vec<u8>, v: &Value)
    ensures
        final(out)@ == old(out)@ + enc_datum(v@),
{
    let ghost start = out@;
    match v {
        Value::Unit => {
            out.push(0u8);
            assert(out@ =~= start + enc_datum(v@));
        },
        Value::Int(n) => {
            out.push(1u8);
            push_u64(out, *n);
            assert(out@ =~= start + enc_datum(v@));
        },
        Value::Bytes(b) => {
            out.push(2u8);
            push_u64(out, b.len() as u64);
            push_all(out, b);
            assert(out@ =~= start + enc_datum(v@));
        },
        Value::Ref(e) => {
            out.push(3u8);
            push_u64(out, e.to_bits());
            assert(out@ =~= start + enc_datum(v@));
        },
        Value::Refs(es) => {
            out.push(4u8);
            push_u64(out, es.len() as u64);
            write_ids(out, es);
            assert(out@ =~= start + enc_datum(v@));
        },
    }
}

fn write_table(out: &mut Vec<u8>, t: &Attachments)
    ensures
        final(out)@ == old(out)@ + enc_table(model(t@)),
{
    let ghost start = out@;
    push_u64(out, t.len() as u64);
    let ghost head = out@;
    assert(model(t@).take(0) =~= Seq::<(u64, Datum)>::empty());
    let mut i: usize = 0;
    while i < t.len()
        invariant
            i <= t.len(),
            out@ == head + enc_entries(model(t@).take(i as int)),
        decreases t.len() - i,
    {
        assert(model(t@).take(i + 1).drop_last() == model(t@).take(i as int));
        push_u64(out, t[i].0);
        write_value(out, &t[i].1);
        i = i + 1;
        assert(out@ =~= head + enc_entries(model(t@).take(i as int)));
    }
    assert(model(t@).take(t.len() as int) == model(t@));
    assert(out@ =~= start + enc_table(model(t@)));
}

/// Encodes a snapshot.
pub fn encode_snapshot(s: &Snapshot) -> (r: Vec<u8>)
    ensures
        r@ == encode(s@),
{
    let mut out: Vec<u8> = Vec::new();
    write_table(&mut out, &s.resources);
    push_u64(&mut out, s.entities.len() as u64);
    let ghost head = out@;
    let ghost rs = records(s.entities@);
    assert(rs.take(0) =~= Seq::<(Entity, Seq<(u64, Datum)>)>::empty());
    let mut i: usize = 0;
    while i < s.entities.len()
        invariant
            i <= s.entities.len(),
            rs == records(s.entities@),
            out@ == head + enc_records(rs.take(i as int)),
        decreases s.entities.len() - i,
    {
        assert(rs.take(i + 1).drop_last() == rs.take(i as int));
        push_u64(&mut out, s.entities[i].0.to_bits());
        write_table(&mut out, &s.entities[i].1);
        i = i + 1;
        assert(out@ =~= head + enc_records(rs.take(i as int)));
    }
    assert(rs.take(s.entities.len() as int) == rs);
    assert(out@ =~= encode(s@));
    out
}

// Reading the wire format back.

pub open spec fn read_u64(b: Seq<u8>, pos: int) -> Option<(u64, int)> {
    if 0 <= pos && pos + 8 <= b.len() {
        Some((spec_u64_from_le_bytes(b.subrange(pos, pos + 8)), pos + 8))
    } else {
        None
    }
}

pub open spec fn parse_ids(b: Seq<u8>, pos: int, n: nat) -> Option<(Seq<Entity>, int)>
    decreases n,
{
    if n == 0 {
        Some((Seq::empty(), pos))
    } else {
        match parse_ids(b, pos, (n - 1) as nat) {
            Some((es, p)) => match read_u64(b, p) {
                Some((x, q)) => Some((es.push(Entity::spec_from_bits(x)), q)),
                None => None,
            },
            None => None,
        }
    }
}

pub open spec fn parse_datum(b: Seq<u8>, pos: int) -> Option<(Datum, int)> {
    if !(0 <= pos < b.len()) {
        None
    } else if b[pos] == 0 {
        Some((Datum::Unit, pos + 1))
    } else if b[pos] == 1 {
        match read_u64(b, pos + 1) {
            Some((n, p)) => Some((Datum::Int(n), p)),
            None => None,
        }
    } else if b[pos] == 2 {
        match read_u64(b, pos + 1) {
            Some((n, p)) => if p + n <= b.len() {
                Some((Datum::Bytes(b.subrange(p, p + n)), p + n))
            } else {
                None
            },
            None => None,
        }
    } else if b[pos] == 3 {
        match read_u64(b, pos + 1) {
            Some((x, p)) => Some((Datum::Ref(Entity::spec_from_bits(x)), p)),
            None => None,
        }
    } else if b[pos] == 4 {
        match read_u64(b, pos + 1) {
            Some((n, p)) => match parse_ids(b, p, n as nat) {
                Some((es, q)) => Some((Datum::Refs(es), q)),
                None => None,
            },
            None => None,
        }
    } else {
        None
    }
}

pub open spec fn parse_entries(b: Seq<u8>, pos: int, n: nat) -> Option<(Seq<(u64, Datum)>, int)>
    decreases n,
{
    if n == 0 {
        Some((Seq::empty(), pos))
    } else {
        match parse_entries(b, pos, (n - 1) as nat) {
            Some((t, p)) => match read_u64(b, p) {
                Some((k, q)) => match parse_datum(b, q) {
                    Some((d, e)) => Some((t.push((k, d)), e)),
                    None => None,
                },
                None => None,
            },
            None => None,
        }
    }
}

pub open spec fn parse_table(b: Seq<u8>, pos: int) -> Option<(Seq<(u64, Datum)>, int)> {
    match read_u64(b, pos) {
        Some((n, p)) => parse_entries(b, p, n as nat),
        None => None,
    }
}

pub open spec fn parse_records(b: Seq<u8>, pos: int, n: nat) -> Option<
    (Seq<(Entity, Seq<(u64, Datum)>)>, int),
>
    decreases n,
{
    if n == 0 {
        Some((Seq::empty(), pos))
    } else {
        match parse_records(b, pos, (n - 1) as nat) {
            Some((rs, p)) => match read_u64(b, p) {
                Some((x, q)) => match parse_table(b, q) {
                    Some((t, e)) => Some((rs.push((Entity::spec_from_bits(x), t)), e)),
                    None => None,
                },
                None => None,
            },
            None => None,
        }
    }
}

/// The snapshot that some bytes hold, if they hold exactly one and it names
/// no identity twice.
pub open spec fn decode(b: Seq<u8>) -> Option<SnapshotModel> {
    match parse_table(b, 0) {
        Some((g, p)) => match read_u64(b, p) {
            Some((n, q)) => match parse_records(b, q, n as nat) {
                Some((rs, e)) => if e == b.len() && keys(rs).no_duplicates() {
                    Some(SnapshotModel { entities: rs, resources: g })
                } else {
                    None
                },
                None => None,
            },
            None => None,
        },
        None => None,
    }
}

fn read_at(b: &Vec<u8>, pos: usize) -> (r: Option<(u64, usize)>)
    requires
        pos <= b.len(),
    ensures
        r is Some == read_u64(b@, pos as int) is Some,
        r is Some ==> read_u64(b@, pos as int) == Some((r.unwrap().0, r.unwrap().1 as int)),
{
    if b.len() - pos < 8 {
        return None;
    }
    let s = slice_subrange(b.as_slice(), pos, pos + 8);
    Some((u64_from_le_bytes(s), pos + 8))
}

fn read_ids(b: &Vec<u8>, pos: usize, n: u64) -> (r: Option<(Vec<Entity>, usize)>)
    requires
        pos <= b.len(),
    ensures
        r is Some == parse_ids(b@, pos as int, n as nat) is Some,
        r is Some ==> parse_ids(b@, pos as int, n as nat) == Some(
            (r.unwrap().0@, r.unwrap().1 as int),
        ),
        r is Some ==> r.unwrap().1 <= b.len(),
{
    let mut es: Vec<Entity> = Vec::new();
    let mut p = pos;
    let mut i: u64 = 0;
    while i < n
        invariant
            i <= n,
            p <= b.len(),
            parse_ids(b@, pos as int, i as nat) == Some((es@, p as int)),
        decreases n - i,
    {
        match read_at(b, p) {
            Some((x, q)) => {
                es.push(Entity::from_bits(x));
                p = q;
            },
            None => {
                proof {
                    lemma_parse_ids_stuck(b@, pos as int, (i + 1) as nat, n as nat);
                }
                return None;
            },
        }
        i = i + 1;
    }
    Some((es, p))
}

/// Once the prefix of a list fails to parse, the whole list fails.
proof fn lemma_parse_ids_stuck(b: Seq<u8>, pos: int, i: nat, n: nat)
    requires
        i <= n,
        parse_ids(b, pos, i) is None,
    ensures
        parse_ids(b, pos, n) is None,
    decreases n - i,
{
    if i < n {
        lemma_parse_ids_stuck(b, pos, i + 1, n);
    }
}

proof fn lemma_parse_entries_stuck(b: Seq<u8>, pos: int, i: nat, n: nat)
    requires
        i <= n,
        parse_entries(b, pos, i) is None,
    ensures
        parse_entries(b, pos, n) is None,
    decreases n - i,
{
    if i < n {
        lemma_parse_entries_stuck(b, pos, i + 1, n);
    }
}

proof fn lemma_parse_records_stuck(b: Seq<u8>, pos: int, i: nat, n: nat)
    requires
        i <= n,
        parse_records(b, pos, i) is None,
    ensures
        parse_records(b, pos, n) is None,
    decreases n - i,
{
    if i < n {
        lemma_parse_records_stuck(b, pos, i + 1, n);
    }
}

fn read_value(b: &Vec<u8>, pos: usize) -> (r: Option<(Value, usize)>)
    requires
        pos <= b.len(),
    ensures
        r is Some == parse_datum(b@, pos as int) is Some,
        r is Some ==> parse_datum(b@, pos as int) == Some((r.unwrap().0@, r.unwrap().1 as int)),
        r is Some ==> r.unwrap().1 <= b.len(),
{
    if pos >= b.len() {
        return None;
    }
    let tag = b[pos];
    if tag == 0 {
        Some((Value::Unit, pos + 1))
    } else if tag == 1 {
        match read_at(b, pos + 1) {
            Some((n, p)) => Some((Value::Int(n), p)),
            None => None,
        }
    } else if tag == 2 {
        match read_at(b, pos + 1) {
            Some((n, p)) => {
                if ((b.len() - p) as u64) < n {
                    return None;
                }
                let end = p + n as usize;
                let mut data: Vec<u8> = Vec::new();
                let mut i = p;
                while i < end
                    invariant
                        p <= i <= end,
                        end <= b.len(),
                        data@ == b@.subrange(p as int, i as int),
                    decreases end - i,
                {
                    data.push(b[i]);
                    i = i + 1;
                    assert(data@ =~= b@.subrange(p as int, i as int));
                }
                Some((Value::Bytes(data), end))
            },
            None => None,
        }
    } else if tag == 3 {
        match read_at(b, pos + 1) {
            Some((x, p)) => Some((Value::Ref(Entity::from_bits(x)), p)),
            None => None,
        }
    } else if tag == 4 {
        match read_at(b, pos + 1) {
            Some((n, p)) => match read_ids(b, p, n) {
                Some((es, q)) => Some((Value::Refs(es), q)),
                None => None,
            },
            None => None,
        }
    } else {
        None
    }
}

fn read_table(b: &Vec<u8>, pos: usize) -> (r: Option<(Attachments, usize)>)
    requires
        pos <= b.len(),
    ensures
        r is Some == parse_table(b@, pos as int) is Some,
        r is Some ==> parse_table(b@, pos as int) == Some(
            (model(r.unwrap().0@), r.unwrap().1 as int),
        ),
        r is Some ==> r.unwrap().1 <= b.len(),
{
    let (n, start) = match read_at(b, pos) {
        Some(x) => x,
        None => {
            return None;
        },
    };
    let mut t: Attachments = Vec::new();
    let mut p = start;
    let mut i: u64 = 0;
    while i < n
        invariant
            i <= n,
            p <= b.len(),
            parse_entries(b@, start as int, i as nat) == Some((model(t@), p as int)),
            read_u64(b@, pos as int) == Some((n, start as int)),
        decreases n - i,
    {
        match read_at(b, p) {
            Some((k, q)) => match read_value(b, q) {
                Some((v, e)) => {
                    let ghost before = t@;
                    t.push((k, v));
                    assert(model(t@) =~= model(before).push((k, v@)));
                    p = e;
                },
                None => {
                    proof {
                        assert(parse_entries(b@, start as int, (i + 1) as nat) is None);
                        lemma_parse_entries_stuck(b@, start as int, (i + 1) as nat, n as nat);
                    }
                    return None;
                },
            },
            None => {
                proof {
                    assert(parse_entries(b@, start as int, (i + 1) as nat) is None);
                    lemma_parse_entries_stuck(b@, start as int, (i + 1) as nat, n as nat);
                }
                return None;
            },
        }
        i = i + 1;
    }
    Some((t, p))
}

/// Whether no identity occurs twice among the records.
fn distinct_ids(v: &Vec<(Entity, Attachments)>) -> (r: bool)
    ensures
        r == keys(records(v@)).no_duplicates(),
{
    let ghost ks = keys(records(v@));
    assert(ks.len() == v.len());
    assert(forall|a: int| 0 <= a < v.len() ==> #[trigger] ks[a] == v@[a].0);
    let mut i: usize = 0;
    while i < v.len()
        invariant
            i <= v.len(),
            ks == keys(records(v@)),
            ks.len() == v.len(),
            forall|a: int| 0 <= a < v.len() ==> #[trigger] ks[a] == v@[a].0,
            forall|a: int, b: int| 0 <= a < b < i ==> ks[a] != ks[b],
        decreases v.len() - i,
    {
        let mut j: usize = 0;
        while j < i
            invariant
                j <= i < v.len(),
                ks == keys(records(v@)),
                ks.len() == v.len(),
                forall|a: int| 0 <= a < v.len() ==> #[trigger] ks[a] == v@[a].0,
                forall|a: int| 0 <= a < j ==> ks[a] != ks[i as int],
            decreases i - j,
        {
            if v[j].0 == v[i].0 {
                assert(ks[j as int] == ks[i as int]);
                return false;
            }
            j = j + 1;
        }
        i = i + 1;
    }
    true
}

/// Decodes a snapshot: `None` exactly when the bytes hold none.
pub fn decode_snapshot(b: &Vec<u8>) -> (r: Option<Snapshot>)
    ensures
        r is Some == decode(b@) is Some,
        r is Some ==> decode(b@) == Some(r.unwrap()@),
{
    let (resources, p) = match read_table(b, 0) {
        Some(x) => x,
        None => {
            return None;
        },
    };
    let (n, start) = match read_at(b, p) {
        Some(x) => x,
        None => {
            return None;
        },
    };
    let mut entities: Vec<(Entity, Attachments)> = Vec::new();
    let mut q = start;
    let mut i: u64 = 0;
    while i < n
        invariant
            i <= n,
            q <= b.len(),
            parse_records(b@, start as int, i as nat) == Some((records(entities@), q as int)),
            parse_table(b@, 0) == Some((model(resources@), p as int)),
            read_u64(b@, p as int) == Some((n, start as int)),
        decreases n - i,
    {
        match read_at(b, q) {
            Some((x, q2)) => match read_table(b, q2) {
                Some((t, e)) => {
                    let ghost before = entities@;
                    let id = Entity::from_bits(x);
                    entities.push((id, t));
                    assert(records(entities@) =~= records(before).push((id, model(t@))));
                    q = e;
                },
                None => {
                    proof {
                        assert(parse_records(b@, start as int, (i + 1) as nat) is None);
                        lemma_parse_records_stuck(b@, start as int, (i + 1) as nat, n as nat);
                    }
                    return None;
                },
            },
            None => {
                proof {
                    assert(parse_records(b@, start as int, (i + 1) as nat) is None);
                    lemma_parse_records_stuck(b@, start as int, (i + 1) as nat, n as nat);
                }
                return None;
            },
        }
        i = i + 1;
    }
    if q != b.len() || !distinct_ids(&entities) {
        return None;
    }
    Some(Snapshot { entities, resources })
}

// The format reads back what was written.

/// Every length in a value fits the eight bytes that carry it.
pub open spec fn sized_datum(d: Datum) -> bool {
    match d {
        Datum::Bytes(b) => b.len() <= u64::MAX,
        Datum::Refs(es) => es.len() <= u64::MAX,
        _ => true,
    }
}

pub open spec fn sized_table(t: Seq<(u64, Datum)>) -> bool {
    &&& t.len() <= u64::MAX
    &&& forall|i: int| 0 <= i < t.len() ==> sized_datum(#[trigger] t[i].1)
}

/// Every length in a snapshot fits the eight bytes that carry it.
pub open spec fn sized(s: SnapshotModel) -> bool {
    &&& sized_table(s.resources)
    &&& s.entities.len() <= u64::MAX
    &&& forall|i: int| 0 <= i < s.entities.len() ==> sized_table(#[trigger] s.entities[i].1)
}

/// Every snapshot that the library holds is sized.
pub proof fn lemma_snapshot_sized(s: &Snapshot)
    ensures
        sized(s@),
{
    assert forall|i: int| 0 <= i < s@.entities.len() implies sized_table(#[trigger] s@.entities[i].1) by {
        let t = s.entities@[i].1;
        assert(t@.len() == t.len());
        assert(s@.entities[i].1 == model(t@));
        assert forall|j: int| 0 <= j < model(t@).len() implies sized_datum(#[trigger] model(t@)[j].1) by {
            match t@[j].1 {
                Value::Bytes(b) => assert(b@.len() == b.len()),
                Value::Refs(es) => assert(es@.len() == es.len()),
                _ => {},
            }
        }
    }
    assert(s.resources@.len() == s.resources.len());
    assert(s.entities@.len() == s.entities.len());
    assert forall|j: int| 0 <= j < s@.resources.len() implies sized_datum(#[trigger] s@.resources[j].1) by {
        match s.resources@[j].1 {
            Value::Bytes(b) => assert(b@.len() == b.len()),
            Value::Refs(es) => assert(es@.len() == es.len()),
            _ => {},
        }
    }
}

proof fn lemma_split(b: Seq<u8>, pos: int, x: Seq<u8>, y: Seq<u8>)
    requires
        0 <= pos,
        pos + x.len() + y.len() <= b.len(),
        b.subrange(pos, pos + x.len() + y.len()) == x + y,
    ensures
        b.subrange(pos, pos + x.len()) == x,
        b.subrange(pos + x.len(), pos + x.len() + y.len()) == y,
{
    let w = b.subrange(pos, pos + x.len() + y.len());
    assert forall|i: int| 0 <= i < x.len() implies b.subrange(pos, pos + x.len())[i] == x[i] by {
        assert(w[i] == b[pos + i]);
        assert((x + y)[i] == x[i]);
    }
    assert forall|i: int| 0 <= i < y.len() implies b.subrange(pos + x.len(), pos + x.len() + y.len())[i]
        == y[i] by {
        assert(w[x.len() + i] == b[pos + x.len() + i]);
        assert((x + y)[x.len() + i] == y[i]);
    }
    assert(b.subrange(pos, pos + x.len()) =~= x);
    assert(b.subrange(pos + x.len(), pos + x.len() + y.len()) =~= y);
}

proof fn lemma_read(b: Seq<u8>, pos: int, x: u64)
    requires
        0 <= pos,
        pos + 8 <= b.len(),
        b.subrange(pos, pos + 8) == le(x),
    ensures
        read_u64(b, pos) == Some((x, pos + 8)),
{
    lemma_auto_spec_u64_to_from_le_bytes();
}

proof fn lemma_ids(b: Seq<u8>, pos: int, es: Seq<Entity>)
    requires
        0 <= pos,
        pos + enc_ids(es).len() <= b.len(),
        b.subrange(pos, pos + enc_ids(es).len()) == enc_ids(es),
    ensures
        parse_ids(b, pos, es.len()) == Some((es, pos + enc_ids(es).len())),
    decreases es.len(),
{
    lemma_auto_spec_u64_to_from_le_bytes();
    if es.len() > 0 {
        let x = enc_ids(es.drop_last());
        let y = le(es.last().spec_bits());
        lemma_split(b, pos, x, y);
        lemma_ids(b, pos, es.drop_last());
        lemma_read(b, pos + x.len(), es.last().spec_bits());
        crate::entity::lemma_bits_round_trip(es.last());
        assert(es.drop_last().push(es.last()) == es);
        assert(parse_ids(b, pos, (es.len() - 1) as nat) == Some((es.drop_last(), pos + x.len())));
    }
}

proof fn lemma_datum(b: Seq<u8>, pos: int, d: Datum)
    requires
        sized_datum(d),
        0 <= pos,
        pos + enc_datum(d).len() <= b.len(),
        b.subrange(pos, pos + enc_datum(d).len()) == enc_datum(d),
    ensures
        parse_datum(b, pos) == Some((d, pos + enc_datum(d).len())),
{
    lemma_auto_spec_u64_to_from_le_bytes();
    let e = enc_datum(d);
    assert(b[pos] == e[0]) by {
        assert(b.subrange(pos, pos + e.len())[0] == b[pos]);
    }
    match d {
        Datum::Unit => {},
        Datum::Int(n) => {
            lemma_split(b, pos, seq![1u8], le(n));
            lemma_read(b, pos + 1, n);
        },
        Datum::Bytes(v) => {
            let h = seq![2u8] + le(v.len() as u64);
            lemma_split(b, pos, h, v);
            lemma_split(b, pos, seq![2u8], le(v.len() as u64));
            lemma_read(b, pos + 1, v.len() as u64);
        },
        Datum::Ref(x) => {
            lemma_split(b, pos, seq![3u8], le(x.spec_bits()));
            lemma_read(b, pos + 1, x.spec_bits());
            crate::entity::lemma_bits_round_trip(x);
        },
        Datum::Refs(es) => {
            let h = seq![4u8] + le(es.len() as u64);
            lemma_split(b, pos, h, enc_ids(es));
            lemma_split(b, pos, seq![4u8], le(es.len() as u64));
            lemma_read(b, pos + 1, es.len() as u64);
            lemma_ids(b, pos + 9, es);
        },
    }
}

proof fn lemma_entries(b: Seq<u8>, pos: int, t: Seq<(u64, Datum)>)
    requires
        sized_table(t),
        0 <= pos,
        pos + enc_entries(t).len() <= b.len(),
        b.subrange(pos, pos + enc_entries(t).len()) == enc_entries(t),
    ensures
        parse_entries(b, pos, t.len()) == Some((t, pos + enc_entries(t).len())),
    decreases t.len(),
{
    lemma_auto_spec_u64_to_from_le_bytes();
    if t.len() > 0 {
        let last = t.last();
        assert(sized_datum(t[t.len() - 1].1));
        let x = enc_entries(t.drop_last());
        let k = le(last.0);
        let v = enc_datum(last.1);
        assert(enc_entries(t) == (x + k) + v);
        lemma_split(b, pos, x + k, v);
        lemma_split(b, pos, x, k);
        assert(sized_table(t.drop_last())) by {
            assert forall|i: int| 0 <= i < t.drop_last().len() implies sized_datum(
                #[trigger] t.drop_last()[i].1,
            ) by {
                assert(sized_datum(t[i].1));
            }
        }
        lemma_entries(b, pos, t.drop_last());
        lemma_read(b, pos + x.len(), last.0);
        lemma_datum(b, pos + x.len() + 8, last.1);
        assert(t.drop_last().push(last) == t);
    }
}

proof fn lemma_table(b: Seq<u8>, pos: int, t: Seq<(u64, Datum)>)
    requires
        sized_table(t),
        0 <= pos,
        pos + enc_table(t).len() <= b.len(),
        b.subrange(pos, pos + enc_table(t).len()) == enc_table(t),
    ensures
        parse_table(b, pos) == Some((t, pos + enc_table(t).len())),
{
    lemma_auto_spec_u64_to_from_le_bytes();
    lemma_split(b, pos, le(t.len() as u64), enc_entries(t));
    lemma_read(b, pos, t.len() as u64);
    lemma_entries(b, pos + 8, t);
}

proof fn lemma_records(b: Seq<u8>, pos: int, rs: Seq<(Entity, Seq<(u64, Datum)>)>)
    requires
        forall|i: int| 0 <= i < rs.len() ==> sized_table(#[trigger] rs[i].1),
        0 <= pos,
        pos + enc_records(rs).len() <= b.len(),
        b.subrange(pos, pos + enc_records(rs).len()) == enc_records(rs),
    ensures
        parse_records(b, pos, rs.len()) == Some((rs, pos + enc_records(rs).len())),
    decreases rs.len(),
{
    lemma_auto_spec_u64_to_from_le_bytes();
    if rs.len() > 0 {
        let last = rs.last();
        assert(sized_table(rs[rs.len() - 1].1));
        let x = enc_records(rs.drop_last());
        let k = le(last.0.spec_bits());
        let v = enc_table(last.1);
        assert(enc_records(rs) == (x + k) + v);
        lemma_split(b, pos, x + k, v);
        lemma_split(b, pos, x, k);
        assert forall|i: int| 0 <= i < rs.drop_last().len() implies sized_table(
            #[trigger] rs.drop_last()[i].1,
        ) by {
            assert(sized_table(rs[i].1));
        }
        lemma_records(b, pos, rs.drop_last());
        lemma_read(b, pos + x.len(), last.0.spec_bits());
        crate::entity::lemma_bits_round_trip(last.0);
        lemma_table(b, pos + x.len() + 8, last.1);
        assert(rs.drop_last().push(last) == rs);
    }
}

/// Decoding the bytes of a snapshot that names no identity twice gives back
/// that snapshot.
pub proof fn lemma_round_trip(s: SnapshotModel)
    requires
        sized(s),
        keys(s.entities).no_duplicates(),
    ensures
        decode(encode(s)) == Some(s),
{
    lemma_auto_spec_u64_to_from_le_bytes();
    let b = encode(s);
    let g = enc_table(s.resources);
    let n = le(s.entities.len() as u64);
    let r = enc_records(s.entities);
    assert(b == (g + n) + r);
    assert(b.subrange(0, b.len() as int) == b);
    lemma_split(b, 0, g + n, r);
    lemma_split(b, 0, g, n);
    lemma_table(b, 0, s.resources);
    lemma_read(b, g.len() as int, s.entities.len() as u64);
    lemma_records(b, g.len() as int + 8, s.entities);
}

} // verus!
