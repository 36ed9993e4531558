use vstd::prelude::*;

use crate::entity::Entity;
use crate::table::{lookup, with, without};
use crate::value::{copy_table, get_value, model, remove_key, Attachments, Datum, Value};
use crate::world::World;

verus! {

/// A transform from an attachment to its surrogate (or back).
pub trait MapComponent {
    spec fn mapped(&self, d: Datum) -> Datum;

    fn map_component(&self, v: &Value) -> (r: Value)
        ensures
            r@ == self.mapped(v@),
    ;
}

/// The transform that keeps the data and only changes the type key under
/// which it is attached.
#[derive(Clone, Copy, Debug)]
pub struct Retag;

impl MapComponent for Retag {
    open spec fn mapped(&self, d: Datum) -> Datum {
        d
    }

    fn map_component(&self, v: &Value) -> (r: Value) {
        v.copy()
    }
}

/// One rule of a mapper: attachments of type `input` are transformed into
/// surrogates of type `output`.
#[derive(Clone, Copy, Debug)]
pub struct MapRule<M> {
    pub input: u64,
    pub output: u64,
    pub transform: M,
}

/// The table after one rule: the surrogate is added beside the source.
pub open spec fn apply_rule<M: MapComponent>(t: Seq<(u64, Datum)>, r: MapRule<M>) -> Seq<(u64, Datum)> {
    match lookup(t, r.input) {
        Some(d) => with(t, r.output, r.transform.mapped(d)),
        None => t,
    }
}

/// The table after one rule, the source taken off.
pub open spec fn replace_rule<M: MapComponent>(t: Seq<(u64, Datum)>, r: MapRule<M>) -> Seq<
    (u64, Datum),
> {
    match lookup(t, r.input) {
        Some(d) => with(without(t, r.input), r.output, r.transform.mapped(d)),
        None => t,
    }
}

/// The rules applied in order.
pub open spec fn apply_all<M: MapComponent>(t: Seq<(u64, Datum)>, rs: Seq<MapRule<M>>) -> Seq<
    (u64, Datum),
>
    decreases rs.len(),
{
    if rs.len() == 0 {
        t
    } else {
        apply_rule(apply_all(t, rs.drop_last()), rs.last())
    }
}

/// The rules applied in order, each consuming its source.
pub open spec fn replace_all<M: MapComponent>(t: Seq<(u64, Datum)>, rs: Seq<MapRule<M>>) -> Seq<
    (u64, Datum),
>
    decreases rs.len(),
{
    if rs.len() == 0 {
        t
    } else {
        replace_rule(replace_all(t, rs.drop_last()), rs.last())
    }
}

/// Every attachment of a surrogate type taken off, the rest in order.
pub open spec fn undo_all<M>(t: Seq<(u64, Datum)>, rs: Seq<MapRule<M>>) -> Seq<(u64, Datum)>
    decreases t.len(),
{
    if t.len() == 0 {
        t
    } else if is_output(rs, t.last().0) {
        undo_all(t.drop_last(), rs)
    } else {
        undo_all(t.drop_last(), rs).push(t.last())
    }
}

/// Whether `k` is the surrogate type of some rule.
pub open spec fn is_output<M>(rs: Seq<MapRule<M>>, k: u64) -> bool {
    exists|i: int| 0 <= i < rs.len() && rs[i].output == k
}

/// The position of the rule for source type `input`, or -1.
pub open spec fn rule_slot<M>(rs: Seq<MapRule<M>>, input: u64) -> int
    decreases rs.len(),
{
    if rs.len() == 0 {
        -1
    } else if rs.last().input == input {
        rs.len() - 1
    } else {
        rule_slot(rs.drop_last(), input)
    }
}

/// The rules with `rule` added: in place of the rule for the same source
/// type, or last.
pub open spec fn add_rule<M>(rs: Seq<MapRule<M>>, rule: MapRule<M>) -> Seq<MapRule<M>> {
    let i = rule_slot(rs, rule.input);
    if i >= 0 {
        rs.update(i, rule)
    } else {
        rs.push(rule)
    }
}

/// An ordered list of rules, at most one for each source type.
pub struct SceneMapper<M> {
    rules: Vec<MapRule<M>>,
}

impl<M: MapComponent> SceneMapper<M> {
    pub closed spec fn rules(&self) -> Seq<MapRule<M>> {
        self.rules@
    }

    pub fn new() -> (r: SceneMapper<M>)
        ensures
            r.rules().len() == 0,
    {
        SceneMapper { rules: Vec::new() }
    }

    /// Adds a rule.  A rule for the same source type is replaced in place;
    /// otherwise the new rule runs last.
    pub fn map(self, input: u64, output: u64, transform: M) -> (r: SceneMapper<M>)
        ensures
            r.rules() == add_rule(self.rules(), MapRule { input, output, transform }),
    {
        let mut rules = self.rules;
        assert(rules@.take(rules.len() as int) == rules@);
        let mut i: usize = rules.len();
        while i > 0
            invariant
                i <= rules.len(),
                rules@ == self.rules(),
                rule_slot(rules@, input) == rule_slot(rules@.take(i as int), input),
            decreases i,
        {
            assert(rules@.take(i as int).drop_last() == rules@.take(i - 1));
            if rules[i - 1].input == input {
                rules.set(i - 1, MapRule { input, output, transform });
                return SceneMapper { rules };
            }
            i = i - 1;
        }
        rules.push(MapRule { input, output, transform });
        SceneMapper { rules }
    }

    /// The table with every rule's surrogate added beside its source.
    pub fn apply_to(&self, t: &Attachments) -> (r: Attachments)
        ensures
            model(r@) == apply_all(model(t@), self.rules()),
    {
        let mut cur = copy_table(t);
        let mut i: usize = 0;
        while i < self.rules.len()
            invariant
                i <= self.rules.len(),
                model(cur@) == apply_all(model(t@), self.rules@.take(i as int)),
            decreases self.rules.len() - i,
        {
            assert(self.rules@.take(i + 1).drop_last() == self.rules@.take(i as int));
            let rule = &self.rules[i];
            match get_value(&cur, rule.input) {
                Some(v) => {
                    let s = rule.transform.map_component(&v);
                    let mut next = remove_key(&cur, rule.output);
                    let ghost mid = next@;
                    next.push((rule.output, s));
                    assert(model(next@) =~= model(mid).push((rule.output, s@)));
                    cur = next;
                },
                None => {},
            }
            i = i + 1;
        }
        assert(self.rules@.take(self.rules.len() as int) == self.rules@);
        cur
    }

    /// The table with every rule's source replaced by its surrogate.
    pub fn replace_in(&self, t: &Attachments) -> (r: Attachments)
        ensures
            model(r@) == replace_all(model(t@), self.rules()),
    {
        let mut cur = copy_table(t);
        let mut i: usize = 0;
        while i < self.rules.len()
            invariant
                i <= self.rules.len(),
                model(cur@) == replace_all(model(t@), self.rules@.take(i as int)),
            decreases self.rules.len() - i,
        {
            assert(self.rules@.take(i + 1).drop_last() == self.rules@.take(i as int));
            let rule = &self.rules[i];
            match get_value(&cur, rule.input) {
                Some(v) => {
                    let s = rule.transform.map_component(&v);
                    let taken = remove_key(&cur, rule.input);
                    let mut next = remove_key(&taken, rule.output);
                    let ghost mid = next@;
                    next.push((rule.output, s));
                    assert(model(next@) =~= model(mid).push((rule.output, s@)));
                    cur = next;
                },
                None => {},
            }
            i = i + 1;
        }
        assert(self.rules@.take(self.rules.len() as int) == self.rules@);
        cur
    }

    /// Whether `k` is the surrogate type of some rule.
    pub fn is_output_key(&self, k: u64) -> (r: bool)
        ensures
            r == is_output(self.rules(), k),
    {
        let mut i: usize = 0;
        while i < self.rules.len()
            invariant
                i <= self.rules.len(),
                forall|j: int| 0 <= j < i ==> self.rules@[j].output != k,
            decreases self.rules.len() - i,
        {
            if self.rules[i].output == k {
                return true;
            }
            i = i + 1;
        }
        false
    }

    /// The table with every attachment of a surrogate type taken off.
    pub fn undo_in(&self, t: &Attachments) -> (r: Attachments)
        ensures
            model(r@) == undo_all(model(t@), self.rules()),
    {
        let mut r: Attachments = Vec::new();
        let mut i: usize = 0;
        while i < t.len()
            invariant
                i <= t.len(),
                model(r@) == undo_all(model(t@).take(i as int), self.rules()),
            decreases t.len() - i,
        {
            assert(model(t@).take(i + 1).drop_last() == model(t@).take(i as int));
            if !self.is_output_key(t[i].0) {
                let ghost before = r@;
                r.push((t[i].0, t[i].1.copy()));
                assert(model(r@) =~= model(before).push((t@[i as int].0, t@[i as int].1@)));
            }
            i = i + 1;
        }
        assert(model(t@).take(t.len() as int) == model(t@));
        r
    }
}

/// Which of the three mapper passes runs.
#[derive(Clone, Copy, Debug, PartialEq, Eq, Structural)]
pub enum MapPass {
    Apply,
    Replace,
    Undo,
}

/// A table after one pass.
pub open spec fn pass_table<M: MapComponent>(p: MapPass, t: Seq<(u64, Datum)>, rs: Seq<MapRule<M>>) -> Seq<
    (u64, Datum),
> {
    match p {
        MapPass::Apply => apply_all(t, rs),
        MapPass::Replace => replace_all(t, rs),
        MapPass::Undo => undo_all(t, rs),
    }
}

/// The store after one pass over the listed entities: each listed live
/// entity's table is passed, everything else stays.
pub open spec fn passed<M: MapComponent>(
    p: MapPass,
    before: Seq<(Entity, Seq<(u64, Datum)>)>,
    after: Seq<(Entity, Seq<(u64, Datum)>)>,
    es: Seq<Entity>,
    rs: Seq<MapRule<M>>,
) -> bool {
    forall|x: Entity|
        #![trigger lookup(after, x)]
        lookup(after, x) == if es.contains(x) && lookup(before, x) is Some {
            Some(pass_table(p, lookup(before, x).unwrap(), rs))
        } else {
            lookup(before, x)
        }
}

impl<M: MapComponent> SceneMapper<M> {
    pub fn pass_in(&self, p: MapPass, t: &Attachments) -> (r: Attachments)
        ensures
            model(r@) == pass_table(p, model(t@), self.rules()),
    {
        match p {
            MapPass::Apply => self.apply_to(t),
            MapPass::Replace => self.replace_in(t),
            MapPass::Undo => self.undo_in(t),
        }
    }

    /// Runs one pass over each listed entity of the store; entities that
    /// are not live are skipped.
    pub fn pass(&self, p: MapPass, world: &mut World, es: &Vec<Entity>)
        requires
            old(world).wf(),
            es@.no_duplicates(),
        ensures
            final(world).wf(),
            final(world).globals() == old(world).globals(),
            final(world).live() == old(world).live(),
            final(world).next() == old(world).next(),
            passed(p, old(world)@, final(world)@, es@, self.rules()),
    {
        let ghost before = world@;
        let mut i: usize = 0;
        while i < es.len()
            invariant
                i <= es.len(),
                world.wf(),
                es@.no_duplicates(),
                world.globals() == old(world).globals(),
                world.live() == old(world).live(),
                world.next() == old(world).next(),
                before == old(world)@,
                passed(p, before, world@, es@.take(i as int), self.rules()),
            decreases es.len() - i,
        {
            let e = es[i];
            proof {
                assert(!es@.take(i as int).contains(e)) by {
                    if es@.take(i as int).contains(e) {
                        let a = choose|a: int| 0 <= a < i && es@.take(i as int)[a] == e;
                        assert(es@[a] == es@[i as int]);
                    }
                }
                assert(lookup(world@, e) == lookup(before, e));
            }
            let ghost mid = world@;
            match world.attachments(e) {
                Some(t) => {
                    let n = self.pass_in(p, &t);
                    world.set_attachments(e, n);
                },
                None => {},
            }
            proof {
                assert forall|x: Entity| #[trigger] lookup(world@, x) == if es@.take(i + 1).contains(x)
                    && lookup(before, x) is Some {
                    Some(pass_table(p, lookup(before, x).unwrap(), self.rules()))
                } else {
                    lookup(before, x)
                } by {
                    crate::table::lemma_push_contains(es@.take(i as int), e, x);
                    assert(es@.take(i + 1) == es@.take(i as int).push(e));
                    assert(lookup(mid, x) == lookup(world@, x) || x == e);
                }
            }
            i = i + 1;
        }
        assert(es@.take(es.len() as int) == es@);
    }
}

} // verus!
