use vstd::prelude::*;

verus! {

/// An ordered table of keyed entries.  A key may occur more than once in the
/// sequence; its latest entry is the one that counts.
pub open spec fn lookup<K, V>(s: Seq<(K, V)>, k: K) -> Option<V>
    decreases s.len(),
{
    if s.len() == 0 {
        None
    } else if s.last().0 == k {
        Some(s.last().1)
    } else {
        lookup(s.drop_last(), k)
    }
}

/// The table with every entry under `k` taken out, the rest in order.
pub open spec fn without<K, V>(s: Seq<(K, V)>, k: K) -> Seq<(K, V)>
    decreases s.len(),
{
    if s.len() == 0 {
        s
    } else if s.last().0 == k {
        without(s.drop_last(), k)
    } else {
        without(s.drop_last(), k).push(s.last())
    }
}

/// The table with `k` bound to `v`: the old binding dropped, the new one last.
pub open spec fn with<K, V>(s: Seq<(K, V)>, k: K, v: V) -> Seq<(K, V)> {
    without(s, k).push((k, v))
}

pub proof fn lemma_push_contains<T>(s: Seq<T>, x: T, j: T)
    ensures
        s.push(x).contains(j) == (s.contains(j) || j == x),
{
    let t = s.push(x);
    if s.contains(j) {
        let a = choose|a: int| 0 <= a < s.len() && s[a] == j;
        assert(t[a] == j);
    }
    if j == x {
        assert(t[s.len() as int] == x);
    }
    if t.contains(j) {
        let a = choose|a: int| 0 <= a < t.len() && t[a] == j;
        if a < s.len() {
            assert(s[a] == j);
        }
    }
}

/// Rebinding the last entry of a key rebinds that key and no other.
pub proof fn lemma_update_lookup<K, V>(s: Seq<(K, V)>, i: int, v: V, j: K)
    requires
        0 <= i < s.len(),
        forall|a: int| i < a < s.len() ==> s[a].0 != s[i].0,
    ensures
        lookup(s.update(i, (s[i].0, v)), j) == (if j == s[i].0 { Some(v) } else { lookup(s, j) }),
    decreases s.len(),
{
    let t = s.update(i, (s[i].0, v));
    if i < s.len() - 1 {
        assert(t.drop_last() == s.drop_last().update(i, (s[i].0, v)));
        lemma_update_lookup(s.drop_last(), i, v, j);
    } else {
        assert(t.drop_last() == s.drop_last());
    }
}

/// A key held by one entry only is bound to that entry's value.
pub proof fn lemma_lookup_unique<K, V>(s: Seq<(K, V)>, j: int)
    requires
        0 <= j < s.len(),
        forall|a: int| 0 <= a < s.len() && a != j ==> s[a].0 != s[j].0,
    ensures
        lookup(s, s[j].0) == Some(s[j].1),
    decreases s.len(),
{
    if j < s.len() - 1 {
        assert forall|a: int| 0 <= a < s.drop_last().len() && a != j implies s.drop_last()[a].0
            != s.drop_last()[j].0 by {
            assert(s[a].0 != s[j].0);
        }
        lemma_lookup_unique(s.drop_last(), j);
        assert(s.last().0 != s[j].0);
    }
}

/// The keys of a table, in order.
pub open spec fn keys<K, V>(s: Seq<(K, V)>) -> Seq<K> {
    s.map_values(|p: (K, V)| p.0)
}

pub proof fn lemma_lookup_none<K, V>(s: Seq<(K, V)>, k: K)
    ensures
        lookup(s, k) is None <==> (forall|i: int| 0 <= i < s.len() ==> s[i].0 != k),
    decreases s.len(),
{
    if s.len() > 0 {
        lemma_lookup_none(s.drop_last(), k);
        if lookup(s, k) is None {
            assert forall|i: int| 0 <= i < s.len() implies s[i].0 != k by {
                if i < s.len() - 1 {
                    assert(s.drop_last()[i] == s[i]);
                }
            }
        } else {
            if s.last().0 != k {
                let i = choose|i: int| 0 <= i < s.drop_last().len() && s.drop_last()[i].0 == k;
                assert(s[i] == s.drop_last()[i]);
            }
        }
    }
}

pub proof fn lemma_without_lookup<K, V>(s: Seq<(K, V)>, k: K, j: K)
    ensures
        lookup(without(s, k), j) == (if j == k { None } else { lookup(s, j) }),
    decreases s.len(),
{
    if s.len() > 0 {
        lemma_without_lookup(s.drop_last(), k, j);
        if s.last().0 != k {
            assert(without(s, k).drop_last() == without(s.drop_last(), k));
        }
    }
}

pub proof fn lemma_with_lookup<K, V>(s: Seq<(K, V)>, k: K, v: V, j: K)
    ensures
        lookup(with(s, k, v), j) == (if j == k { Some(v) } else { lookup(s, j) }),
{
    lemma_without_lookup(s, k, j);
    assert(with(s, k, v).drop_last() == without(s, k));
}

} // verus!
