//! Tables held as vectors of (key, value) pairs whose keys are distinct.

use vstd::prelude::*;

verus! {

/// No key occurs twice.
pub open spec fn keys_unique<K, V>(s: Seq<(K, V)>) -> bool {
    forall|i: int, j: int| 0 <= i < s.len() && 0 <= j < s.len() && i != j ==> s[i].0 != s[j].0
}

/// `k` is the key of some entry.
pub open spec fn has_key<K, V>(s: Seq<(K, V)>, k: K) -> bool {
    exists|i: int| 0 <= i < s.len() && s[i].0 == k
}

/// The map that the entries stand for.
pub open spec fn table_map<K, V>(s: Seq<(K, V)>) -> Map<K, V> {
    Map::new(
        |k: K| has_key(s, k),
        |k: K| s[choose|i: int| 0 <= i < s.len() && s[i].0 == k].1,
    )
}

pub proof fn lemma_table_lookup<K, V>(s: Seq<(K, V)>, j: int)
    requires
        keys_unique(s),
        0 <= j < s.len(),
    ensures
        table_map(s).contains_key(s[j].0),
        table_map(s)[s[j].0] == s[j].1,
{
    assert(has_key(s, s[j].0));
    let i = choose|i: int| 0 <= i < s.len() && s[i].0 == s[j].0;
    assert(i == j);
}

pub proof fn lemma_table_set<K, V>(s: Seq<(K, V)>, j: int, v: V)
    requires
        keys_unique(s),
        0 <= j < s.len(),
    ensures
        keys_unique(s.update(j, (s[j].0, v))),
        table_map(s.update(j, (s[j].0, v))) == table_map(s).insert(s[j].0, v),
{
    let t = s.update(j, (s[j].0, v));
    assert forall|k: K| #[trigger] has_key(t, k) == has_key(s, k) by {
        if has_key(t, k) {
            let i = choose|i: int| 0 <= i < t.len() && t[i].0 == k;
            assert(s[i].0 == k);
        }
        if has_key(s, k) {
            let i = choose|i: int| 0 <= i < s.len() && s[i].0 == k;
            assert(t[i].0 == k);
        }
    }
    assert forall|k: K| has_key(t, k) implies #[trigger] table_map(t)[k] == table_map(s).insert(
        s[j].0,
        v,
    )[k] by {
        let i = choose|i: int| 0 <= i < t.len() && t[i].0 == k;
        let i2 = choose|i: int| 0 <= i < s.len() && s[i].0 == k;
        assert(s[i].0 == k);
        assert(i == i2);
    }
    assert(table_map(t) =~= table_map(s).insert(s[j].0, v));
}

pub proof fn lemma_table_push<K, V>(s: Seq<(K, V)>, k: K, v: V)
    requires
        keys_unique(s),
        !has_key(s, k),
    ensures
        keys_unique(s.push((k, v))),
        table_map(s.push((k, v))) == table_map(s).insert(k, v),
{
    let t = s.push((k, v));
    assert forall|q: K| #[trigger] has_key(t, q) == (has_key(s, q) || q == k) by {
        if has_key(t, q) {
            let i = choose|i: int| 0 <= i < t.len() && t[i].0 == q;
            if i < s.len() {
                assert(s[i].0 == q);
            }
        }
        if has_key(s, q) {
            let i = choose|i: int| 0 <= i < s.len() && s[i].0 == q;
            assert(t[i].0 == q);
        }
        if q == k {
            assert(t[s.len() as int].0 == q);
        }
    }
    assert forall|q: K| has_key(t, q) implies #[trigger] table_map(t)[q] == table_map(s).insert(
        k,
        v,
    )[q] by {
        let i = choose|i: int| 0 <= i < t.len() && t[i].0 == q;
        if q == k {
            assert(i == s.len());
        } else {
            let i2 = choose|i: int| 0 <= i < s.len() && s[i].0 == q;
            assert(t[i2].0 == q);
            assert(i == i2);
        }
    }
    assert(table_map(t) =~= table_map(s).insert(k, v));
}

} // verus!

verus! {

pub proof fn lemma_push_contains<A>(s: Seq<A>, x: A)
    ensures
        forall|y: A| #[trigger] s.push(x).contains(y) <==> (s.contains(y) || y == x),
{
    assert forall|y: A| #[trigger] s.push(x).contains(y) <==> (s.contains(y) || y == x) by {
        if s.contains(y) {
            let i = choose|i: int| 0 <= i < s.len() && s[i] == y;
            assert(s.push(x)[i] == y);
        }
        if y == x {
            assert(s.push(x)[s.len() as int] == y);
        }
        if s.push(x).contains(y) {
            let i = choose|i: int| 0 <= i < s.len() + 1 && s.push(x)[i] == y;
            if i < s.len() {
                assert(s[i] == y);
            }
        }
    }
}

} // verus!
