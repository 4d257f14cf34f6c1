//! Sequences of records with distinct keys, read as maps, and sorted key sequences.

use vstd::prelude::*;
use crate::text::{lex_lt, lemma_lex_irreflexive, lemma_lex_transitive, lemma_lex_total};

verus! {

/// No two records of `s` share a key.
pub open spec fn keys_unique<T, K>(s: Seq<T>, key: spec_fn(T) -> K) -> bool {
    forall|i: int, j: int| 0 <= i < s.len() && 0 <= j < s.len() && i != j ==> key(s[i]) != key(s[j])
}

/// Some record of `s` has key `k`.
pub open spec fn has_key<T, K>(s: Seq<T>, key: spec_fn(T) -> K, k: K) -> bool {
    exists|i: int| 0 <= i < s.len() && key(#[trigger] s[i]) == k
}

/// The map from each key of `s` to the value of the record that has it.
pub open spec fn keyed_map<T, K, V>(s: Seq<T>, key: spec_fn(T) -> K, val: spec_fn(T) -> V) -> Map<K, V> {
    Map::new(
        |k: K| has_key(s, key, k),
        |k: K| val(s[choose|i: int| 0 <= i < s.len() && key(#[trigger] s[i]) == k]),
    )
}

/// The record at index `i` is what the map holds for its key.
pub proof fn lemma_keyed_lookup<T, K, V>(s: Seq<T>, key: spec_fn(T) -> K, val: spec_fn(T) -> V, i: int)
    requires
        keys_unique(s, key),
        0 <= i < s.len(),
    ensures
        keyed_map(s, key, val).dom().contains(key(s[i])),
        keyed_map(s, key, val)[key(s[i])] == val(s[i]),
{
    let k = key(s[i]);
    assert(has_key(s, key, k));
    let j = choose|j: int| 0 <= j < s.len() && key(#[trigger] s[j]) == k;
    assert(j == i);
}

/// A key that no record has is not in the map.
pub proof fn lemma_keyed_absent<T, K, V>(s: Seq<T>, key: spec_fn(T) -> K, val: spec_fn(T) -> V, k: K)
    requires
        forall|i: int| 0 <= i < s.len() ==> key(#[trigger] s[i]) != k,
    ensures
        !keyed_map(s, key, val).dom().contains(k),
{
}

/// The map of a sequence without records is empty, and only then.
pub proof fn lemma_keyed_empty<T, K, V>(s: Seq<T>, key: spec_fn(T) -> K, val: spec_fn(T) -> V)
    ensures
        (s.len() == 0) <==> (keyed_map(s, key, val).dom() == Set::<K>::empty()),
{
    if s.len() > 0 {
        assert(keyed_map(s, key, val).dom().contains(key(s[0])));
    } else {
        assert(keyed_map(s, key, val).dom() =~= Set::<K>::empty());
    }
}

/// Appending a record with a new key inserts it into the map.
pub proof fn lemma_keyed_push<T, K, V>(s: Seq<T>, key: spec_fn(T) -> K, val: spec_fn(T) -> V, x: T)
    requires
        keys_unique(s, key),
        !has_key(s, key, key(x)),
    ensures
        keys_unique(s.push(x), key),
        keyed_map(s.push(x), key, val) == keyed_map(s, key, val).insert(key(x), val(x)),
{
    let t = s.push(x);
    assert forall|i: int, j: int| 0 <= i < t.len() && 0 <= j < t.len() && i != j implies key(t[i]) != key(t[j]) by {
        if i < s.len() && j < s.len() {
            assert(t[i] == s[i] && t[j] == s[j]);
        } else if i < s.len() {
            assert(t[i] == s[i]);
        } else {
            assert(t[j] == s[j]);
        }
    }
    let m = keyed_map(t, key, val);
    let m0 = keyed_map(s, key, val).insert(key(x), val(x));
    assert forall|k: K| m.dom().contains(k) <==> m0.dom().contains(k) by {
        if m.dom().contains(k) {
            let i = choose|i: int| 0 <= i < t.len() && key(#[trigger] t[i]) == k;
            if i < s.len() {
                assert(t[i] == s[i]);
            }
        }
        if m0.dom().contains(k) && k != key(x) {
            let i = choose|i: int| 0 <= i < s.len() && key(#[trigger] s[i]) == k;
            assert(t[i] == s[i]);
        }
        if k == key(x) {
            assert(t[s.len() as int] == x);
        }
    }
    assert forall|k: K| m.dom().contains(k) implies m[k] == m0[k] by {
        let i = choose|i: int| 0 <= i < t.len() && key(#[trigger] t[i]) == k;
        lemma_keyed_lookup(t, key, val, i);
        if i < s.len() {
            assert(t[i] == s[i]);
            lemma_keyed_lookup(s, key, val, i);
        } else {
            assert(t[i] == x);
        }
    }
    assert(m =~= m0);
}

/// Replacing a record by one with the same key updates the map.
pub proof fn lemma_keyed_update<T, K, V>(s: Seq<T>, key: spec_fn(T) -> K, val: spec_fn(T) -> V, i: int, x: T)
    requires
        keys_unique(s, key),
        0 <= i < s.len(),
        key(x) == key(s[i]),
    ensures
        keys_unique(s.update(i, x), key),
        keyed_map(s.update(i, x), key, val) == keyed_map(s, key, val).insert(key(x), val(x)),
{
    let t = s.update(i, x);
    assert forall|a: int, b: int| 0 <= a < t.len() && 0 <= b < t.len() && a != b implies key(t[a]) != key(t[b]) by {
        if a != i && b != i {
        } else if a == i {
            assert(key(t[a]) == key(s[a]));
        } else {
            assert(key(t[b]) == key(s[b]));
        }
    }
    let m = keyed_map(t, key, val);
    let m0 = keyed_map(s, key, val).insert(key(x), val(x));
    assert forall|k: K| m.dom().contains(k) <==> m0.dom().contains(k) by {
        if m.dom().contains(k) {
            let a = choose|a: int| 0 <= a < t.len() && key(#[trigger] t[a]) == k;
            if a != i {
                assert(t[a] == s[a]);
            }
        }
        if m0.dom().contains(k) && k != key(x) {
            let a = choose|a: int| 0 <= a < s.len() && key(#[trigger] s[a]) == k;
            assert(a != i);
            assert(t[a] == s[a]);
        }
        if k == key(x) {
            assert(t[i] == x);
        }
    }
    assert forall|k: K| m.dom().contains(k) implies m[k] == m0[k] by {
        let a = choose|a: int| 0 <= a < t.len() && key(#[trigger] t[a]) == k;
        lemma_keyed_lookup(t, key, val, a);
        if a != i {
            assert(t[a] == s[a]);
            lemma_keyed_lookup(s, key, val, a);
        }
    }
    assert(m =~= m0);
}

/// Removing the record at `i` removes its key from the map.
pub proof fn lemma_keyed_remove<T, K, V>(s: Seq<T>, key: spec_fn(T) -> K, val: spec_fn(T) -> V, i: int)
    requires
        keys_unique(s, key),
        0 <= i < s.len(),
    ensures
        keys_unique(s.remove(i), key),
        keyed_map(s.remove(i), key, val) == keyed_map(s, key, val).remove(key(s[i])),
{
    let t = s.remove(i);
    assert forall|a: int| 0 <= a < t.len() implies #[trigger] t[a] == (if a < i { s[a] } else { s[a + 1] }) by {}
    assert forall|a: int, b: int| 0 <= a < t.len() && 0 <= b < t.len() && a != b implies key(t[a]) != key(t[b]) by {
        let a2 = if a < i { a } else { a + 1 };
        let b2 = if b < i { b } else { b + 1 };
        assert(t[a] == s[a2] && t[b] == s[b2]);
    }
    let m = keyed_map(t, key, val);
    let m0 = keyed_map(s, key, val).remove(key(s[i]));
    assert forall|k: K| m.dom().contains(k) <==> m0.dom().contains(k) by {
        if m.dom().contains(k) {
            let a = choose|a: int| 0 <= a < t.len() && key(#[trigger] t[a]) == k;
            let a2 = if a < i { a } else { a + 1 };
            assert(t[a] == s[a2]);
        }
        if m0.dom().contains(k) {
            let a = choose|a: int| 0 <= a < s.len() && key(#[trigger] s[a]) == k;
            assert(a != i);
            let a2 = if a < i { a } else { a - 1 };
            assert(t[a2] == s[a]);
        }
    }
    assert forall|k: K| m.dom().contains(k) implies m[k] == m0[k] by {
        let a = choose|a: int| 0 <= a < t.len() && key(#[trigger] t[a]) == k;
        lemma_keyed_lookup(t, key, val, a);
        let a2 = if a < i { a } else { a + 1 };
        assert(t[a] == s[a2]);
        lemma_keyed_lookup(s, key, val, a2);
    }
    assert(m =~= m0);
}

/// Inserting a record with a new key at position `p` inserts it into the map.
pub proof fn lemma_keyed_insert<T, K, V>(s: Seq<T>, key: spec_fn(T) -> K, val: spec_fn(T) -> V, p: int, x: T)
    requires
        keys_unique(s, key),
        !has_key(s, key, key(x)),
        0 <= p <= s.len(),
    ensures
        keys_unique(s.insert(p, x), key),
        keyed_map(s.insert(p, x), key, val) == keyed_map(s, key, val).insert(key(x), val(x)),
{
    let t = s.insert(p, x);
    assert forall|a: int| 0 <= a < t.len() implies #[trigger] t[a] == (if a < p { s[a] } else if a == p { x } else { s[a - 1] }) by {}
    assert forall|a: int, b: int| 0 <= a < t.len() && 0 <= b < t.len() && a != b implies key(t[a]) != key(t[b]) by {
        if a != p && b != p {
            let a2 = if a < p { a } else { a - 1 };
            let b2 = if b < p { b } else { b - 1 };
            assert(t[a] == s[a2] && t[b] == s[b2]);
        } else if a == p {
            let b2 = if b < p { b } else { b - 1 };
            assert(t[b] == s[b2]);
        } else {
            let a2 = if a < p { a } else { a - 1 };
            assert(t[a] == s[a2]);
        }
    }
    let m = keyed_map(t, key, val);
    let m0 = keyed_map(s, key, val).insert(key(x), val(x));
    assert forall|k: K| m.dom().contains(k) <==> m0.dom().contains(k) by {
        if m.dom().contains(k) {
            let a = choose|a: int| 0 <= a < t.len() && key(#[trigger] t[a]) == k;
            if a != p {
                let a2 = if a < p { a } else { a - 1 };
                assert(t[a] == s[a2]);
            }
        }
        if m0.dom().contains(k) && k != key(x) {
            let a = choose|a: int| 0 <= a < s.len() && key(#[trigger] s[a]) == k;
            let a2 = if a < p { a } else { a + 1 };
            assert(t[a2] == s[a]);
        }
        if k == key(x) {
            assert(t[p] == x);
        }
    }
    assert forall|k: K| m.dom().contains(k) implies m[k] == m0[k] by {
        let a = choose|a: int| 0 <= a < t.len() && key(#[trigger] t[a]) == k;
        lemma_keyed_lookup(t, key, val, a);
        if a != p {
            let a2 = if a < p { a } else { a - 1 };
            assert(t[a] == s[a2]);
            lemma_keyed_lookup(s, key, val, a2);
        }
    }
    assert(m =~= m0);
}

/// Each element precedes every later one.
pub open spec fn strictly_sorted(s: Seq<Seq<char>>) -> bool {
    forall|i: int, j: int| 0 <= i < j < s.len() ==> lex_lt(#[trigger] s[i], #[trigger] s[j])
}

/// The ascending sequence of the strings of a finite set.
pub open spec fn sorted_seq_of(set: Set<Seq<char>>) -> Seq<Seq<char>> {
    choose|s: Seq<Seq<char>>| strictly_sorted(s) && s.to_set() == set
}

/// Two ascending sequences with the same elements are equal.
pub proof fn lemma_sorted_unique(s1: Seq<Seq<char>>, s2: Seq<Seq<char>>)
    requires
        strictly_sorted(s1),
        strictly_sorted(s2),
        s1.to_set() == s2.to_set(),
    ensures
        s1 == s2,
    decreases s1.len(),
{
    if s1.len() == 0 {
        if s2.len() > 0 {
            assert(s2.to_set().contains(s2[0]));
        }
        assert(s1 =~= s2);
    } else {
        assert(s1.to_set().contains(s1[0]));
        assert(s2.len() > 0);
        assert(s2.to_set().contains(s2[0]));
        let j = choose|j: int| 0 <= j < s2.len() && s2[j] == s1[0];
        let i = choose|i: int| 0 <= i < s1.len() && s1[i] == s2[0];
        if j > 0 {
            assert(lex_lt(s2[0], s2[j]));
            if i == 0 {
                lemma_lex_irreflexive(s1[0]);
            } else {
                assert(lex_lt(s1[0], s1[i]));
                lemma_lex_transitive(s1[0], s1[i], s1[0]);
                lemma_lex_irreflexive(s1[0]);
            }
        }
        assert(s1[0] == s2[0]);
        let t1 = s1.drop_first();
        let t2 = s2.drop_first();
        assert forall|a: int, b: int| 0 <= a < b < t1.len() implies lex_lt(#[trigger] t1[a], #[trigger] t1[b]) by {
            assert(t1[a] == s1[a + 1] && t1[b] == s1[b + 1]);
        }
        assert forall|a: int, b: int| 0 <= a < b < t2.len() implies lex_lt(#[trigger] t2[a], #[trigger] t2[b]) by {
            assert(t2[a] == s2[a + 1] && t2[b] == s2[b + 1]);
        }
        assert forall|x: Seq<char>| t1.to_set().contains(x) <==> t2.to_set().contains(x) by {
            if t1.to_set().contains(x) {
                let a = choose|a: int| 0 <= a < t1.len() && t1[a] == x;
                assert(s1[a + 1] == x);
                assert(lex_lt(s1[0], s1[a + 1]));
                lemma_lex_irreflexive(x);
                assert(s1.to_set().contains(x));
                let b = choose|b: int| 0 <= b < s2.len() && s2[b] == x;
                assert(b != 0);
                assert(t2[b - 1] == x);
            }
            if t2.to_set().contains(x) {
                let a = choose|a: int| 0 <= a < t2.len() && t2[a] == x;
                assert(s2[a + 1] == x);
                assert(lex_lt(s2[0], s2[a + 1]));
                lemma_lex_irreflexive(x);
                assert(s2.to_set().contains(x));
                let b = choose|b: int| 0 <= b < s1.len() && s1[b] == x;
                assert(b != 0);
                assert(t1[b - 1] == x);
            }
        }
        assert(t1.to_set() =~= t2.to_set());
        lemma_sorted_unique(t1, t2);
        assert(s1 =~= seq![s1[0]] + t1);
        assert(s2 =~= seq![s2[0]] + t2);
    }
}

/// An ascending sequence with the elements of `set` is the one `sorted_seq_of` names.
pub proof fn lemma_sorted_seq_of(s: Seq<Seq<char>>, set: Set<Seq<char>>)
    requires
        strictly_sorted(s),
        s.to_set() == set,
    ensures
        sorted_seq_of(set) == s,
{
    let c = sorted_seq_of(set);
    assert(strictly_sorted(c) && c.to_set() == set);
    lemma_sorted_unique(c, s);
}

} // verus!

verus! {

/// `x` put into its place in an ascending sequence (left out if it is there already).
pub open spec fn sorted_insert(s: Seq<Seq<char>>, x: Seq<char>) -> Seq<Seq<char>>
    decreases s.len(),
{
    if s.len() == 0 {
        seq![x]
    } else if x == s[0] {
        s
    } else if lex_lt(x, s[0]) {
        seq![x] + s
    } else {
        seq![s[0]] + sorted_insert(s.drop_first(), x)
    }
}

/// Putting an element into its place keeps a sequence ascending and adds the element.
pub proof fn lemma_sorted_insert(s: Seq<Seq<char>>, x: Seq<char>)
    requires
        strictly_sorted(s),
    ensures
        strictly_sorted(sorted_insert(s, x)),
        sorted_insert(s, x).to_set() == s.to_set().insert(x),
        sorted_insert(s, x).len() >= 1,
        sorted_insert(s, x)[0] == x || (s.len() > 0 && sorted_insert(s, x)[0] == s[0]),
    decreases s.len(),
{
    let r = sorted_insert(s, x);
    if s.len() == 0 {
        assert(r.to_set() =~= s.to_set().insert(x)) by {
            assert forall|y: Seq<char>| r.to_set().contains(y) <==> s.to_set().insert(x).contains(y) by {
                if r.to_set().contains(y) {
                    let a = choose|a: int| 0 <= a < r.len() && r[a] == y;
                    assert(a == 0);
                }
                if y == x {
                    assert(r[0] == y);
                }
            }
        }
    } else if x == s[0] {
        assert(s.to_set().contains(s[0]));
        assert(r.to_set() =~= s.to_set().insert(x));
    } else if lex_lt(x, s[0]) {
        assert forall|a: int, b: int| 0 <= a < b < r.len() implies lex_lt(#[trigger] r[a], #[trigger] r[b]) by {
            if a == 0 {
                assert(r[b] == s[b - 1]);
                if b - 1 > 0 {
                    assert(lex_lt(s[0], s[b - 1]));
                    lemma_lex_transitive(x, s[0], s[b - 1]);
                }
            } else {
                assert(r[a] == s[a - 1] && r[b] == s[b - 1]);
            }
        }
        assert forall|y: Seq<char>| r.to_set().contains(y) <==> s.to_set().insert(x).contains(y) by {
            if r.to_set().contains(y) {
                let a = choose|a: int| 0 <= a < r.len() && r[a] == y;
                if a > 0 {
                    assert(s[a - 1] == y);
                }
            }
            if s.to_set().contains(y) {
                let a = choose|a: int| 0 <= a < s.len() && s[a] == y;
                assert(r[a + 1] == y);
            }
            if y == x {
                assert(r[0] == y);
            }
        }
        assert(r.to_set() =~= s.to_set().insert(x));
    } else {
        let t = s.drop_first();
        assert forall|a: int, b: int| 0 <= a < b < t.len() implies lex_lt(#[trigger] t[a], #[trigger] t[b]) by {
            assert(t[a] == s[a + 1] && t[b] == s[b + 1]);
        }
        lemma_sorted_insert(t, x);
        let ti = sorted_insert(t, x);
        lemma_lex_total(x, s[0]);
        assert(lex_lt(s[0], x));
        assert forall|a: int, b: int| 0 <= a < b < r.len() implies lex_lt(#[trigger] r[a], #[trigger] r[b]) by {
            if a == 0 {
                assert(r[b] == ti[b - 1]);
                assert(ti.to_set().contains(ti[b - 1]));
                assert(t.to_set().insert(x).contains(ti[b - 1]));
                if ti[b - 1] != x {
                    let k = choose|k: int| 0 <= k < t.len() && t[k] == ti[b - 1];
                    assert(t[k] == s[k + 1]);
                }
            } else {
                assert(r[a] == ti[a - 1] && r[b] == ti[b - 1]);
            }
        }
        assert forall|y: Seq<char>| r.to_set().contains(y) <==> s.to_set().insert(x).contains(y) by {
            if r.to_set().contains(y) {
                let a = choose|a: int| 0 <= a < r.len() && r[a] == y;
                if a > 0 {
                    assert(ti[a - 1] == y);
                    assert(ti.to_set().contains(y));
                    if y != x {
                        let k = choose|k: int| 0 <= k < t.len() && t[k] == y;
                        assert(s[k + 1] == y);
                    }
                }
            }
            if s.to_set().contains(y) {
                let a = choose|a: int| 0 <= a < s.len() && s[a] == y;
                if a > 0 {
                    assert(t[a - 1] == y);
                    assert(t.to_set().contains(y));
                    assert(ti.to_set().contains(y));
                    let k = choose|k: int| 0 <= k < ti.len() && ti[k] == y;
                    assert(r[k + 1] == y);
                } else {
                    assert(r[0] == y);
                }
            }
            if y == x {
                assert(ti.to_set().contains(x));
                let k = choose|k: int| 0 <= k < ti.len() && ti[k] == x;
                assert(r[k + 1] == x);
            }
        }
        assert(r.to_set() =~= s.to_set().insert(x));
    }
}

/// Every finite set of strings has an ascending enumeration, which `sorted_seq_of` names.
pub proof fn lemma_sorted_seq_of_finite(set: Set<Seq<char>>)
    requires
        set.finite(),
    ensures
        strictly_sorted(sorted_seq_of(set)),
        sorted_seq_of(set).to_set() == set,
    decreases set.len(),
{
    if set.len() == 0 {
        let e = Seq::<Seq<char>>::empty();
        assert(set =~= Set::<Seq<char>>::empty());
        assert(e.to_set() =~= set);
        lemma_sorted_seq_of(e, set);
    } else {
        let x = set.choose();
        let rest = set.remove(x);
        lemma_sorted_seq_of_finite(rest);
        let s = sorted_seq_of(rest);
        lemma_sorted_insert(s, x);
        assert(rest.insert(x) =~= set);
        lemma_sorted_seq_of(sorted_insert(s, x), set);
    }
}

} // verus!

verus! {

/// The map of a sequence of records has finitely many keys.
pub proof fn lemma_keyed_finite<T, K, V>(s: Seq<T>, key: spec_fn(T) -> K, val: spec_fn(T) -> V)
    ensures
        keyed_map(s, key, val).dom().finite(),
{
    let ks = s.map_values(|t: T| key(t));
    assert forall|k: K| keyed_map(s, key, val).dom().contains(k) <==> ks.to_set().contains(k) by {
        if keyed_map(s, key, val).dom().contains(k) {
            let i = choose|i: int| 0 <= i < s.len() && key(#[trigger] s[i]) == k;
            assert(ks[i] == k);
        }
        if ks.to_set().contains(k) {
            let i = choose|i: int| 0 <= i < ks.len() && ks[i] == k;
            assert(key(s[i]) == k);
        }
    }
    assert(keyed_map(s, key, val).dom() =~= ks.to_set());
    vstd::seq_lib::seq_to_set_is_finite(ks);
}

} // verus!
