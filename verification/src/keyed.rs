//! Lists of (key, value) pairs with distinct keys, read as finite maps.
use vstd::prelude::*;

verus! {

/// No key occurs twice.
pub open spec fn distinct_keys<K, V>(s: Seq<(K, V)>) -> bool {
    forall|i: int, j: int| 0 <= i < s.len() && 0 <= j < s.len() && i != j ==> s[i].0 != s[j].0
}

/// Some pair has key `k`.
pub open spec fn has_key<K, V>(s: Seq<(K, V)>, k: K) -> bool {
    exists|i: int| 0 <= i < s.len() && s[i].0 == k
}

/// The map that the pairs describe.
pub open spec fn keyed_map<K, V>(s: Seq<(K, V)>) -> Map<K, V> {
    Map::new(
        |k: K| has_key(s, k),
        |k: K| s[choose|i: int| 0 <= i < s.len() && s[i].0 == k].1,
    )
}

/// With distinct keys, the map sends each pair's key to that pair's value.
pub proof fn lemma_keyed_at<K, V>(s: Seq<(K, V)>, i: int)
    requires
        distinct_keys(s),
        0 <= i < s.len(),
    ensures
        keyed_map(s).dom().contains(s[i].0),
        keyed_map(s)[s[i].0] == s[i].1,
{
    assert(has_key(s, s[i].0));
    let j = choose|j: int| 0 <= j < s.len() && s[j].0 == s[i].0;
    assert(j == i);
}

/// Replacing the value of a pair updates the map at its key.
pub proof fn lemma_keyed_update<K, V>(s: Seq<(K, V)>, i: int, v: V)
    requires
        distinct_keys(s),
        0 <= i < s.len(),
    ensures
        distinct_keys(s.update(i, (s[i].0, v))),
        keyed_map(s.update(i, (s[i].0, v))) == keyed_map(s).insert(s[i].0, v),
{
    let k = s[i].0;
    let f = s.update(i, (k, v));
    assert(distinct_keys(f));
    assert forall|x: K| #[trigger] has_key(f, x) == (has_key(s, x) || x == k) by {
        if has_key(f, x) {
            let j = choose|j: int| 0 <= j < f.len() && f[j].0 == x;
            assert(s[j].0 == x);
        }
        if has_key(s, x) {
            let j = choose|j: int| 0 <= j < s.len() && s[j].0 == x;
            assert(f[j].0 == x);
        }
        if x == k {
            assert(f[i].0 == x);
        }
    }
    assert forall|x: K| #[trigger] has_key(f, x) implies keyed_map(f)[x] == keyed_map(s).insert(
        k,
        v,
    )[x] by {
        let j = choose|j: int| 0 <= j < f.len() && f[j].0 == x;
        lemma_keyed_at(f, j);
        if x != k {
            lemma_keyed_at(s, j);
        }
    }
    assert(keyed_map(f) =~= keyed_map(s).insert(k, v));
}

/// Adding a pair with a new key inserts it into the map.
pub proof fn lemma_keyed_push<K, V>(s: Seq<(K, V)>, k: K, v: V)
    requires
        distinct_keys(s),
        !has_key(s, k),
    ensures
        distinct_keys(s.push((k, v))),
        keyed_map(s.push((k, v))) == keyed_map(s).insert(k, v),
{
    let f = s.push((k, v));
    assert forall|a: int, b: int| 0 <= a < f.len() && 0 <= b < f.len() && a != b implies f[a].0
        != f[b].0 by {
        if a == s.len() {
            assert(f[b].0 == s[b].0);
        } else if b == s.len() {
            assert(f[a].0 == s[a].0);
        }
    }
    assert forall|x: K| #[trigger] has_key(f, x) == (has_key(s, x) || x == k) by {
        if has_key(f, x) {
            let j = choose|j: int| 0 <= j < f.len() && f[j].0 == x;
            if j < s.len() {
                assert(s[j].0 == x);
            }
        }
        if has_key(s, x) {
            let j = choose|j: int| 0 <= j < s.len() && s[j].0 == x;
            assert(f[j].0 == x);
        }
        if x == k {
            assert(f[s.len() as int].0 == x);
        }
    }
    assert forall|x: K| #[trigger] has_key(f, x) implies keyed_map(f)[x] == keyed_map(s).insert(
        k,
        v,
    )[x] by {
        let j = choose|j: int| 0 <= j < f.len() && f[j].0 == x;
        lemma_keyed_at(f, j);
        if x != k {
            assert(j < s.len());
            lemma_keyed_at(s, j);
        }
    }
    assert(keyed_map(f) =~= keyed_map(s).insert(k, v));
}

/// With distinct keys the map has one key per pair.
pub proof fn lemma_keyed_len<K, V>(s: Seq<(K, V)>)
    requires
        distinct_keys(s),
    ensures
        keyed_map(s).dom().finite(),
        keyed_map(s).dom().len() == s.len(),
    decreases s.len(),
{
    if s.len() == 0 {
        assert(keyed_map(s).dom() =~= Set::<K>::empty());
    } else {
        let p = s.drop_last();
        assert(distinct_keys(p));
        lemma_keyed_len(p);
        assert(!has_key(p, s.last().0)) by {
            if has_key(p, s.last().0) {
                let j = choose|j: int| 0 <= j < p.len() && p[j].0 == s.last().0;
                assert(s[j].0 == s[s.len() - 1].0);
            }
        }
        lemma_keyed_push(p, s.last().0, s.last().1);
        assert(p.push(s.last()) =~= s);
        assert(keyed_map(s).dom() =~= keyed_map(p).dom().insert(s.last().0));
    }
}

/// Removing the pair at position `i` removes its key from the map.
pub proof fn lemma_keyed_remove<K, V>(s: Seq<(K, V)>, i: int)
    requires
        distinct_keys(s),
        0 <= i < s.len(),
    ensures
        distinct_keys(s.remove(i)),
        keyed_map(s.remove(i)) == keyed_map(s).remove(s[i].0),
{
    let k = s[i].0;
    let f = s.remove(i);
    assert forall|a: int, b: int| 0 <= a < f.len() && 0 <= b < f.len() && a != b implies f[a].0
        != f[b].0 by {
        let sa = if a < i { a } else { a + 1 };
        let sb = if b < i { b } else { b + 1 };
        assert(f[a] == s[sa] && f[b] == s[sb]);
    }
    assert forall|x: K| #[trigger] has_key(f, x) == (has_key(s, x) && x != k) by {
        if has_key(f, x) {
            let j = choose|j: int| 0 <= j < f.len() && f[j].0 == x;
            let sj = if j < i { j } else { j + 1 };
            assert(s[sj].0 == x);
            assert(sj != i);
        }
        if has_key(s, x) && x != k {
            let j = choose|j: int| 0 <= j < s.len() && s[j].0 == x;
            assert(j != i);
            if j < i {
                assert(f[j].0 == x);
            } else {
                assert(f[j - 1].0 == x);
            }
        }
    }
    assert forall|x: K| #[trigger] has_key(f, x) implies keyed_map(f)[x] == keyed_map(s).remove(k)[x] by {
        let j = choose|j: int| 0 <= j < f.len() && f[j].0 == x;
        lemma_keyed_at(f, j);
        let sj = if j < i { j } else { j + 1 };
        assert(f[j] == s[sj]);
        lemma_keyed_at(s, sj);
    }
    assert(keyed_map(f) =~= keyed_map(s).remove(k));
}

/// Inserting a pair with a new key at position `p` inserts it into the map.
pub proof fn lemma_keyed_insert<K, V>(s: Seq<(K, V)>, p: int, k: K, v: V)
    requires
        distinct_keys(s),
        !has_key(s, k),
        0 <= p <= s.len(),
    ensures
        distinct_keys(s.insert(p, (k, v))),
        keyed_map(s.insert(p, (k, v))) == keyed_map(s).insert(k, v),
{
    let f = s.insert(p, (k, v));
    assert forall|a: int, b: int| 0 <= a < f.len() && 0 <= b < f.len() && a != b implies f[a].0
        != f[b].0 by {
        if a == p {
            let sb = if b < p { b } else { b - 1 };
            assert(f[b] == s[sb]);
        } else if b == p {
            let sa = if a < p { a } else { a - 1 };
            assert(f[a] == s[sa]);
        } else {
            let sa = if a < p { a } else { a - 1 };
            let sb = if b < p { b } else { b - 1 };
            assert(f[a] == s[sa] && f[b] == s[sb]);
        }
    }
    assert forall|x: K| #[trigger] has_key(f, x) == (has_key(s, x) || x == k) by {
        if has_key(f, x) {
            let j = choose|j: int| 0 <= j < f.len() && f[j].0 == x;
            if j != p {
                let sj = if j < p { j } else { j - 1 };
                assert(s[sj].0 == x);
            }
        }
        if has_key(s, x) {
            let j = choose|j: int| 0 <= j < s.len() && s[j].0 == x;
            if j < p {
                assert(f[j].0 == x);
            } else {
                assert(f[j + 1].0 == x);
            }
        }
        if x == k {
            assert(f[p].0 == x);
        }
    }
    assert forall|x: K| #[trigger] has_key(f, x) implies keyed_map(f)[x] == keyed_map(s).insert(
        k,
        v,
    )[x] by {
        let j = choose|j: int| 0 <= j < f.len() && f[j].0 == x;
        lemma_keyed_at(f, j);
        if x != k {
            assert(j != p);
            let sj = if j < p { j } else { j - 1 };
            assert(f[j] == s[sj]);
            lemma_keyed_at(s, sj);
        }
    }
    assert(keyed_map(f) =~= keyed_map(s).insert(k, v));
}

} // verus!
