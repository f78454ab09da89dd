//! Association lists with distinct keys, and the maps they stand for.
use vstd::prelude::*;

verus! {

/// Keys in an association list are distinct.
pub open spec fn keys_unique<K, V>(s: Seq<(K, V)>) -> bool {
    forall|i: int, j: int| 0 <= i < s.len() && 0 <= j < s.len() && i != j ==> s[i].0 != s[j].0
}

/// The map that an association list with distinct keys stands for.
pub open spec fn assoc_map<K, V>(s: Seq<(K, V)>) -> Map<K, V> {
    Map::new(
        |k: K| exists|i: int| 0 <= i < s.len() && s[i].0 == k,
        |k: K| s[choose|i: int| 0 <= i < s.len() && s[i].0 == k].1,
    )
}

pub proof fn lemma_assoc_at<K, V>(s: Seq<(K, V)>, i: int)
    requires
        keys_unique(s),
        0 <= i < s.len(),
    ensures
        assoc_map(s).contains_key(s[i].0),
        assoc_map(s)[s[i].0] == s[i].1,
{
    let k = s[i].0;
    assert(exists|j: int| 0 <= j < s.len() && s[j].0 == k);
    let j = choose|j: int| 0 <= j < s.len() && s[j].0 == k;
    assert(j == i);
}

pub proof fn lemma_assoc_update<K, V>(s: Seq<(K, V)>, i: int, v: V)
    requires
        keys_unique(s),
        0 <= i < s.len(),
    ensures
        keys_unique(s.update(i, (s[i].0, v))),
        assoc_map(s.update(i, (s[i].0, v))) == assoc_map(s).insert(s[i].0, v),
{
    let t = s.update(i, (s[i].0, v));
    assert forall|k: K| #[trigger] assoc_map(t).contains_key(k) implies assoc_map(s).insert(
        s[i].0,
        v,
    ).contains_key(k) && assoc_map(t)[k] == assoc_map(s).insert(s[i].0, v)[k] by {
        let j = choose|j: int| 0 <= j < t.len() && t[j].0 == k;
        lemma_assoc_at(t, j);
        if j != i {
            lemma_assoc_at(s, j);
        }
    }
    assert forall|k: K| #[trigger] assoc_map(s).insert(s[i].0, v).contains_key(k)
        implies assoc_map(t).contains_key(k) by {
        if k != s[i].0 {
            let j = choose|j: int| 0 <= j < s.len() && s[j].0 == k;
            assert(t[j].0 == k);
        } else {
            assert(t[i].0 == k);
        }
    }
    assert(assoc_map(t) =~= assoc_map(s).insert(s[i].0, v));
}

pub proof fn lemma_assoc_push<K, V>(s: Seq<(K, V)>, k: K, v: V)
    requires
        keys_unique(s),
        !assoc_map(s).contains_key(k),
    ensures
        keys_unique(s.push((k, v))),
        assoc_map(s.push((k, v))) == assoc_map(s).insert(k, v),
{
    let t = s.push((k, v));
    assert forall|i: int| 0 <= i < s.len() implies s[i].0 != k by {
        if s[i].0 == k {
            assert(assoc_map(s).contains_key(k));
        }
    }
    assert(keys_unique(t));
    assert forall|x: K| #[trigger] assoc_map(t).contains_key(x) implies assoc_map(s).insert(
        k,
        v,
    ).contains_key(x) && assoc_map(t)[x] == assoc_map(s).insert(k, v)[x] by {
        let j = choose|j: int| 0 <= j < t.len() && t[j].0 == x;
        lemma_assoc_at(t, j);
        if j < s.len() {
            lemma_assoc_at(s, j);
        }
    }
    assert forall|x: K| #[trigger] assoc_map(s).insert(k, v).contains_key(x)
        implies assoc_map(t).contains_key(x) by {
        if x != k {
            let j = choose|j: int| 0 <= j < s.len() && s[j].0 == x;
            assert(t[j].0 == x);
        } else {
            assert(t[s.len() as int].0 == x);
        }
    }
    assert(assoc_map(t) =~= assoc_map(s).insert(k, v));
}

pub proof fn lemma_assoc_remove<K, V>(s: Seq<(K, V)>, i: int)
    requires
        keys_unique(s),
        0 <= i < s.len(),
    ensures
        keys_unique(s.remove(i)),
        assoc_map(s.remove(i)) == assoc_map(s).remove(s[i].0),
{
    let t = s.remove(i);
    let k = s[i].0;
    assert(keys_unique(t));
    assert forall|x: K| #[trigger] assoc_map(t).contains_key(x) implies assoc_map(s).remove(
        k,
    ).contains_key(x) && assoc_map(t)[x] == assoc_map(s).remove(k)[x] by {
        let j = choose|j: int| 0 <= j < t.len() && t[j].0 == x;
        lemma_assoc_at(t, j);
        if j < i {
            lemma_assoc_at(s, j);
        } else {
            lemma_assoc_at(s, j + 1);
        }
    }
    assert forall|x: K| #[trigger] assoc_map(s).remove(k).contains_key(x)
        implies assoc_map(t).contains_key(x) by {
        let j = choose|j: int| 0 <= j < s.len() && s[j].0 == x;
        assert(j != i);
        if j < i {
            assert(t[j].0 == x);
        } else {
            assert(t[j - 1].0 == x);
        }
    }
    assert(assoc_map(t) =~= assoc_map(s).remove(k));
}

} // verus!
