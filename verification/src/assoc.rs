//! Association lists (vectors of key/value pairs with distinct keys) viewed as
//! finite maps, with the lemmas that relate vector edits to map edits.
use vstd::prelude::*;

verus! {

/// No key occurs twice.
pub open spec fn assoc_unique<K, V>(s: Seq<(K, V)>) -> bool {
    forall|i: int, j: int|
        0 <= i < s.len() && 0 <= j < s.len() && i != j ==> #[trigger] s[i].0 != #[trigger] s[j].0
}

pub open spec fn assoc_has<K, V>(s: Seq<(K, V)>, k: K) -> bool {
    exists|i: int| 0 <= i < s.len() && #[trigger] s[i].0 == k
}

pub open spec fn assoc_index<K, V>(s: Seq<(K, V)>, k: K) -> int {
    choose|i: int| 0 <= i < s.len() && #[trigger] s[i].0 == k
}

/// The pairs as a map.
pub open spec fn assoc_map<K, V>(s: Seq<(K, V)>) -> Map<K, V> {
    Map::new(|k: K| assoc_has(s, k), |k: K| s[assoc_index(s, k)].1)
}

pub proof fn lemma_assoc_at<K, V>(s: Seq<(K, V)>, i: int)
    requires
        assoc_unique(s),
        0 <= i < s.len(),
    ensures
        assoc_map(s).dom().contains(s[i].0),
        assoc_map(s)[s[i].0] == s[i].1,
{
    assert(assoc_has(s, s[i].0));
    let j = assoc_index(s, s[i].0);
    assert(j == i);
}

pub proof fn lemma_assoc_update<K, V>(s: Seq<(K, V)>, i: int, v: V)
    requires
        assoc_unique(s),
        0 <= i < s.len(),
    ensures
        assoc_unique(s.update(i, (s[i].0, v))),
        assoc_map(s.update(i, (s[i].0, v))) == assoc_map(s).insert(s[i].0, v),
{
    let k0 = s[i].0;
    let t = s.update(i, (k0, v));
    let m = assoc_map(s).insert(k0, v);
    assert forall|k: K| #[trigger] assoc_map(t).dom().contains(k) == m.dom().contains(k) by {
        if assoc_has(s, k) {
            let j = assoc_index(s, k);
            assert(t[j].0 == k);
        }
        if assoc_has(t, k) {
            let j = assoc_index(t, k);
            assert(s[j].0 == k);
        }
    }
    assert forall|k: K| m.dom().contains(k) implies #[trigger] assoc_map(t)[k] == m[k] by {
        assert(assoc_map(t).dom().contains(k));
        let j = assoc_index(t, k);
        if k == k0 {
            lemma_assoc_at(t, i);
        } else {
            lemma_assoc_at(t, j);
            lemma_assoc_at(s, j);
        }
    }
    assert(assoc_map(t) =~= m);
}

pub proof fn lemma_assoc_push<K, V>(s: Seq<(K, V)>, k0: K, v: V)
    requires
        assoc_unique(s),
        !assoc_has(s, k0),
    ensures
        assoc_unique(s.push((k0, v))),
        assoc_map(s.push((k0, v))) == assoc_map(s).insert(k0, v),
{
    let t = s.push((k0, v));
    assert forall|i: int, j: int|
        0 <= i < t.len() && 0 <= j < t.len() && i != j implies #[trigger] t[i].0
        != #[trigger] t[j].0 by {
        if i == s.len() {
            assert(s[j].0 == t[j].0);
        } else if j == s.len() {
            assert(s[i].0 == t[i].0);
        }
    }
    let m = assoc_map(s).insert(k0, v);
    assert forall|k: K| #[trigger] assoc_map(t).dom().contains(k) == m.dom().contains(k) by {
        if assoc_has(s, k) {
            let j = assoc_index(s, k);
            assert(t[j].0 == k);
        }
        if assoc_has(t, k) && k != k0 {
            let j = assoc_index(t, k);
            assert(s[j].0 == k);
        }
        if k == k0 {
            assert(t[s.len() as int].0 == k);
        }
    }
    assert forall|k: K| m.dom().contains(k) implies #[trigger] assoc_map(t)[k] == m[k] by {
        if k == k0 {
            lemma_assoc_at(t, s.len() as int);
        } else {
            let j = assoc_index(s, k);
            lemma_assoc_at(t, j);
            lemma_assoc_at(s, j);
        }
    }
    assert(assoc_map(t) =~= m);
}

pub proof fn lemma_assoc_insert_at<K, V>(s: Seq<(K, V)>, p: int, k0: K, v: V)
    requires
        assoc_unique(s),
        !assoc_has(s, k0),
        0 <= p <= s.len(),
    ensures
        assoc_unique(s.insert(p, (k0, v))),
        assoc_map(s.insert(p, (k0, v))) == assoc_map(s).insert(k0, v),
{
    let t = s.insert(p, (k0, v));
    assert forall|i: int| 0 <= i < t.len() && i != p implies #[trigger] t[i] == s[if i < p { i } else { i - 1 }] by {}
    assert forall|i: int, j: int|
        0 <= i < t.len() && 0 <= j < t.len() && i != j implies #[trigger] t[i].0
        != #[trigger] t[j].0 by {
        let si = if i < p { i } else { i - 1 };
        let sj = if j < p { j } else { j - 1 };
        if i == p {
            assert(t[j] == s[sj]);
        } else if j == p {
            assert(t[i] == s[si]);
        } else {
            assert(t[i] == s[si] && t[j] == s[sj]);
        }
    }
    let m = assoc_map(s).insert(k0, v);
    assert forall|k: K| #[trigger] assoc_map(t).dom().contains(k) == m.dom().contains(k) by {
        if assoc_has(s, k) {
            let j = assoc_index(s, k);
            let tj = if j < p { j } else { j + 1 };
            assert(t[tj] == s[j]);
        }
        if assoc_has(t, k) && k != k0 {
            let j = assoc_index(t, k);
            if j != p {
                let sj = if j < p { j } else { j - 1 };
                assert(t[j] == s[sj]);
            }
        }
        if k == k0 {
            assert(t[p].0 == k);
        }
    }
    assert forall|k: K| m.dom().contains(k) implies #[trigger] assoc_map(t)[k] == m[k] by {
        if k == k0 {
            lemma_assoc_at(t, p);
        } else {
            let j = assoc_index(s, k);
            let tj = if j < p { j } else { j + 1 };
            assert(t[tj] == s[j]);
            lemma_assoc_at(t, tj);
            lemma_assoc_at(s, j);
        }
    }
    assert(assoc_map(t) =~= m);
}

pub proof fn lemma_assoc_remove<K, V>(s: Seq<(K, V)>, i: int)
    requires
        assoc_unique(s),
        0 <= i < s.len(),
    ensures
        assoc_unique(s.remove(i)),
        assoc_map(s.remove(i)) == assoc_map(s).remove(s[i].0),
{
    let t = s.remove(i);
    let key = s[i].0;
    assert forall|a: int, b: int|
        0 <= a < t.len() && 0 <= b < t.len() && a != b implies #[trigger] t[a].0
        != #[trigger] t[b].0 by {
        let a2 = if a < i {
            a
        } else {
            a + 1
        };
        let b2 = if b < i {
            b
        } else {
            b + 1
        };
        assert(t[a] == s[a2]);
        assert(t[b] == s[b2]);
    }
    let m = assoc_map(s).remove(key);
    assert forall|k: K| #[trigger] assoc_map(t).dom().contains(k) == m.dom().contains(k) by {
        if assoc_has(t, k) {
            let j = assoc_index(t, k);
            let j2 = if j < i {
                j
            } else {
                j + 1
            };
            assert(t[j] == s[j2]);
            assert(s[j2].0 == k);
        }
        if assoc_has(s, k) && k != key {
            let j = assoc_index(s, k);
            assert(j != i);
            let j2 = if j < i {
                j
            } else {
                j - 1
            };
            assert(t[j2] == s[j]);
        }
    }
    assert forall|k: K| m.dom().contains(k) implies #[trigger] assoc_map(t)[k] == m[k] by {
        let j = assoc_index(s, k);
        assert(j != i);
        let j2 = if j < i {
            j
        } else {
            j - 1
        };
        assert(t[j2] == s[j]);
        lemma_assoc_at(t, j2);
        lemma_assoc_at(s, j);
    }
    assert(assoc_map(t) =~= m);
}

pub proof fn lemma_assoc_empty<K, V>(s: Seq<(K, V)>)
    requires
        s.len() == 0,
    ensures
        assoc_unique(s),
        assoc_map(s) == Map::<K, V>::empty(),
{
    assert(assoc_map(s) =~= Map::<K, V>::empty());
}

pub proof fn lemma_assoc_size<K, V>(s: Seq<(K, V)>)
    requires
        assoc_unique(s),
    ensures
        assoc_map(s).dom().finite(),
        assoc_map(s).dom().len() == s.len(),
    decreases s.len(),
{
    if s.len() == 0 {
        assert(assoc_map(s).dom() =~= Set::<K>::empty());
    } else {
        let i = s.len() - 1;
        lemma_assoc_remove(s, i);
        lemma_assoc_size(s.remove(i));
        lemma_assoc_at(s, i);
        assert(assoc_map(s).remove(s[i].0).dom() =~= assoc_map(s).dom().remove(s[i].0));
    }
}

} // verus!
