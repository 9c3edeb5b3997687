//! Maps extended by a run of entries, and what is known of the result.

use vstd::prelude::*;

verus! {

/// `m` with `vals[i]` stored under `keys[i]` for every `i`, later entries winning.
pub open spec fn insert_all<V>(m: Map<usize, V>, keys: Seq<usize>, vals: Seq<V>) -> Map<usize, V>
    decreases keys.len(),
{
    if keys.len() == 0 {
        m
    } else {
        insert_all(m, keys.drop_last(), vals.drop_last()).insert(keys.last(), vals.last())
    }
}

/// Storing one more entry after a run is storing the longer run.
pub proof fn lemma_insert_all_push<V>(m: Map<usize, V>, keys: Seq<usize>, vals: Seq<V>, k: usize, v: V)
    requires
        keys.len() == vals.len(),
    ensures
        insert_all(m, keys.push(k), vals.push(v)) == insert_all(m, keys, vals).insert(k, v),
{
    assert(keys.push(k).drop_last() =~= keys);
    assert(vals.push(v).drop_last() =~= vals);
}

/// The keys of an extended map are the old keys and the new ones.
pub proof fn lemma_insert_all_dom<V>(m: Map<usize, V>, keys: Seq<usize>, vals: Seq<V>)
    requires
        keys.len() == vals.len(),
    ensures
        forall|x: usize| #[trigger]
            insert_all(m, keys, vals).dom().contains(x) <==> m.dom().contains(x) || keys.contains(
                x,
            ),
        forall|x: usize|
            !keys.contains(x) && m.dom().contains(x) ==> #[trigger] insert_all(m, keys, vals)[x]
                == m[x],
    decreases keys.len(),
{
    if keys.len() > 0 {
        let k0 = keys.drop_last();
        let v0 = vals.drop_last();
        let prev = insert_all(m, k0, v0);
        let last = keys.last();
        lemma_insert_all_dom(m, k0, v0);
        assert(insert_all(m, keys, vals) == prev.insert(last, vals.last()));
        assert(keys[keys.len() - 1] == last);
        assert forall|x: usize| k0.contains(x) implies keys.contains(x) by {
            let i = choose|i: int| 0 <= i < k0.len() && k0[i] == x;
            assert(keys[i] == x);
        }
        assert forall|x: usize| keys.contains(x) implies k0.contains(x) || x == last by {
            let i = choose|i: int| 0 <= i < keys.len() && keys[i] == x;
            if i < keys.len() - 1 {
                assert(k0[i] == x);
            }
        }
        assert forall|x: usize| #[trigger]
            insert_all(m, keys, vals).dom().contains(x) <==> m.dom().contains(x) || keys.contains(
                x,
            ) by {
            assert(prev.dom().contains(x) <==> m.dom().contains(x) || k0.contains(x));
        }
        assert forall|x: usize| !keys.contains(x) && m.dom().contains(x) implies #[trigger] insert_all(
            m,
            keys,
            vals,
        )[x] == m[x] by {
            assert(x != last);
            assert(!k0.contains(x));
            assert(prev[x] == m[x]);
        }
    }
}

/// Where no key repeats, each new key holds its own value.
pub proof fn lemma_insert_all_get<V>(m: Map<usize, V>, keys: Seq<usize>, vals: Seq<V>, i: int)
    requires
        keys.len() == vals.len(),
        keys.no_duplicates(),
        0 <= i < keys.len(),
    ensures
        insert_all(m, keys, vals).dom().contains(keys[i]),
        insert_all(m, keys, vals)[keys[i]] == vals[i],
    decreases keys.len(),
{
    if i < keys.len() - 1 {
        let k0 = keys.drop_last();
        let v0 = vals.drop_last();
        assert(k0.no_duplicates());
        lemma_insert_all_get(m, k0, v0, i);
        assert(k0[i] == keys[i]);
        assert(v0[i] == vals[i]);
        assert(keys[i] != keys.last());
    }
}

/// `n` is `m` with `vals[i]` stored under `keys[i]`, the keys distinct.
pub open spec fn updated_by<V>(m: Map<usize, V>, n: Map<usize, V>, keys: Seq<usize>, vals: Seq<V>) -> bool {
    &&& keys.len() == vals.len()
    &&& keys.no_duplicates()
    &&& forall|x: usize| #[trigger] n.dom().contains(x) <==> m.dom().contains(x) || keys.contains(x)
    &&& forall|x: usize| m.dom().contains(x) && !keys.contains(x) ==> #[trigger] n[x] == m[x]
    &&& forall|i: int| 0 <= i < keys.len() ==> n[#[trigger] keys[i]] == vals[i]
}

/// `n` is `m` with `vals[i]` stored under `keys[i]`, the keys distinct and new to `m`.
pub open spec fn extends_by<V>(m: Map<usize, V>, n: Map<usize, V>, keys: Seq<usize>, vals: Seq<V>) -> bool {
    &&& updated_by(m, n, keys, vals)
    &&& forall|i: int| 0 <= i < keys.len() ==> !m.dom().contains(#[trigger] keys[i])
}

/// A run of distinct keys stored one after the other updates the map by that run.
pub proof fn lemma_insert_all_updates<V>(m: Map<usize, V>, keys: Seq<usize>, vals: Seq<V>)
    requires
        keys.len() == vals.len(),
        keys.no_duplicates(),
    ensures
        updated_by(m, insert_all(m, keys, vals), keys, vals),
{
    let n = insert_all(m, keys, vals);
    lemma_insert_all_dom(m, keys, vals);
    assert forall|i: int| 0 <= i < keys.len() implies n[#[trigger] keys[i]] == vals[i] by {
        lemma_insert_all_get(m, keys, vals, i);
    }
}

/// Two updates in a row, by runs that share no key, are one update by both runs.
pub proof fn lemma_updates_compose<V>(
    m0: Map<usize, V>,
    m1: Map<usize, V>,
    m2: Map<usize, V>,
    k1: Seq<usize>,
    v1: Seq<V>,
    k2: Seq<usize>,
    v2: Seq<V>,
)
    requires
        updated_by(m0, m1, k1, v1),
        updated_by(m1, m2, k2, v2),
        forall|i: int, j: int| 0 <= i < k1.len() && 0 <= j < k2.len() ==> k1[i] != k2[j],
    ensures
        updated_by(m0, m2, k1 + k2, v1 + v2),
{
    let k = k1 + k2;
    let v = v1 + v2;
    assert forall|x: usize| k.contains(x) <==> k1.contains(x) || k2.contains(x) by {
        if k.contains(x) {
            let i = choose|i: int| 0 <= i < k.len() && k[i] == x;
            if i < k1.len() {
                assert(k1[i] == x);
            } else {
                assert(k2[i - k1.len()] == x);
            }
        }
        if k1.contains(x) {
            let i = choose|i: int| 0 <= i < k1.len() && k1[i] == x;
            assert(k[i] == x);
        }
        if k2.contains(x) {
            let i = choose|i: int| 0 <= i < k2.len() && k2[i] == x;
            assert(k[i + k1.len()] == x);
        }
    }
    assert forall|i: int| 0 <= i < k.len() implies m2[#[trigger] k[i]] == v[i] by {
        if i < k1.len() {
            assert(k[i] == k1[i]);
            assert(!k2.contains(k1[i])) by {
                if k2.contains(k1[i]) {
                    let j = choose|j: int| 0 <= j < k2.len() && k2[j] == k1[i];
                    assert(k1[i] != k2[j]);
                }
            }
            assert(m1.dom().contains(k1[i]));
            assert(m1[k1[i]] == v1[i]);
        } else {
            assert(k[i] == k2[i - k1.len()]);
            assert(m2[k2[i - k1.len()]] == v2[i - k1.len()]);
        }
    }
    assert forall|x: usize| m0.dom().contains(x) && !k.contains(x) implies #[trigger] m2[x] == m0[x] by {
        assert(m1.dom().contains(x));
        assert(m1[x] == m0[x]);
    }
    assert forall|x: usize| #[trigger] m2.dom().contains(x) <==> m0.dom().contains(x) || k.contains(x) by {
        assert(m1.dom().contains(x) <==> m0.dom().contains(x) || k1.contains(x));
    }
    assert(k.no_duplicates()) by {
        assert forall|i: int, j: int| 0 <= i < k.len() && 0 <= j < k.len() && i != j implies k[i] != k[j] by {
            if i < k1.len() && j < k1.len() {
                assert(k1[i] != k1[j]);
            } else if i >= k1.len() && j >= k1.len() {
                assert(k2[i - k1.len()] != k2[j - k1.len()]);
            } else if i < k1.len() {
                assert(k1[i] != k2[j - k1.len()]);
            } else {
                assert(k1[j] != k2[i - k1.len()]);
            }
        }
    }
}

/// Two extensions in a row are one extension by both runs.
pub proof fn lemma_extends_compose<V>(
    m0: Map<usize, V>,
    m1: Map<usize, V>,
    m2: Map<usize, V>,
    k1: Seq<usize>,
    v1: Seq<V>,
    k2: Seq<usize>,
    v2: Seq<V>,
)
    requires
        extends_by(m0, m1, k1, v1),
        extends_by(m1, m2, k2, v2),
    ensures
        extends_by(m0, m2, k1 + k2, v1 + v2),
{
    assert forall|i: int, j: int| 0 <= i < k1.len() && 0 <= j < k2.len() implies k1[i] != k2[j] by {
        assert(k1.contains(k1[i]));
        assert(m1.dom().contains(k1[i]));
        assert(!m1.dom().contains(k2[j]));
    }
    lemma_updates_compose(m0, m1, m2, k1, v1, k2, v2);
    let k = k1 + k2;
    assert forall|i: int| 0 <= i < k.len() implies !m0.dom().contains(#[trigger] k[i]) by {
        if i < k1.len() {
            assert(k[i] == k1[i]);
        } else {
            assert(k[i] == k2[i - k1.len()]);
            assert(!m1.dom().contains(k2[i - k1.len()]));
        }
    }
}

} // verus!
