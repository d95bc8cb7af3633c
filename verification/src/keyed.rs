//! Sequences of entries keyed by CID, with no key twice, read as maps.
use vstd::prelude::*;

use crate::content_id::CidView;

verus! {

/// Whether some entry of `s` has key `c`.
pub open spec fn has_key<V>(s: Seq<(CidView, V)>, c: CidView) -> bool {
    exists|i: int| 0 <= i < s.len() && (#[trigger] s[i]).0 == c
}

/// The map that a sequence of entries with distinct keys holds.
pub open spec fn keyed_map<V>(s: Seq<(CidView, V)>) -> Map<CidView, V> {
    Map::new(
        |c: CidView| has_key(s, c),
        |c: CidView| s[choose|i: int| 0 <= i < s.len() && (#[trigger] s[i]).0 == c].1,
    )
}

/// No two entries of `s` have the same key.
pub open spec fn distinct_keys<V>(s: Seq<(CidView, V)>) -> bool {
    forall|i: int, j: int|
        0 <= i < s.len() && 0 <= j < s.len() && i != j ==> (#[trigger] s[i]).0 != (#[trigger] s[j]).0
}

pub proof fn lemma_keyed_lookup<V>(s: Seq<(CidView, V)>, i: int)
    requires
        distinct_keys(s),
        0 <= i < s.len(),
    ensures
        keyed_map(s).contains_key(s[i].0),
        keyed_map(s)[s[i].0] == s[i].1,
{
    let c = s[i].0;
    assert(has_key(s, c));
    let k = choose|k: int| 0 <= k < s.len() && (#[trigger] s[k]).0 == c;
    assert(k == i);
}

/// Replacing the entry of a CID that is held.
pub proof fn lemma_keyed_replace<V>(s: Seq<(CidView, V)>, k: int, b: (CidView, V))
    requires
        distinct_keys(s),
        0 <= k < s.len(),
        s[k].0 == b.0,
    ensures
        distinct_keys(s.update(k, b)),
        keyed_map(s.update(k, b)) == keyed_map(s).insert(b.0, b.1),
{
    let t = s.update(k, b);
    assert forall|i: int| 0 <= i < t.len() implies (#[trigger] t[i]).0 == s[i].0 by {}
    assert(distinct_keys(t)) by {
        assert forall|i: int, j: int|
            0 <= i < t.len() && 0 <= j < t.len() && i != j implies (#[trigger] t[i]).0 != (#[trigger] t[j]).0 by {
            assert(t[i].0 == s[i].0);
            assert(t[j].0 == s[j].0);
        }
    }
    let m = keyed_map(s).insert(b.0, b.1);
    assert forall|x: CidView| keyed_map(t).contains_key(x) <==> m.contains_key(x) by {
        if has_key(t, x) {
            let j = choose|j: int| 0 <= j < t.len() && (#[trigger] t[j]).0 == x;
            assert(s[j].0 == x);
            assert(has_key(s, x));
        }
        if has_key(s, x) {
            let j = choose|j: int| 0 <= j < s.len() && (#[trigger] s[j]).0 == x;
            assert(t[j].0 == x);
        }
        if x == b.0 {
            assert(t[k].0 == x);
        }
    }
    assert forall|x: CidView| keyed_map(t).contains_key(x) implies keyed_map(t)[x] == m[x] by {
        let j = choose|j: int| 0 <= j < t.len() && (#[trigger] t[j]).0 == x;
        lemma_keyed_lookup(t, j);
        if j != k {
            lemma_keyed_lookup(s, j);
        }
    }
    assert(keyed_map(t) =~= m);
}

/// Adding an entry for a CID that is not held.
pub proof fn lemma_keyed_append<V>(s: Seq<(CidView, V)>, b: (CidView, V))
    requires
        distinct_keys(s),
        forall|i: int| 0 <= i < s.len() ==> (#[trigger] s[i]).0 != b.0,
    ensures
        distinct_keys(s.push(b)),
        keyed_map(s.push(b)) == keyed_map(s).insert(b.0, b.1),
{
    let t = s.push(b);
    let k = s.len() as int;
    assert(distinct_keys(t)) by {
        assert forall|i: int, j: int|
            0 <= i < t.len() && 0 <= j < t.len() && i != j implies (#[trigger] t[i]).0 != (#[trigger] t[j]).0 by {
            if i < k && j < k {
                assert(t[i] == s[i] && t[j] == s[j]);
            } else if i < k {
                assert(t[i] == s[i]);
            } else {
                assert(t[j] == s[j]);
            }
        }
    }
    let m = keyed_map(s).insert(b.0, b.1);
    assert forall|x: CidView| keyed_map(t).contains_key(x) <==> m.contains_key(x) by {
        if has_key(t, x) {
            let j = choose|j: int| 0 <= j < t.len() && (#[trigger] t[j]).0 == x;
            if j < k {
                assert(s[j].0 == x);
                assert(has_key(s, x));
            }
        }
        if has_key(s, x) {
            let j = choose|j: int| 0 <= j < s.len() && (#[trigger] s[j]).0 == x;
            assert(t[j].0 == x);
        }
        if x == b.0 {
            assert(t[k].0 == x);
        }
    }
    assert forall|x: CidView| keyed_map(t).contains_key(x) implies keyed_map(t)[x] == m[x] by {
        let j = choose|j: int| 0 <= j < t.len() && (#[trigger] t[j]).0 == x;
        lemma_keyed_lookup(t, j);
        if j != k {
            assert(t[j] == s[j]);
            lemma_keyed_lookup(s, j);
        }
    }
    assert(keyed_map(t) =~= m);
}

/// Taking out the entry at `k`.
pub proof fn lemma_keyed_take_out<V>(s: Seq<(CidView, V)>, k: int)
    requires
        distinct_keys(s),
        0 <= k < s.len(),
    ensures
        distinct_keys(s.remove(k)),
        keyed_map(s.remove(k)) == keyed_map(s).remove(s[k].0),
{
    let t = s.remove(k);
    let c = s[k].0;
    assert forall|i: int| 0 <= i < t.len() implies #[trigger] t[i] == s[if i < k { i } else { i + 1 }] by {}
    assert(distinct_keys(t)) by {
        assert forall|i: int, j: int|
            0 <= i < t.len() && 0 <= j < t.len() && i != j implies (#[trigger] t[i]).0 != (#[trigger] t[j]).0 by {
            let ii = if i < k { i } else { i + 1 };
            let jj = if j < k { j } else { j + 1 };
            assert(t[i] == s[ii]);
            assert(t[j] == s[jj]);
        }
    }
    let m = keyed_map(s).remove(c);
    assert forall|x: CidView| keyed_map(t).contains_key(x) <==> m.contains_key(x) by {
        if has_key(t, x) {
            let j = choose|j: int| 0 <= j < t.len() && (#[trigger] t[j]).0 == x;
            let jj = if j < k { j } else { j + 1 };
            assert(t[j] == s[jj]);
            assert(has_key(s, x));
            assert(jj != k);
        }
        if has_key(s, x) && x != c {
            let j = choose|j: int| 0 <= j < s.len() && (#[trigger] s[j]).0 == x;
            assert(j != k);
            let jj = if j < k { j } else { j - 1 };
            assert(t[jj] == s[j]);
        }
    }
    assert forall|x: CidView| keyed_map(t).contains_key(x) implies keyed_map(t)[x] == m[x] by {
        let j = choose|j: int| 0 <= j < t.len() && (#[trigger] t[j]).0 == x;
        let jj = if j < k { j } else { j + 1 };
        assert(t[j] == s[jj]);
        lemma_keyed_lookup(t, j);
        lemma_keyed_lookup(s, jj);
    }
    assert(keyed_map(t) =~= m);
}

} // verus!
