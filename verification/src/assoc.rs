//! Association lists viewed as mathematical maps.
//!
//! The chunk table keys chunks by their chunk-space coordinate.  It is kept
//! as a vector of key-value pairs with unique keys, and its contracts speak
//! of the mapping the list describes.

use vstd::prelude::*;

verus! {

/// The mapping described by an association list, later entries winning.
pub open spec fn assoc_map<K, V>(s: Seq<(K, V)>) -> Map<K, V>
    decreases s.len(),
{
    if s.len() == 0 {
        Map::empty()
    } else {
        assoc_map(s.drop_last()).insert(s.last().0, s.last().1)
    }
}

/// Whether no two entries of an association list share a key.
pub open spec fn assoc_unique<K, V>(s: Seq<(K, V)>) -> bool {
    forall|i: int, j: int| 0 <= i < j < s.len() ==> (#[trigger] s[i]).0 != (#[trigger] s[j]).0
}

/// A key is in the mapping of an association list exactly when some entry
/// carries it.
pub proof fn lemma_assoc_map_dom<K, V>(s: Seq<(K, V)>, k: K)
    ensures
        assoc_map(s).dom().contains(k) <==> (exists|j: int|
            0 <= j < s.len() && (#[trigger] s[j]).0 == k),
    decreases s.len(),
{
    if s.len() > 0 {
        let s0 = s.drop_last();
        lemma_assoc_map_dom(s0, k);
        if s.last().0 == k {
            assert((s[s.len() - 1]).0 == k);
        } else {
            if assoc_map(s).dom().contains(k) {
                let j = choose|j: int| 0 <= j < s0.len() && (#[trigger] s0[j]).0 == k;
                assert((s[j]).0 == k);
            }
            if exists|j: int| 0 <= j < s.len() && (#[trigger] s[j]).0 == k {
                let j = choose|j: int| 0 <= j < s.len() && (#[trigger] s[j]).0 == k;
                assert(j != s.len() - 1);
                assert((s0[j]).0 == k);
            }
        }
    }
}

/// Under unique keys, each entry of an association list gives its key's
/// mapped value.
pub proof fn lemma_assoc_map_get<K, V>(s: Seq<(K, V)>, j: int)
    requires
        assoc_unique(s),
        0 <= j < s.len(),
    ensures
        assoc_map(s).dom().contains((s[j]).0),
        assoc_map(s)[(s[j]).0] == (s[j]).1,
    decreases s.len(),
{
    lemma_assoc_map_dom(s, (s[j]).0);
    if j < s.len() - 1 {
        let s0 = s.drop_last();
        assert forall|i1: int, i2: int| 0 <= i1 < i2 < s0.len() implies (#[trigger] s0[i1]).0 != (
        #[trigger] s0[i2]).0 by {
            assert(s0[i1] == s[i1] && s0[i2] == s[i2]);
        }
        lemma_assoc_map_get(s0, j);
        assert(s0[j] == s[j]);
        assert((s[j]).0 != (s[s.len() - 1]).0);
    }
}

/// Replacing the value of the entry at `j` updates the mapping at that
/// entry's key and nothing else.
pub proof fn lemma_assoc_map_update<K, V>(s: Seq<(K, V)>, j: int, v: V)
    requires
        assoc_unique(s),
        0 <= j < s.len(),
    ensures
        assoc_unique(s.update(j, ((s[j]).0, v))),
        assoc_map(s.update(j, ((s[j]).0, v))) == assoc_map(s).insert((s[j]).0, v),
{
    let k = (s[j]).0;
    let s2 = s.update(j, (k, v));
    assert forall|i1: int, i2: int| 0 <= i1 < i2 < s2.len() implies (#[trigger] s2[i1]).0 != (
    #[trigger] s2[i2]).0 by {
        assert((s[i1]).0 != (s[i2]).0);
        assert((s2[i1]).0 == (s[i1]).0 && (s2[i2]).0 == (s[i2]).0);
    }
    let expected = assoc_map(s).insert(k, v);
    assert forall|q: K| true implies assoc_map(s2).dom().contains(q) == expected.dom().contains(
        q,
    ) by {
        lemma_assoc_map_dom(s2, q);
        lemma_assoc_map_dom(s, q);
        if q == k {
            assert((s2[j]).0 == q);
        } else {
            if assoc_map(s2).dom().contains(q) {
                let jw = choose|jw: int| 0 <= jw < s2.len() && (#[trigger] s2[jw]).0 == q;
                assert((s[jw]).0 == q);
            }
            if assoc_map(s).dom().contains(q) {
                let jw = choose|jw: int| 0 <= jw < s.len() && (#[trigger] s[jw]).0 == q;
                assert((s2[jw]).0 == q);
            }
        }
    }
    assert forall|q: K| assoc_map(s2).dom().contains(q) implies assoc_map(s2)[q] == expected[q] by {
        lemma_assoc_map_dom(s2, q);
        let jw = choose|jw: int| 0 <= jw < s2.len() && (#[trigger] s2[jw]).0 == q;
        lemma_assoc_map_get(s2, jw);
        if jw == j {
            assert(q == k);
        } else {
            assert(s2[jw] == s[jw]);
            assert((s[jw]).0 != (s[j]).0);
            assert(q != k);
            lemma_assoc_map_get(s, jw);
        }
    }
    assert(assoc_map(s2) =~= expected);
}

/// Appending an entry whose key is fresh inserts it into the mapping.
pub proof fn lemma_assoc_map_push<K, V>(s: Seq<(K, V)>, k: K, v: V)
    requires
        assoc_unique(s),
        forall|i: int| 0 <= i < s.len() ==> (#[trigger] s[i]).0 != k,
    ensures
        assoc_unique(s.push((k, v))),
        assoc_map(s.push((k, v))) == assoc_map(s).insert(k, v),
{
    let s2 = s.push((k, v));
    assert forall|i1: int, i2: int| 0 <= i1 < i2 < s2.len() implies (#[trigger] s2[i1]).0 != (
    #[trigger] s2[i2]).0 by {
        if i2 == s2.len() - 1 {
            assert(s2[i1] == s[i1]);
        } else {
            assert(s2[i1] == s[i1] && s2[i2] == s[i2]);
        }
    }
    assert(s2.drop_last() =~= s);
}

/// Removing the entry at `j` removes exactly that entry's key from the
/// mapping.
pub proof fn lemma_assoc_map_remove<K, V>(s: Seq<(K, V)>, j: int)
    requires
        assoc_unique(s),
        0 <= j < s.len(),
    ensures
        assoc_unique(s.remove(j)),
        assoc_map(s.remove(j)) == assoc_map(s).remove((s[j]).0),
{
    let k = (s[j]).0;
    let s2 = s.remove(j);
    s.remove_ensures(j);
    assert forall|i1: int, i2: int| 0 <= i1 < i2 < s2.len() implies (#[trigger] s2[i1]).0 != (
    #[trigger] s2[i2]).0 by {
        let m1: int = if i1 < j {
            i1
        } else {
            i1 + 1
        };
        let m2: int = if i2 < j {
            i2
        } else {
            i2 + 1
        };
        assert(s2[i1] == s[m1] && s2[i2] == s[m2]);
        assert((s[m1]).0 != (s[m2]).0);
    }
    let expected = assoc_map(s).remove(k);
    assert forall|q: K| true implies assoc_map(s2).dom().contains(q) == expected.dom().contains(
        q,
    ) by {
        lemma_assoc_map_dom(s2, q);
        lemma_assoc_map_dom(s, q);
        if assoc_map(s2).dom().contains(q) {
            let jw = choose|jw: int| 0 <= jw < s2.len() && (#[trigger] s2[jw]).0 == q;
            let mw: int = if jw < j {
                jw
            } else {
                jw + 1
            };
            assert(s2[jw] == s[mw]);
            assert((s[mw]).0 == q);
            if mw < j {
                assert((s[mw]).0 != (s[j]).0);
            } else {
                assert((s[j]).0 != (s[mw]).0);
            }
            assert(q != k);
        }
        if assoc_map(s).dom().contains(q) && q != k {
            let jw = choose|jw: int| 0 <= jw < s.len() && (#[trigger] s[jw]).0 == q;
            assert(jw != j);
            let mw: int = if jw < j {
                jw
            } else {
                jw - 1
            };
            assert(s2[mw] == s[jw]);
            assert((s2[mw]).0 == q);
        }
    }
    assert forall|q: K| assoc_map(s2).dom().contains(q) implies assoc_map(s2)[q] == expected[q] by {
        lemma_assoc_map_dom(s2, q);
        let jw = choose|jw: int| 0 <= jw < s2.len() && (#[trigger] s2[jw]).0 == q;
        lemma_assoc_map_get(s2, jw);
        let mw: int = if jw < j {
            jw
        } else {
            jw + 1
        };
        assert(s2[jw] == s[mw]);
        lemma_assoc_map_get(s, mw);
        if mw < j {
            assert((s[mw]).0 != (s[j]).0);
        } else {
            assert((s[j]).0 != (s[mw]).0);
        }
        assert(q != k);
    }
    assert(assoc_map(s2) =~= expected);
}


/// Two association lists with the same keys in the same positions describe
/// mappings over the same domain.
pub proof fn lemma_assoc_same_keys<K, V>(s1: Seq<(K, V)>, s2: Seq<(K, V)>)
    requires
        s1.len() == s2.len(),
        forall|i: int| 0 <= i < s1.len() ==> (#[trigger] s1[i]).0 == (#[trigger] s2[i]).0,
    ensures
        assoc_map(s1).dom() == assoc_map(s2).dom(),
{
    assert forall|k: K| true implies assoc_map(s1).dom().contains(k) == assoc_map(
        s2,
    ).dom().contains(k) by {
        lemma_assoc_map_dom(s1, k);
        lemma_assoc_map_dom(s2, k);
        if assoc_map(s1).dom().contains(k) {
            let j = choose|j: int| 0 <= j < s1.len() && (#[trigger] s1[j]).0 == k;
            assert((s2[j]).0 == k);
        }
        if assoc_map(s2).dom().contains(k) {
            let j = choose|j: int| 0 <= j < s2.len() && (#[trigger] s2[j]).0 == k;
            assert((s1[j]).0 == k);
        }
    }
    assert(assoc_map(s1).dom() =~= assoc_map(s2).dom());
}

} // verus!
