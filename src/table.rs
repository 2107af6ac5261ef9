//! Association lists with unique keys, seen as maps.
use vstd::prelude::*;

verus! {

/// The map that a list of (key, value) pairs stands for; a later pair
/// overrides an earlier one with the same key.
pub open spec fn table_map<K: View, V: View>(s: Seq<(K, V)>) -> Map<K::V, V::V>
    decreases s.len(),
{
    if s.len() == 0 {
        Map::empty()
    } else {
        table_map(s.drop_last()).insert(s.last().0@, s.last().1@)
    }
}

/// No two pairs of the list have the same key.
pub open spec fn unique_keys<K: View, V>(s: Seq<(K, V)>) -> bool {
    forall|i: int, j: int| 0 <= i < s.len() && 0 <= j < s.len() && i != j ==> (#[trigger] s[i]).0@ != (
    #[trigger] s[j]).0@
}

/// The keys of the map are those of the pairs, and with unique keys each
/// key maps to the value of its pair.
pub proof fn lemma_table_map<K: View, V: View>(s: Seq<(K, V)>)
    ensures
        forall|k: K::V| #[trigger]
            table_map(s).contains_key(k) <==> exists|i: int| 0 <= i < s.len() && (#[trigger] s[i]).0@ == k,
        unique_keys(s) ==> forall|i: int|
            0 <= i < s.len() ==> #[trigger] table_map(s)[s[i].0@] == s[i].1@,
        table_map(s).dom().finite(),
        unique_keys(s) ==> table_map(s).dom().len() == s.len(),
    decreases s.len(),
{
    if s.len() > 0 {
        let p = s.drop_last();
        lemma_table_map(p);
        assert forall|k: K::V| #[trigger] table_map(s).contains_key(k) <==> exists|i: int|
            0 <= i < s.len() && (#[trigger] s[i]).0@ == k by {
            if table_map(s).contains_key(k) && k != s.last().0@ {
                let i = choose|i: int| 0 <= i < p.len() && (#[trigger] p[i]).0@ == k;
                assert(s[i] == p[i]);
            }
            if exists|i: int| 0 <= i < s.len() && (#[trigger] s[i]).0@ == k {
                let i = choose|i: int| 0 <= i < s.len() && (#[trigger] s[i]).0@ == k;
                if i < p.len() {
                    assert(p[i] == s[i]);
                }
            }
        }
        if unique_keys(s) {
            assert(unique_keys(p)) by {
                assert forall|i: int, j: int|
                    0 <= i < p.len() && 0 <= j < p.len() && i != j implies (#[trigger] p[i]).0@ != (
                    #[trigger] p[j]).0@ by {
                    assert(p[i] == s[i] && p[j] == s[j]);
                }
            }
            assert forall|i: int| 0 <= i < s.len() implies #[trigger] table_map(s)[s[i].0@]
                == s[i].1@ by {
                if i < p.len() {
                    assert(p[i] == s[i]);
                    assert(s[i].0@ != s[s.len() - 1].0@);
                }
            }
            assert(!table_map(p).contains_key(s.last().0@)) by {
                if table_map(p).contains_key(s.last().0@) {
                    let i = choose|i: int| 0 <= i < p.len() && (#[trigger] p[i]).0@ == s.last().0@;
                    assert(p[i] == s[i]);
                    assert(s[i].0@ == s[s.len() - 1].0@);
                }
            }
        }
    }
}

/// Replacing the pair of a key with a new pair for that key updates the map.
pub proof fn lemma_table_update<K: View, V: View>(s: Seq<(K, V)>, i: int, e: (K, V))
    requires
        unique_keys(s),
        0 <= i < s.len(),
        s[i].0@ == e.0@,
    ensures
        unique_keys(s.update(i, e)),
        table_map(s.update(i, e)) == table_map(s).insert(e.0@, e.1@),
{
    let t = s.update(i, e);
    assert forall|a: int, b: int| 0 <= a < t.len() && 0 <= b < t.len() && a != b implies (
    #[trigger] t[a]).0@ != (#[trigger] t[b]).0@ by {
        assert(t[a].0@ == s[a].0@);
        assert(t[b].0@ == s[b].0@);
    }
    lemma_table_map(s);
    lemma_table_map(t);
    assert forall|k: K::V| #[trigger] table_map(t).contains_key(k) <==> table_map(s).insert(
        e.0@,
        e.1@,
    ).contains_key(k) by {
        if exists|j: int| 0 <= j < t.len() && (#[trigger] t[j]).0@ == k {
            let j = choose|j: int| 0 <= j < t.len() && (#[trigger] t[j]).0@ == k;
            assert(t[j].0@ == s[j].0@);
        }
        if exists|j: int| 0 <= j < s.len() && (#[trigger] s[j]).0@ == k {
            let j = choose|j: int| 0 <= j < s.len() && (#[trigger] s[j]).0@ == k;
            assert(t[j].0@ == s[j].0@);
        }
    }
    assert forall|k: K::V| #[trigger] table_map(t).contains_key(k) implies table_map(t)[k]
        == table_map(s).insert(e.0@, e.1@)[k] by {
        let j = choose|j: int| 0 <= j < t.len() && (#[trigger] t[j]).0@ == k;
        if j != i {
            assert(t[j] == s[j]);
        }
    }
    assert(table_map(t) =~= table_map(s).insert(e.0@, e.1@));
}

/// Appending a pair whose key is new keeps the keys unique.
pub proof fn lemma_table_push<K: View, V: View>(s: Seq<(K, V)>, e: (K, V))
    requires
        unique_keys(s),
        !table_map(s).contains_key(e.0@),
    ensures
        unique_keys(s.push(e)),
        table_map(s.push(e)) == table_map(s).insert(e.0@, e.1@),
{
    lemma_table_map(s);
    let t = s.push(e);
    assert(t.drop_last() =~= s);
    assert forall|a: int, b: int| 0 <= a < t.len() && 0 <= b < t.len() && a != b implies (
    #[trigger] t[a]).0@ != (#[trigger] t[b]).0@ by {
        if a < s.len() && b < s.len() {
            assert(t[a] == s[a] && t[b] == s[b]);
        } else if a < s.len() {
            assert(t[a] == s[a]);
        } else {
            assert(t[b] == s[b]);
        }
    }
}

} // verus!
