//! What holds of the map across calls, stated over the views that the operations'
//! contracts speak of.
use crate::count::lemma_count_some_after;
use crate::key::{lemma_be_bytes_len, Key};
use crate::nodes::{count_true, presence, presence48, wf, NodeBody, NodePtr};
use crate::raw::{prefix_compatible, RawArt};
use crate::sorted::lemma_index_of_at;
use crate::tree::strict_prefix;
use vstd::prelude::*;

verus! {

/// The map after inserting the pairs of `s`, first to last, into `m`.
pub open spec fn insert_all<V>(m: Map<Seq<u8>, V>, s: Seq<(Seq<u8>, V)>) -> Map<Seq<u8>, V>
    decreases s.len(),
{
    if s.len() == 0 {
        m
    } else {
        insert_all(m, s.drop_last()).insert(s.last().0, s.last().1)
    }
}

/// The map after removing the keys of `ks`, first to last, from `m`.
pub open spec fn remove_all<V>(m: Map<Seq<u8>, V>, ks: Seq<Seq<u8>>) -> Map<Seq<u8>, V>
    decreases ks.len(),
{
    if ks.len() == 0 {
        m
    } else {
        remove_all(m, ks.drop_last()).remove(ks.last())
    }
}

/// No two pairs of `s` share a key.
pub open spec fn distinct_keys<V>(s: Seq<(Seq<u8>, V)>) -> bool {
    forall|i: int, j: int| 0 <= i < j < s.len() ==> s[i].0 != s[j].0
}

/// The keys of `s`, in reverse order.
pub open spec fn reversed_keys<V>(s: Seq<(Seq<u8>, V)>) -> Seq<Seq<u8>> {
    Seq::new(s.len(), |i: int| s[s.len() - 1 - i].0)
}

/// A key may be stored again under the same key: it stays compatible with the map that
/// holds it.
pub proof fn lemma_compatible_after_insert<V>(m: Map<Seq<u8>, V>, k: Seq<u8>, v: V)
    requires
        prefix_compatible(m, k),
    ensures
        prefix_compatible(m.insert(k, v), k),
{
    assert forall|j: Seq<u8>| #[trigger] m.insert(k, v).contains_key(j) implies !strict_prefix(j, k)
        && !strict_prefix(k, j) by {
        if j != k {
            assert(m.contains_key(j));
        }
    }
}

/// After `insert(k, v)`, `get(k)` finds `v`.
pub proof fn law_insert_then_get<V>(t: RawArt<V>, k: Seq<u8>, v: V)
    requires
        t.wf(),
        prefix_compatible(t@, k),
    ensures
        t@.insert(k, v).contains_key(k),
        t@.insert(k, v)[k] == v,
{
}

/// After `insert(k, v1)`, `insert(k, v2)` is allowed, hands back `v1`, and `get(k)` then
/// finds `v2`.
pub proof fn law_insert_twice<V>(t: RawArt<V>, k: Seq<u8>, v1: V, v2: V)
    requires
        t.wf(),
        prefix_compatible(t@, k),
    ensures
        prefix_compatible(t@.insert(k, v1), k),
        t@.insert(k, v1).contains_key(k),
        t@.insert(k, v1)[k] == v1,
        t@.insert(k, v1).insert(k, v2)[k] == v2,
{
    lemma_compatible_after_insert(t@, k, v1);
}

/// After `insert(k, v)`, `remove(k)` hands back `v`, and `get(k)` then finds nothing.
pub proof fn law_insert_then_remove<V>(t: RawArt<V>, k: Seq<u8>, v: V)
    requires
        t.wf(),
        prefix_compatible(t@, k),
    ensures
        t@.insert(k, v).contains_key(k),
        t@.insert(k, v)[k] == v,
        !t@.insert(k, v).remove(k).contains_key(k),
{
}

/// With distinct keys, the map after a run of inserts: a key of the run maps to its value,
/// any other key to what `m` had.
pub proof fn lemma_insert_all<V>(m: Map<Seq<u8>, V>, s: Seq<(Seq<u8>, V)>, k: Seq<u8>)
    requires
        distinct_keys(s),
    ensures
        insert_all(m, s).contains_key(k) == (m.contains_key(k) || exists|i: int| 0 <= i < s.len() && s[i].0 == k),
        forall|i: int| 0 <= i < s.len() && s[i].0 == k ==> insert_all(m, s)[k] == s[i].1,
        (forall|i: int| 0 <= i < s.len() ==> s[i].0 != k) && m.contains_key(k) ==> insert_all(m, s)[k]
            == m[k],
    decreases s.len(),
{
    if s.len() > 0 {
        let s0 = s.drop_last();
        assert(distinct_keys(s0));
        lemma_insert_all(m, s0, k);
        if s.last().0 != k {
            if exists|i: int| 0 <= i < s.len() && s[i].0 == k {
                let i = choose|i: int| 0 <= i < s.len() && s[i].0 == k;
                assert(s0[i].0 == k);
            }
        } else {
            assert forall|i: int| 0 <= i < s.len() && s[i].0 == k implies insert_all(m, s)[k] == s[i].1 by {
                if i < s.len() - 1 {
                    assert(s[i].0 != s[s.len() - 1].0);
                }
            }
        }
    }
}

/// Inserting the same pairs (with distinct keys) in any two orders gives the same map.
pub proof fn law_insert_order<V>(t: RawArt<V>, s1: Seq<(Seq<u8>, V)>, s2: Seq<(Seq<u8>, V)>)
    requires
        t.wf(),
        distinct_keys(s1),
        distinct_keys(s2),
        forall|i: int| 0 <= i < s1.len() ==> exists|j: int| 0 <= j < s2.len() && #[trigger] s2[j] == #[trigger] s1[i],
        forall|j: int| 0 <= j < s2.len() ==> exists|i: int| 0 <= i < s1.len() && #[trigger] s1[i] == #[trigger] s2[j],
    ensures
        insert_all(t@, s1) == insert_all(t@, s2),
{
    let m = t@;
    assert forall|k: Seq<u8>| #[trigger] insert_all(m, s1).contains_key(k) == insert_all(m, s2).contains_key(k)
        && (insert_all(m, s1).contains_key(k) ==> insert_all(m, s1)[k] == insert_all(m, s2)[k]) by {
        lemma_insert_all(m, s1, k);
        lemma_insert_all(m, s2, k);
        if exists|i: int| 0 <= i < s1.len() && s1[i].0 == k {
            let i = choose|i: int| 0 <= i < s1.len() && s1[i].0 == k;
            let j = choose|j: int| 0 <= j < s2.len() && s2[j] == s1[i];
            assert(s2[j].0 == k);
        } else if exists|j: int| 0 <= j < s2.len() && s2[j].0 == k {
            let j = choose|j: int| 0 <= j < s2.len() && s2[j].0 == k;
            let i = choose|i: int| 0 <= i < s1.len() && s1[i] == s2[j];
            assert(s1[i].0 == k);
        } else {
            assert(forall|i: int| 0 <= i < s1.len() ==> s1[i].0 != k);
            assert(forall|j: int| 0 <= j < s2.len() ==> s2[j].0 != k);
        }
    }
    assert(insert_all(m, s1) =~= insert_all(m, s2));
}

/// The keys of a run of inserts into an empty map are the keys of the run.
pub proof fn lemma_insert_all_keys<V>(s: Seq<(Seq<u8>, V)>, k: Seq<u8>)
    ensures
        insert_all(Map::<Seq<u8>, V>::empty(), s).contains_key(k) ==> exists|i: int| 0 <= i < s.len() && s[i].0 == k,
    decreases s.len(),
{
    if s.len() > 0 {
        lemma_insert_all_keys(s.drop_last(), k);
        if insert_all(Map::<Seq<u8>, V>::empty(), s).contains_key(k) && s.last().0 != k {
            let i = choose|i: int| 0 <= i < s.len() - 1 && s.drop_last()[i].0 == k;
            assert(s[i].0 == k);
        }
    }
}

/// Removing a run of keys takes away exactly those keys.
pub proof fn lemma_remove_all<V>(m: Map<Seq<u8>, V>, ks: Seq<Seq<u8>>, k: Seq<u8>)
    ensures
        remove_all(m, ks).contains_key(k) == (m.contains_key(k) && forall|i: int| 0 <= i < ks.len() ==> ks[i] != k),
    decreases ks.len(),
{
    if ks.len() > 0 {
        lemma_remove_all(m, ks.drop_last(), k);
        if m.contains_key(k) && ks.last() != k && (forall|i: int| 0 <= i < ks.len() - 1 ==> ks.drop_last()[i] != k) {
            assert forall|i: int| 0 <= i < ks.len() implies ks[i] != k by {
                if i < ks.len() - 1 {
                    assert(ks.drop_last()[i] != k);
                }
            }
        }
        if !(forall|i: int| 0 <= i < ks.len() - 1 ==> ks.drop_last()[i] != k) {
            let i = choose|i: int| !(0 <= i < ks.len() - 1 ==> ks.drop_last()[i] != k);
            assert(ks[i] == k);
        }
    }
}

/// Inserting a run of pairs into an empty tree and then removing their keys in reverse
/// order leaves it empty.
pub proof fn law_remove_in_reverse<V>(t: RawArt<V>, s: Seq<(Seq<u8>, V)>)
    requires
        t.wf(),
        t@ == Map::<Seq<u8>, V>::empty(),
    ensures
        remove_all(insert_all(t@, s), reversed_keys(s)) == Map::<Seq<u8>, V>::empty(),
{
    let ks = reversed_keys(s);
    assert forall|k: Seq<u8>| !#[trigger] remove_all(insert_all(t@, s), ks).contains_key(k) by {
        lemma_remove_all(insert_all(t@, s), ks, k);
        lemma_insert_all_keys(s, k);
        if insert_all(t@, s).contains_key(k) {
            let i = choose|i: int| 0 <= i < s.len() && s[i].0 == k;
            assert(ks[s.len() - 1 - i] == k);
        }
    }
    assert(remove_all(insert_all(t@, s), ks) =~= Map::<Seq<u8>, V>::empty());
}

/// A table with two or more occupied entries has two distinct occupied positions.
pub proof fn lemma_count_two(s: Seq<bool>)
    requires
        count_true(s) >= 2,
    ensures
        exists|i: int, j: int| 0 <= i < j < s.len() && s[i] && s[j],
    decreases s.len(),
{
    let d = s.drop_last();
    if s.last() {
        assert(d.take(0) =~= Seq::<bool>::empty());
        lemma_count_some_after(d, 0);
        let i = choose|i: int| 0 <= i < d.len() && d[i];
        assert(s[i] && s[s.len() - 1]);
    } else {
        lemma_count_two(d);
        let (i, j) = choose|i: int, j: int| 0 <= i < j < d.len() && d[i] && d[j];
        assert(s[i] && s[j]);
    }
}

/// Every branch of a well-formed tree has at least two children.
pub proof fn law_branch_fanout<V>(n: NodePtr<V>)
    requires
        wf(n),
        !n.body().is_leaf(),
    ensures
        exists|x: u8, y: u8| x != y && (#[trigger] n.body().child(x)) is Some && (#[trigger] n.body().child(y)) is Some,
{
    match n.body() {
        NodeBody::Node4(b) => {
            lemma_index_of_at(b.keys@, 0);
            lemma_index_of_at(b.keys@, 1);
            assert(n.body().child(b.keys@[0]) is Some && n.body().child(b.keys@[1]) is Some);
        },
        NodeBody::Node16(b) => {
            lemma_index_of_at(b.keys@, 0);
            lemma_index_of_at(b.keys@, 1);
            assert(n.body().child(b.keys@[0]) is Some && n.body().child(b.keys@[1]) is Some);
        },
        NodeBody::Node48(b) => {
            lemma_count_two(presence48(b.idxs@));
            let (i, j) = choose|i: int, j: int| 0 <= i < j < 256 && presence48(b.idxs@)[i] && presence48(b.idxs@)[j];
            assert((i as u8) as int == i && (j as u8) as int == j);
            assert(n.body().child(i as u8) is Some && n.body().child(j as u8) is Some);
        },
        NodeBody::Node256(b) => {
            lemma_count_two(presence(b.ptr@));
            let (i, j) = choose|i: int, j: int| 0 <= i < j < 256 && presence(b.ptr@)[i] && presence(b.ptr@)[j];
            assert((i as u8) as int == i && (j as u8) as int == j);
            assert(n.body().child(i as u8) is Some && n.body().child(j as u8) is Some);
        },
        NodeBody::Leaf(_) => {},
    }
}

/// Keys of one fixed width never conflict: a map whose keys all have the width of `k`
/// accepts `k`.
pub proof fn law_fixed_width_keys<V>(m: Map<Seq<u8>, V>, k: Seq<u8>)
    requires
        forall|j: Seq<u8>| #[trigger] m.contains_key(j) ==> j.len() == k.len(),
    ensures
        prefix_compatible(m, k),
{
}

/// Every `u64` key encodes to eight bytes, so a map of `u64` keys accepts any `u64` key.
pub proof fn law_u64_keys_compatible<V>(m: Map<Seq<u8>, V>, k: u64)
    requires
        forall|j: Seq<u8>| #[trigger] m.contains_key(j) ==> j.len() == 8,
    ensures
        k.key_bytes().len() == 8,
        prefix_compatible(m, k.key_bytes()),
{
    lemma_be_bytes_len(k as nat, 8);
    law_fixed_width_keys(m, k.key_bytes());
}

} // verus!
