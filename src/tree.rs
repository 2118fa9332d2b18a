//! The tree algorithms on byte keys: descent with prefix matching, split, grow, shrink
//! and fold, and the facts about subtrees that they rest on.
use crate::count::lemma_count_some_after;
use crate::header::{copy_bytes, NodeHeader};
use crate::nodes::{
    index_of, lookup, presence, presence48, wf, LeafNode, Node4, NodeBody, NodePtr, Shrunk, ABSENT,
};
use crate::sorted::{all_some, lemma_index_of_at, lemma_index_of_bound};
use vstd::prelude::*;

verus! {

/// `a` is a proper prefix of `b`.
pub open spec fn strict_prefix(a: Seq<u8>, b: Seq<u8>) -> bool {
    a.len() < b.len() && b.take(a.len() as int) == a
}

/// `k` is no proper prefix of a key that `n` holds, nor is such a key a proper prefix of `k`.
pub open spec fn prefix_free_in<V>(n: NodePtr<V>, k: Seq<u8>) -> bool {
    forall|j: Seq<u8>| #[trigger] lookup(n, j) is Some ==> !strict_prefix(j, k) && !strict_prefix(k, j)
}

/// The length of the longest common prefix of `key[from..]` and `prefix`.
pub fn common_prefix_length(key: &[u8], from: usize, prefix: &[u8]) -> (r: usize)
    requires
        from <= key@.len(),
    ensures
        r <= prefix@.len(),
        from + r <= key@.len(),
        key@.subrange(from as int, from + r) == prefix@.take(r as int),
        r < prefix@.len() && from + r < key@.len() ==> key@[from + r] != prefix@[r as int],
{
    let mut i: usize = 0;
    while i < prefix.len() && i < key.len() - from
        invariant
            i <= prefix@.len(),
            from + i <= key@.len(),
            key@.subrange(from as int, from + i) == prefix@.take(i as int),
        decreases prefix@.len() - i,
    {
        if key[from + i] != prefix[i] {
            return i;
        }
        proof {
            assert(key@.subrange(from as int, from + i + 1) =~= prefix@.take(i + 1));
        }
        i = i + 1;
    }
    i
}

/// A well-formed branch has a child.
pub proof fn lemma_has_child<V>(b: NodeBody<V>)
    requires
        b.wf_local(),
        !b.is_leaf(),
    ensures
        exists|x: u8| (#[trigger] b.child(x)) is Some,
{
    match b {
        NodeBody::Leaf(_) => {},
        NodeBody::Node4(n) => {
            lemma_index_of_at(n.keys@, 0);
            assert(n.child(n.keys@[0]) is Some);
            assert(b.child(n.keys@[0]) is Some);
        },
        NodeBody::Node16(n) => {
            lemma_index_of_at(n.keys@, 0);
            assert(n.child(n.keys@[0]) is Some);
            assert(b.child(n.keys@[0]) is Some);
        },
        NodeBody::Node48(n) => {
            assert(presence48(n.idxs@).take(0) =~= Seq::<bool>::empty());
            lemma_count_some_after(presence48(n.idxs@), 0);
            let i = choose|i: int| 0 <= i < 256 && presence48(n.idxs@)[i];
            assert((i as u8) as int == i);
            assert(n.idxs@[i] != ABSENT);
            assert(n.child(i as u8) is Some);
            assert(b.child(i as u8) is Some);
        },
        NodeBody::Node256(n) => {
            assert(presence(n.ptr@).take(0) =~= Seq::<bool>::empty());
            lemma_count_some_after(presence(n.ptr@), 0);
            let i = choose|i: int| 0 <= i < 256 && presence(n.ptr@)[i];
            assert((i as u8) as int == i);
            assert(n.child(i as u8) is Some);
            assert(b.child(i as u8) is Some);
        },
    }
}

/// A well-formed subtree holds a key that starts with its prefix, and, below a branch,
/// a key longer than its prefix.
pub proof fn lemma_holds_key<V>(n: NodePtr<V>)
    requires
        wf(n),
    ensures
        exists|k: Seq<u8>|
            #[trigger] lookup(n, k) is Some && n.prefix().len() <= k.len() && k.take(
                n.prefix().len() as int,
            ) == n.prefix() && (!n.body().is_leaf() ==> n.prefix().len() < k.len()),
    decreases n,
{
    let p = n.prefix();
    if n.body().is_leaf() {
        assert(p.take(p.len() as int) =~= p);
        assert(p.skip(p.len() as int) =~= Seq::<u8>::empty());
        assert(lookup(n, p) is Some);
    } else {
        lemma_has_child(n.body());
        let x = choose|x: u8| (#[trigger] n.body().child(x)) is Some;
        let c = n.body().child(x).unwrap();
        lemma_holds_key(c);
        let kc = choose|k: Seq<u8>|
            #[trigger] lookup(c, k) is Some && c.prefix().len() <= k.len() && k.take(
                c.prefix().len() as int,
            ) == c.prefix() && (!c.body().is_leaf() ==> c.prefix().len() < k.len());
        let k = p.push(x) + kc;
        assert(k.take(p.len() as int) =~= p);
        assert(k.skip(p.len() as int) =~= seq![x] + kc);
        assert(k.skip(p.len() as int).skip(1) =~= kc);
        assert(lookup(n, k) is Some);
    }
}

/// Two nodes that differ only in their prefixes, one of which is `q` followed by the other,
/// hold the same keys, but for `q` in front.
pub proof fn lemma_reprefixed<V>(a: NodePtr<V>, b: NodePtr<V>, q: Seq<u8>)
    requires
        a.body().reprefixed(b.body()) || b.body().reprefixed(a.body()),
        a.prefix() == q + b.prefix(),
    ensures
        wf(a) == wf(b),
        a.body().is_leaf() == b.body().is_leaf(),
        forall|k: Seq<u8>|
            #[trigger] lookup(a, k) == if q.len() <= k.len() && k.take(q.len() as int) == q {
                lookup(b, k.skip(q.len() as int))
            } else {
                None
            },
{
    assert forall|x: u8| #[trigger] a.body().child(x) == b.body().child(x) by {}
    assert(a.body().wf_local() == b.body().wf_local());
    if wf(a) {
        assert forall|x: u8| (#[trigger] b.body().child(x)) is Some implies wf(b.body().child(x).unwrap()) by {
            assert(a.body().child(x) == b.body().child(x));
        }
    }
    if wf(b) {
        assert forall|x: u8| (#[trigger] a.body().child(x)) is Some implies wf(a.body().child(x).unwrap()) by {
            assert(a.body().child(x) == b.body().child(x));
        }
    }
    let pa = a.prefix();
    let pb = b.prefix();
    assert forall|k: Seq<u8>|
        #[trigger] lookup(a, k) == if q.len() <= k.len() && k.take(q.len() as int) == q {
            lookup(b, k.skip(q.len() as int))
        } else {
            None
        } by {
        if q.len() <= k.len() && k.take(q.len() as int) == q {
            let k2 = k.skip(q.len() as int);
            if pa.len() <= k.len() {
                assert(k2.skip(pb.len() as int) =~= k.skip(pa.len() as int));
                assert(k2.take(pb.len() as int) =~= k.take(pa.len() as int).skip(q.len() as int));
                assert(k.take(pa.len() as int) =~= k.take(q.len() as int) + k2.take(pb.len() as int));
                assert((q + k2.take(pb.len() as int)).skip(q.len() as int) =~= k2.take(pb.len() as int));
                assert((q + pb).skip(q.len() as int) =~= pb);
                assert((k.take(pa.len() as int) == pa) == (k2.take(pb.len() as int) == pb));
                let r = k.skip(pa.len() as int);
                if r.len() > 0 {
                    assert(a.body().child(r[0]) == b.body().child(r[0]));
                }
                assert(lookup(a, k) == lookup(b, k2));
            }
        } else {
            if pa.len() <= k.len() && k.take(pa.len() as int) == pa {
                assert(k.take(q.len() as int) =~= pa.take(q.len() as int));
                assert(pa.take(q.len() as int) =~= q);
            }
        }
    }
}

/// Replacing the child in an occupied slot keeps the node's shape.
pub proof fn lemma_replace_child<V>(pre: NodeBody<V>, post: NodeBody<V>, b: u8, c: NodePtr<V>)
    requires
        pre.wf_local(),
        pre.child(b) is Some,
        pre.slot_set(post, b, Some(c)),
    ensures
        post.wf_local(),
        post.hdr() == pre.hdr(),
        !post.is_leaf(),
        forall|x: u8|
            #[trigger] post.child(x) == if x == b {
                Some(c)
            } else {
                pre.child(x)
            },
{
    match (pre, post) {
        (NodeBody::Node4(n), NodeBody::Node4(m)) => {
            lemma_index_of_bound(n.keys@, b);
            assert forall|x: u8| #[trigger] m.child(x) == if x == b { Some(c) } else { n.child(x) } by {
                lemma_index_of_bound(n.keys@, x);
            }
        },
        (NodeBody::Node16(n), NodeBody::Node16(m)) => {
            lemma_index_of_bound(n.keys@, b);
            assert forall|x: u8| #[trigger] m.child(x) == if x == b { Some(c) } else { n.child(x) } by {
                lemma_index_of_bound(n.keys@, x);
            }
        },
        (NodeBody::Node48(n), NodeBody::Node48(m)) => {
            assert forall|x: u8| #[trigger] m.child(x) == if x == b { Some(c) } else { n.child(x) } by {
                if x != b && n.idxs@[x as int] != ABSENT {
                    assert(n.idxs@[x as int] != n.idxs@[b as int]);
                }
            }
            assert forall|j: int| 0 <= j < m.free_list@.len() implies m.ptr@[(#[trigger] m.free_list@[j]) as int] is None by {
                assert(n.ptr@[n.free_list@[j] as int] is None);
            }
        },
        (NodeBody::Node256(n), NodeBody::Node256(m)) => {
            assert(presence(m.ptr@) =~= presence(n.ptr@));
        },
        _ => {},
    }
}

/// Putting a child back into the slot it was taken from restores the node's shape.
pub proof fn lemma_put_back<V>(pre: NodeBody<V>, mid: NodeBody<V>, post: NodeBody<V>, b: u8, c: NodePtr<V>)
    requires
        pre.wf_local(),
        pre.child(b) is Some,
        pre.slot_set(mid, b, None),
        mid.slot_set(post, b, Some(c)),
    ensures
        post.wf_local(),
        post.hdr() == pre.hdr(),
        !post.is_leaf(),
        forall|x: u8|
            #[trigger] post.child(x) == if x == b {
                Some(c)
            } else {
                pre.child(x)
            },
{
    match (pre, post) {
        (NodeBody::Node4(n), NodeBody::Node4(m)) => {
            let i = index_of(n.keys@, b).unwrap();
            lemma_index_of_bound(n.keys@, b);
            assert(m.ptr@ =~= n.ptr@.update(i, Some(c)));
            assert forall|x: u8| #[trigger] m.child(x) == if x == b { Some(c) } else { n.child(x) } by {
                lemma_index_of_bound(n.keys@, x);
            }
        },
        (NodeBody::Node16(n), NodeBody::Node16(m)) => {
            let i = index_of(n.keys@, b).unwrap();
            lemma_index_of_bound(n.keys@, b);
            assert(m.ptr@ =~= n.ptr@.update(i, Some(c)));
            assert forall|x: u8| #[trigger] m.child(x) == if x == b { Some(c) } else { n.child(x) } by {
                lemma_index_of_bound(n.keys@, x);
            }
        },
        (NodeBody::Node48(n), NodeBody::Node48(m)) => {
            let i = n.idxs@[b as int] as int;
            assert(m.ptr@ =~= n.ptr@.update(i, Some(c)));
            assert forall|x: u8| #[trigger] m.child(x) == if x == b { Some(c) } else { n.child(x) } by {
                if x != b && n.idxs@[x as int] != ABSENT {
                    assert(n.idxs@[x as int] != n.idxs@[b as int]);
                }
            }
            assert forall|j: int| 0 <= j < m.free_list@.len() implies m.ptr@[(#[trigger] m.free_list@[j]) as int] is None by {
                assert(n.ptr@[n.free_list@[j] as int] is None);
            }
        },
        (NodeBody::Node256(n), NodeBody::Node256(m)) => {
            assert(m.ptr@ =~= n.ptr@.update(b as int, Some(c)));
            assert(presence(m.ptr@) =~= presence(n.ptr@));
        },
        _ => {},
    }
}

/// The value that the subtree at `node` holds for `key[depth..]`.
pub fn get_node<'a, V>(node: &'a NodePtr<V>, key: &[u8], depth: usize) -> (r: Option<&'a V>)
    requires
        wf(*node),
        depth <= key@.len(),
    ensures
        match r {
            Some(v) => lookup(*node, key@.skip(depth as int)) == Some(*v),
            None => lookup(*node, key@.skip(depth as int)) is None,
        },
    decreases key@.len() - depth,
{
    let body = node.as_body();
    let prefix = body.header().prefix();
    let cpl = common_prefix_length(key, depth, prefix);
    let ghost rest = key@.skip(depth as int);
    let ghost p = prefix@;
    if cpl < prefix.len() {
        proof {
            if p.len() <= rest.len() && rest.take(p.len() as int) == p {
                assert(rest[cpl as int] == p[cpl as int]);
            }
        }
        return None;
    }
    proof {
        assert(rest.take(p.len() as int) =~= key@.subrange(depth as int, depth + cpl));
    }
    match body {
        NodeBody::Leaf(l) => {
            if cpl == key.len() - depth {
                proof {
                    assert(rest.len() == p.len());
                    assert(rest.take(p.len() as int) == p);
                    assert(rest.skip(p.len() as int) =~= Seq::<u8>::empty());
                    assert(node.prefix() == p);
                    assert(lookup(*node, rest) == Some(l.value));
                }
                Some(&l.value)
            } else {
                None
            }
        },
        _ => {
            if cpl == key.len() - depth {
                return None;
            }
            let b = key[depth + cpl];
            match body.get(b) {
                Some(c) => {
                    proof {
                        let t = key@.skip(depth + cpl + 1);
                        assert(rest =~= p.push(b) + t);
                        lemma_branch_lookup(*node, b, t);
                    }
                    get_node(c, key, depth + cpl + 1)
                },
                None => {
                    proof {
                        let t = key@.skip(depth + cpl + 1);
                        assert(rest =~= p.push(b) + t);
                        lemma_branch_lookup(*node, b, t);
                    }
                    None
                },
            }
        },
    }
}

/// `k` continues past prefix `p` with byte `x`.
pub open spec fn under(p: Seq<u8>, x: u8, k: Seq<u8>) -> bool {
    p.len() < k.len() && k.take(p.len() as int) == p && k[p.len() as int] == x
}

pub proof fn lemma_under(p: Seq<u8>, x: u8, j: Seq<u8>)
    ensures
        under(p, x, p.push(x) + j),
        (p.push(x) + j).skip(p.len() as int + 1) == j,
        forall|k: Seq<u8>| #[trigger] under(p, x, k) ==> k == p.push(x) + k.skip(p.len() as int + 1),
        forall|k: Seq<u8>|
            #[trigger] under(p, x, k) == (p.len() + 1 <= k.len() && k.take(p.len() as int + 1) == p.push(x)),
{
    let k = p.push(x) + j;
    assert(k.take(p.len() as int) =~= p);
    assert(k.skip(p.len() as int + 1) =~= j);
    assert forall|k: Seq<u8>| #[trigger] under(p, x, k) implies k == p.push(x) + k.skip(p.len() as int + 1) by {
        assert(k =~= p.push(x) + k.skip(p.len() as int + 1));
    }
    assert forall|k: Seq<u8>|
        #[trigger] under(p, x, k) == (p.len() + 1 <= k.len() && k.take(p.len() as int + 1) == p.push(x)) by {
        if p.len() + 1 <= k.len() && k.take(p.len() as int + 1) == p.push(x) {
            assert(k.take(p.len() as int) =~= k.take(p.len() as int + 1).take(p.len() as int));
            assert(p.push(x).take(p.len() as int) =~= p);
            assert(p.push(x)[p.len() as int] == x);
            assert(k.take(p.len() as int + 1)[p.len() as int] == k[p.len() as int]);
        }
        if under(p, x, k) {
            assert(k.take(p.len() as int + 1) =~= p.push(x));
        }
    }
}

/// A branch holds below byte `x` what its child for `x` holds.
pub proof fn lemma_branch_lookup<V>(a: NodePtr<V>, x: u8, j: Seq<u8>)
    requires
        !a.body().is_leaf(),
    ensures
        lookup(a, a.prefix().push(x) + j) == match a.body().child(x) {
            Some(c) => lookup(c, j),
            None => None,
        },
{
    let p = a.prefix();
    let k = p.push(x) + j;
    lemma_under(p, x, j);
    assert(k.skip(p.len() as int) =~= seq![x] + j);
    assert(k.skip(p.len() as int).skip(1) =~= j);
}

/// Two branches with one prefix whose children differ at most under byte `x` hold the
/// same keys outside `x`.
pub proof fn lemma_branch_same<V>(a: NodePtr<V>, b: NodePtr<V>, x: u8, k: Seq<u8>)
    requires
        !a.body().is_leaf(),
        !b.body().is_leaf(),
        a.prefix() == b.prefix(),
        forall|y: u8| y != x ==> #[trigger] a.body().child(y) == b.body().child(y),
        !under(a.prefix(), x, k),
    ensures
        lookup(a, k) == lookup(b, k),
{
    let p = a.prefix();
    if p.len() < k.len() && k.take(p.len() as int) == p {
        let r = k.skip(p.len() as int);
        assert(r[0] == k[p.len() as int]);
        assert(a.body().child(r[0]) == b.body().child(r[0]));
    }
}

/// The node that a split makes when `key[depth..]` leaves the prefix of `node` at `cpl`.
fn split<V>(node: NodePtr<V>, key: &[u8], depth: usize, cpl: usize, value: V) -> (r: NodePtr<V>)
    requires
        wf(node),
        depth <= key@.len(),
        cpl < node.prefix().len(),
        depth + cpl < key@.len(),
        key@.subrange(depth as int, depth + cpl) == node.prefix().take(cpl as int),
        key@[depth + cpl] != node.prefix()[cpl as int],
    ensures
        wf(r),
        lookup(node, key@.skip(depth as int)) is None,
        forall|k: Seq<u8>|
            #[trigger] lookup(r, k) == if k == key@.skip(depth as int) {
                Some(value)
            } else {
                lookup(node, k)
            },
{
    let ghost rest = key@.skip(depth as int);
    let ghost p = node.prefix();
    let ghost old_node = node;
    let klen = key.len();
    let mut body = node.into_body();
    let split_prefix = copy_bytes(body.header().prefix(), 0, cpl);
    let old_byte = body.header().prefix()[cpl];
    let new_byte = key[depth + cpl];
    body.drop_prefix(cpl + 1);
    let old_child = NodePtr::new(body);
    let leaf = NodePtr::new(NodeBody::Leaf(LeafNode::new(key, depth + cpl + 1, value)));
    let ghost leaf_n = leaf;
    let n4 = Node4::new_split(split_prefix.as_slice(), 0, cpl, (new_byte, leaf), (old_byte, old_child));
    let r = NodePtr::new(NodeBody::Node4(n4));
    proof {
        let c = cpl as int;
        let pc = p.take(c);
        let q = p.take(c + 1);
        assert(q =~= pc.push(old_byte));
        assert(p =~= q + old_child.prefix());
        lemma_reprefixed(old_node, old_child, q);
        assert(split_prefix@.subrange(0, c) =~= pc);
        assert(r.prefix() == pc);
        let t = key@.skip(depth + cpl + 1);
        assert(leaf_n.prefix() == t);
        assert(rest.take(c) =~= key@.subrange(depth as int, depth + cpl));
        assert(rest =~= pc.push(new_byte) + t);
        lemma_under(pc, new_byte, t);
        lemma_under(pc, old_byte, Seq::empty());
        assert(t.take(t.len() as int) =~= t);
        assert(t.skip(t.len() as int) =~= Seq::<u8>::empty());
        lemma_branch_lookup(r, new_byte, t);
        assert(lookup(leaf_n, t) == Some(value));
        assert forall|x: u8| (#[trigger] r.body().child(x)) is Some implies wf(r.body().child(x).unwrap()) by {}
        assert forall|k: Seq<u8>|
            #[trigger] lookup(r, k) == if k == rest {
                Some(value)
            } else {
                lookup(old_node, k)
            } by {
            if under(pc, new_byte, k) {
                let j = k.skip(c + 1);
                lemma_branch_lookup(r, new_byte, j);
                if j != t {
                    assert(k != rest);
                    if t.len() <= j.len() && j.take(t.len() as int) == t && j.skip(t.len() as int).len() == 0 {
                        assert(j =~= t);
                    }
                    assert(lookup(leaf_n, j) is None);
                }
                assert(!(q.len() <= k.len() && k.take(q.len() as int) == q)) by {
                    if q.len() <= k.len() && k.take(q.len() as int) == q {
                        assert(k.take(q.len() as int)[c] == k[c]);
                    }
                }
            } else if under(pc, old_byte, k) {
                let j = k.skip(c + 1);
                lemma_branch_lookup(r, old_byte, j);
                assert(k.take(q.len() as int) =~= q);
                assert(k != rest);
            } else {
                if pc.len() < k.len() && k.take(c) == pc {
                    lemma_branch_lookup(r, k[c], k.skip(c + 1));
                    lemma_under(pc, k[c], k.skip(c + 1));
                    assert(!(q.len() <= k.len() && k.take(q.len() as int) == q)) by {
                        if q.len() <= k.len() && k.take(q.len() as int) == q {
                            assert(k.take(q.len() as int)[c] == k[c]);
                        }
                    }
                } else {
                    assert(!(q.len() <= k.len() && k.take(q.len() as int) == q)) by {
                        if q.len() <= k.len() && k.take(q.len() as int) == q {
                            assert(k.take(c) =~= q.take(c));
                        }
                    }
                }
                assert(k != rest);
            }
        }
        assert(!(q.len() <= rest.len() && rest.take(q.len() as int) == q)) by {
            if q.len() <= rest.len() && rest.take(q.len() as int) == q {
                assert(rest.take(q.len() as int)[c] == new_byte);
            }
        }
    }
    r
}

/// Stores `key[depth..] ↦ value` in the subtree at `node`, which holds no key that is a
/// proper prefix of it nor one that it is a proper prefix of. Hands back the new subtree
/// and the value that the key had.
pub fn insert_node<V>(node: NodePtr<V>, key: &[u8], depth: usize, value: V) -> (r: (NodePtr<V>, Option<V>))
    requires
        wf(node),
        depth <= key@.len(),
        prefix_free_in(node, key@.skip(depth as int)),
    ensures
        wf(r.0),
        r.1 == lookup(node, key@.skip(depth as int)),
        forall|k: Seq<u8>|
            #[trigger] lookup(r.0, k) == if k == key@.skip(depth as int) {
                Some(value)
            } else {
                lookup(node, k)
            },
    decreases key@.len() - depth,
{
    let ghost old_node = node;
    let ghost rest = key@.skip(depth as int);
    let ghost p = old_node.prefix();
    let plen = node.as_body().header().prefix_len();
    let cpl = common_prefix_length(key, depth, node.as_body().header().prefix());
    proof {
        assert(rest.take(cpl as int) =~= key@.subrange(depth as int, depth + cpl));
    }
    if cpl < plen && cpl < key.len() - depth {
        let r = split(node, key, depth, cpl, value);
        return (r, None);
    }
    proof {
        if cpl < plen {
            // the key ends inside the prefix: it is a proper prefix of a key below
            lemma_holds_key(old_node);
            let w = choose|k: Seq<u8>|
                #[trigger] lookup(old_node, k) is Some && p.len() <= k.len() && k.take(p.len() as int) == p
                    && (!old_node.body().is_leaf() ==> p.len() < k.len());
            assert(w.take(rest.len() as int) =~= p.take(cpl as int));
            assert(strict_prefix(rest, w));
        }
        assert(rest.take(p.len() as int) =~= p);
    }
    let mut body = node.into_body();
    match body {
        NodeBody::Leaf(l) => {
            proof {
                assert(p.take(p.len() as int) =~= p);
                assert(p.skip(p.len() as int) =~= Seq::<u8>::empty());
                assert(lookup(old_node, p) is Some);
                if rest.len() > p.len() {
                    assert(strict_prefix(p, rest));
                }
                assert(rest =~= p);
            }
            let LeafNode { header, value: old } = l;
            let r = NodePtr::new(NodeBody::Leaf(LeafNode { header, value }));
            proof {
                assert forall|k: Seq<u8>|
                    #[trigger] lookup(r, k) == if k == rest {
                        Some(value)
                    } else {
                        lookup(old_node, k)
                    } by {
                    if p.len() <= k.len() && k.take(p.len() as int) == p && k.skip(p.len() as int).len() == 0 {
                        assert(k =~= p);
                    }
                }
            }
            (r, Some(old))
        },
        _ => {
            proof {
                if cpl == key.len() - depth {
                    lemma_holds_key(old_node);
                    let w = choose|k: Seq<u8>|
                        #[trigger] lookup(old_node, k) is Some && p.len() <= k.len() && k.take(p.len() as int)
                            == p && (!old_node.body().is_leaf() ==> p.len() < k.len());
                    assert(w.take(rest.len() as int) =~= p);
                    assert(strict_prefix(rest, w));
                }
            }
            let b = key[depth + plen];
            let ghost t = key@.skip(depth + plen + 1);
            proof {
                assert(rest =~= p.push(b) + t);
                lemma_under(p, b, t);
            }
            if body.has_child(b) {
                let ghost pre = body;
                let child = body.take_child(b);
                let ghost mid = body;
                proof {
                    assert forall|j: Seq<u8>| #[trigger] lookup(child, j) is Some implies !strict_prefix(j, t)
                        && !strict_prefix(t, j) by {
                        let kj = p.push(b) + j;
                        lemma_branch_lookup(old_node, b, j);
                        if strict_prefix(j, t) {
                            assert(rest.take(kj.len() as int) =~= kj);
                        }
                        if strict_prefix(t, j) {
                            assert(kj.take(rest.len() as int) =~= rest);
                        }
                    }
                }
                let (new_child, old) = insert_node(child, key, depth + plen + 1, value);
                body.put_child(b, new_child);
                proof {
                    lemma_put_back(pre, mid, body, b, new_child);
                }
                let r = NodePtr::new(body);
                proof {
                    lemma_branch_lookup(old_node, b, t);
                    assert forall|x: u8| (#[trigger] r.body().child(x)) is Some implies wf(r.body().child(x).unwrap()) by {
                        if x != b {
                            assert(pre.child(x) == old_node.body().child(x));
                        }
                    }
                    assert forall|k: Seq<u8>|
                        #[trigger] lookup(r, k) == if k == rest {
                            Some(value)
                        } else {
                            lookup(old_node, k)
                        } by {
                        if under(p, b, k) {
                            let j = k.skip(p.len() as int + 1);
                            lemma_branch_lookup(old_node, b, j);
                            lemma_branch_lookup(r, b, j);
                            if j == t {
                                assert(k == rest);
                            }
                        } else {
                            lemma_branch_same(r, old_node, b, k);
                        }
                    }
                }
                (r, old)
            } else {
                let leaf = NodePtr::new(NodeBody::Leaf(LeafNode::new(key, depth + plen + 1, value)));
                let ghost leaf_n = leaf;
                let ghost pre = body;
                let nb = body.insert_child(b, leaf);
                let r = NodePtr::new(nb);
                proof {
                    lemma_branch_lookup(old_node, b, t);
                    assert(leaf_n.prefix() == t);
                    assert forall|x: u8| (#[trigger] r.body().child(x)) is Some implies wf(r.body().child(x).unwrap()) by {
                        if x != b {
                            assert(pre.child(x) == old_node.body().child(x));
                        }
                    }
                    assert forall|k: Seq<u8>|
                        #[trigger] lookup(r, k) == if k == rest {
                            Some(value)
                        } else {
                            lookup(old_node, k)
                        } by {
                        if under(p, b, k) {
                            let j = k.skip(p.len() as int + 1);
                            lemma_branch_lookup(old_node, b, j);
                            lemma_branch_lookup(r, b, j);
                            if j == t {
                                assert(k == rest);
                                assert(j.take(t.len() as int) =~= j);
                                assert(j.skip(t.len() as int) =~= Seq::<u8>::empty());
                            } else {
                                if t.len() <= j.len() && j.take(t.len() as int) == t && j.skip(t.len() as int).len() == 0 {
                                    assert(j =~= t);
                                }
                            }
                        } else {
                            lemma_branch_same(r, old_node, b, k);
                        }
                    }
                }
                (r, None)
            }
        },
    }
}

/// Whether `node` is the leaf for `key[depth..]`.
pub fn is_exact_leaf<V>(node: &NodePtr<V>, key: &[u8], depth: usize) -> (r: bool)
    requires
        depth <= key@.len(),
    ensures
        r == (node.body().is_leaf() && node.prefix() == key@.skip(depth as int)),
{
    let body = node.as_body();
    if !body.is_leaf_node() {
        return false;
    }
    let prefix = body.header().prefix();
    if prefix.len() != key.len() - depth {
        proof {
            if node.prefix() == key@.skip(depth as int) {
                assert(false);
            }
        }
        return false;
    }
    let cpl = common_prefix_length(key, depth, prefix);
    proof {
        assert(key@.skip(depth as int).take(cpl as int) =~= key@.subrange(depth as int, depth + cpl));
        if cpl == prefix@.len() {
            assert(key@.skip(depth as int) =~= key@.subrange(depth as int, depth + cpl));
            assert(prefix@.take(cpl as int) =~= prefix@);
        } else if node.prefix() == key@.skip(depth as int) {
            assert(key@[depth + cpl] == key@.skip(depth as int)[cpl as int]);
        }
    }
    cpl == prefix.len()
}

/// The child `c2` under byte `b2` of a branch with header `h`, folded into the branch's
/// place: its prefix takes the branch's prefix and `b2` in front.
fn fold<V>(h: NodeHeader, b2: u8, c2: NodePtr<V>) -> (r: NodePtr<V>)
    ensures
        wf(r) == wf(c2),
        forall|k: Seq<u8>|
            #[trigger] lookup(r, k) == if under(h.spec_prefix(), b2, k) {
                lookup(c2, k.skip(h.spec_prefix().len() as int + 1))
            } else {
                None
            },
{
    let ghost c2n = c2;
    let mut cb = c2.into_body();
    cb.prepend_prefix(h.prefix(), b2);
    let r = NodePtr::new(cb);
    proof {
        let p = h.spec_prefix();
        let q = p.push(b2);
        assert(r.prefix() == q + c2n.prefix());
        lemma_reprefixed(r, c2n, q);
        lemma_under(p, b2, Seq::empty());
    }
    r
}

/// Removes from the branch `node` its child under byte `b`, the leaf whose prefix is `t`,
/// and hands back what is left (shrunk or folded as its shape asks) with the leaf's value.
fn detach<V>(node: NodePtr<V>, b: u8, t: Ghost<Seq<u8>>) -> (r: (NodePtr<V>, V))
    requires
        wf(node),
        !node.body().is_leaf(),
        node.body().child(b) matches Some(c) && c.body().is_leaf() && c.prefix() == t@,
    ensures
        wf(r.0),
        lookup(node, node.prefix().push(b) + t@) == Some(r.1),
        forall|k: Seq<u8>|
            #[trigger] lookup(r.0, k) == if k == node.prefix().push(b) + t@ {
                None
            } else {
                lookup(node, k)
            },
{
    let ghost old_node = node;
    let ghost p = node.prefix();
    let ghost rest = p.push(b) + t@;
    let body = node.into_body();
    let ghost pre = body;
    let (shrunk, removed) = body.remove_child(b);
    let ghost removed_n = removed;
    let v = match removed.into_body() {
        NodeBody::Leaf(l) => l.into_value(),
        _ => unreached(),
    };
    proof {
        let t = t@;
        lemma_under(p, b, t);
        lemma_branch_lookup(old_node, b, t);
        assert(t.take(t.len() as int) =~= t);
        assert(t.skip(t.len() as int) =~= Seq::<u8>::empty());
        assert(lookup(removed_n, t) == Some(v));
    }
    match shrunk {
        Shrunk::Node(nb) => {
            let r = NodePtr::new(nb);
            proof {
                let t = t@;
                assert forall|x: u8| (#[trigger] r.body().child(x)) is Some implies wf(r.body().child(x).unwrap()) by {
                    assert(pre.child(x) == old_node.body().child(x));
                }
                assert forall|k: Seq<u8>|
                    #[trigger] lookup(r, k) == if k == rest {
                        None
                    } else {
                        lookup(old_node, k)
                    } by {
                    if under(p, b, k) {
                        let j = k.skip(p.len() as int + 1);
                        lemma_branch_lookup(old_node, b, j);
                        lemma_branch_lookup(r, b, j);
                        if j != t {
                            if t.len() <= j.len() && j.take(t.len() as int) == t && j.skip(t.len() as int).len() == 0 {
                                assert(j =~= t);
                            }
                        }
                    } else {
                        lemma_branch_same(r, old_node, b, k);
                    }
                }
            }
            (r, v)
        },
        Shrunk::Single(h, b2, c2) => {
            let r = fold(h, b2, c2);
            proof {
                let t = t@;
                assert forall|k: Seq<u8>|
                    #[trigger] lookup(r, k) == if k == rest {
                        None
                    } else {
                        lookup(old_node, k)
                    } by {
                    assert(h.spec_prefix() == p);
                    if under(p, b2, k) {
                        let j = k.skip(p.len() as int + 1);
                        lemma_under(p, b2, j);
                        lemma_branch_lookup(old_node, b2, j);
                        assert(lookup(r, k) == lookup(c2, j));
                        assert(k != rest) by {
                            assert(k[p.len() as int] == b2);
                            assert(rest[p.len() as int] == b);
                        }
                    } else if p.len() < k.len() && k.take(p.len() as int) == p {
                        let x = k[p.len() as int];
                        let j = k.skip(p.len() as int + 1);
                        lemma_under(p, x, j);
                        lemma_branch_lookup(old_node, x, j);
                        assert(under(p, x, k));
                        assert(k == p.push(x) + j);
                        if x == b && j != t {
                            if t.len() <= j.len() && j.take(t.len() as int) == t && j.skip(t.len() as int).len() == 0 {
                                assert(j =~= t);
                            }
                        }
                        if x != b {
                            assert(k != rest) by {
                                assert(rest[p.len() as int] == b);
                            }
                            assert(pre.child(x) is None);
                            assert(lookup(old_node, k) is None);
                        } else if j == t {
                            assert(k == rest);
                        } else {
                            assert(old_node.body().child(b) == Some(removed_n));
                            assert(removed_n.prefix() == t);
                            assert(removed_n.body().is_leaf());
                            if t.len() <= j.len() && j.take(t.len() as int) == t {
                                if j.skip(t.len() as int).len() == 0 {
                                    assert(j =~= t);
                                }
                            }
                            assert(lookup(removed_n, j) is None);
                            assert(lookup(old_node, k) is None);
                        }
                        assert(lookup(r, k) is None);
                    } else {
                        assert(k != rest);
                        assert(lookup(r, k) is None);
                        assert(lookup(old_node, k) is None);
                    }
                }
            }
            (r, v)
        },
    }
}

/// Removes `key[depth..]` from the subtree at `node`, which is not itself the leaf for it.
/// Hands back the new subtree and the value that the key had.
pub fn remove_node<V>(node: NodePtr<V>, key: &[u8], depth: usize) -> (r: (NodePtr<V>, Option<V>))
    requires
        wf(node),
        depth <= key@.len(),
        !(node.body().is_leaf() && node.prefix() == key@.skip(depth as int)),
    ensures
        wf(r.0),
        r.1 == lookup(node, key@.skip(depth as int)),
        forall|k: Seq<u8>|
            #[trigger] lookup(r.0, k) == if k == key@.skip(depth as int) {
                None
            } else {
                lookup(node, k)
            },
    decreases key@.len() - depth,
{
    let ghost old_node = node;
    let ghost rest = key@.skip(depth as int);
    let ghost p = old_node.prefix();
    let plen = node.as_body().header().prefix_len();
    let cpl = common_prefix_length(key, depth, node.as_body().header().prefix());
    proof {
        assert(rest.take(cpl as int) =~= key@.subrange(depth as int, depth + cpl));
    }
    if cpl < plen || node.as_body().is_leaf_node() || cpl == key.len() - depth {
        proof {
            if p.len() <= rest.len() && rest.take(p.len() as int) == p {
                if cpl < plen {
                    assert(rest[cpl as int] == p[cpl as int]);
                } else if old_node.body().is_leaf() && rest.skip(p.len() as int).len() == 0 {
                    assert(rest =~= p);
                }
            }
        }
        return (node, None);
    }
    let b = key[depth + plen];
    let ghost t = key@.skip(depth + plen + 1);
    proof {
        assert(rest.take(p.len() as int) =~= p);
        assert(rest =~= p.push(b) + t);
        lemma_under(p, b, t);
        lemma_branch_lookup(old_node, b, t);
    }
    let mut body = node.into_body();
    if !body.has_child(b) {
        let r = NodePtr::new(body);
        return (r, None);
    }
    let exact = match body.get(b) {
        Some(c) => is_exact_leaf(c, key, depth + plen + 1),
        None => false,
    };
    if exact {
        let (r, v) = detach(NodePtr::new(body), b, Ghost(t));
        return (r, Some(v));
    } else {
        let ghost pre = body;
        let child = body.take_child(b);
        let ghost mid = body;
        let (new_child, old) = remove_node(child, key, depth + plen + 1);
        body.put_child(b, new_child);
        proof {
            lemma_put_back(pre, mid, body, b, new_child);
        }
        let r = NodePtr::new(body);
        proof {
            assert forall|x: u8| (#[trigger] r.body().child(x)) is Some implies wf(r.body().child(x).unwrap()) by {
                if x != b {
                    assert(pre.child(x) == old_node.body().child(x));
                }
            }
            assert forall|k: Seq<u8>|
                #[trigger] lookup(r, k) == if k == rest {
                    None
                } else {
                    lookup(old_node, k)
                } by {
                if under(p, b, k) {
                    let j = k.skip(p.len() as int + 1);
                    lemma_branch_lookup(old_node, b, j);
                    lemma_branch_lookup(r, b, j);
                    if j == t {
                        assert(k == rest);
                    }
                } else {
                    lemma_branch_same(r, old_node, b, k);
                }
            }
        }
        (r, old)
    }
}

/// `after` is `before` with the value for `k0` replaced by `v`.
pub open spec fn updated_at<V>(before: NodePtr<V>, after: NodePtr<V>, k0: Seq<u8>, v: V) -> bool {
    &&& wf(after)
    &&& forall|k: Seq<u8>|
        #[trigger] lookup(after, k) == if k == k0 {
            Some(v)
        } else {
            lookup(before, k)
        }
}

/// `after` holds what `before` holds.
pub open spec fn unchanged<V>(before: NodePtr<V>, after: NodePtr<V>) -> bool {
    &&& wf(after)
    &&& forall|k: Seq<u8>| #[trigger] lookup(after, k) == lookup(before, k)
}

/// A branch whose child under `b` is replaced by an updated (or unchanged) copy is
/// updated (or unchanged) in the same way.
pub proof fn lemma_update_through<V>(before: NodePtr<V>, after: NodePtr<V>, b: u8, t: Seq<u8>)
    requires
        wf(before),
        !before.body().is_leaf(),
        before.body().child(b) is Some,
    ensures
        forall|ca: NodePtr<V>, v: V|
            #![trigger before.body().slot_set(after.body(), b, Some(ca)), updated_at(before.body().child(b).unwrap(), ca, t, v)]
            before.body().slot_set(after.body(), b, Some(ca)) && updated_at(before.body().child(b).unwrap(), ca, t, v)
                ==> updated_at(before, after, before.prefix().push(b) + t, v),
        forall|ca: NodePtr<V>|
            #![trigger before.body().slot_set(after.body(), b, Some(ca)), unchanged(before.body().child(b).unwrap(), ca)]
            before.body().slot_set(after.body(), b, Some(ca)) && unchanged(before.body().child(b).unwrap(), ca)
                ==> unchanged(before, after),
{
    let p = before.prefix();
    let rest = p.push(b) + t;
    lemma_under(p, b, t);
    assert forall|ca: NodePtr<V>, v: V|
        before.body().slot_set(after.body(), b, Some(ca)) && updated_at(before.body().child(b).unwrap(), ca, t, v)
            implies updated_at(before, after, rest, v) by {
        lemma_replace_child(before.body(), after.body(), b, ca);
        assert forall|x: u8| (#[trigger] after.body().child(x)) is Some implies wf(after.body().child(x).unwrap()) by {
            if x != b {
                assert(before.body().child(x) == after.body().child(x));
            }
        }
        assert forall|k: Seq<u8>|
            #[trigger] lookup(after, k) == if k == rest {
                Some(v)
            } else {
                lookup(before, k)
            } by {
            if under(p, b, k) {
                let j = k.skip(p.len() as int + 1);
                lemma_branch_lookup(before, b, j);
                lemma_branch_lookup(after, b, j);
                if j == t {
                    assert(k == rest);
                }
            } else {
                lemma_branch_same(after, before, b, k);
            }
        }
    }
    assert forall|ca: NodePtr<V>|
        before.body().slot_set(after.body(), b, Some(ca)) && unchanged(before.body().child(b).unwrap(), ca)
            implies unchanged(before, after) by {
        lemma_replace_child(before.body(), after.body(), b, ca);
        assert forall|x: u8| (#[trigger] after.body().child(x)) is Some implies wf(after.body().child(x).unwrap()) by {
            if x != b {
                assert(before.body().child(x) == after.body().child(x));
            }
        }
        assert forall|k: Seq<u8>| #[trigger] lookup(after, k) == lookup(before, k) by {
            if under(p, b, k) {
                let j = k.skip(p.len() as int + 1);
                lemma_branch_lookup(before, b, j);
                lemma_branch_lookup(after, b, j);
            } else {
                lemma_branch_same(after, before, b, k);
            }
        }
    }
}

/// A leaf whose value is replaced holds the new value for its key.
pub proof fn lemma_update_leaf<V>(before: NodePtr<V>, after: NodePtr<V>)
    requires
        wf(before),
        before.body().is_leaf(),
    ensures
        forall|v: V|
            #![trigger updated_at(before, after, before.prefix(), v)]
            after.body() == (NodeBody::Leaf(LeafNode { header: before.body().hdr(), value: v }))
                ==> updated_at(before, after, before.prefix(), v),
{
    let p = before.prefix();
    assert forall|v: V|
        after.body() == (NodeBody::Leaf(LeafNode { header: before.body().hdr(), value: v }))
            implies updated_at(before, after, p, v) by {
        assert(p.take(p.len() as int) =~= p);
        assert(p.skip(p.len() as int) =~= Seq::<u8>::empty());
        assert forall|k: Seq<u8>|
            #[trigger] lookup(after, k) == if k == p {
                Some(v)
            } else {
                lookup(before, k)
            } by {
            if p.len() <= k.len() && k.take(p.len() as int) == p && k.skip(p.len() as int).len() == 0 {
                assert(k =~= p);
            }
        }
    }
}

/// Mutable access to the value that the subtree at `node` holds for `key[depth..]`.
pub fn get_node_mut<'a, V>(node: &'a mut NodePtr<V>, key: &[u8], depth: usize) -> (r: Option<&'a mut V>)
    requires
        wf(*old(node)),
        depth <= key@.len(),
    ensures
        match r {
            Some(v) => lookup(*old(node), key@.skip(depth as int)) == Some(*v) && updated_at(
                *old(node),
                *final(node),
                key@.skip(depth as int),
                *final(v),
            ),
            None => lookup(*old(node), key@.skip(depth as int)) is None && unchanged(*old(node), *final(node)),
        },
    decreases key@.len() - depth,
{
    let ghost old_node = *node;
    let ghost rest = key@.skip(depth as int);
    let ghost p = old_node.prefix();
    let plen = node.as_body().header().prefix_len();
    let cpl = common_prefix_length(key, depth, node.as_body().header().prefix());
    proof {
        assert(rest.take(cpl as int) =~= key@.subrange(depth as int, depth + cpl));
    }
    if cpl < plen {
        proof {
            if p.len() <= rest.len() && rest.take(p.len() as int) == p {
                assert(rest[cpl as int] == p[cpl as int]);
            }
        }
        return None;
    }
    proof {
        assert(rest.take(p.len() as int) =~= p);
    }
    if node.as_body().is_leaf_node() {
        if cpl != key.len() - depth {
            return None;
        }
        proof {
            assert(rest =~= p);
            lemma_update_leaf(old_node, *final(node));
        }
        let body = node.body_mut();
        match body {
            NodeBody::Leaf(l) => {
                return Some(&mut l.value);
            },
            _ => {
                return unreached();
            },
        }
    }
    if cpl == key.len() - depth {
        return None;
    }
    let b = key[depth + cpl];
    let ghost t = key@.skip(depth + cpl + 1);
    proof {
        assert(rest =~= p.push(b) + t);
        lemma_under(p, b, t);
        lemma_branch_lookup(old_node, b, t);
        if old_node.body().child(b) is Some {
            lemma_update_through(old_node, *final(node), b, t);
        }
    }
    let body = node.body_mut();
    match body.child_mut(b) {
        Some(c) => get_node_mut(c, key, depth + cpl + 1),
        None => None,
    }
}

/// Every key of the subtree at `n` starts with its prefix.
pub proof fn lemma_keys_start_with_prefix<V>(n: NodePtr<V>, k: Seq<u8>)
    requires
        lookup(n, k) is Some,
    ensures
        n.prefix().len() <= k.len(),
        k.take(n.prefix().len() as int) == n.prefix(),
        !n.body().is_leaf() ==> n.prefix().len() < k.len() && n.body().child(k[n.prefix().len() as int]) is Some,
{
}

/// Putting the same bytes in front of two keys keeps whether one is a proper prefix of the other.
pub proof fn lemma_prefix_extend(q: Seq<u8>, u: Seq<u8>, t: Seq<u8>)
    ensures
        strict_prefix(q + u, q + t) == strict_prefix(u, t),
        strict_prefix(q + t, q + u) == strict_prefix(t, u),
{
    if strict_prefix(u, t) {
        assert((q + t).take((q + u).len() as int) =~= q + t.take(u.len() as int));
    }
    if strict_prefix(q + u, q + t) {
        assert(t.take(u.len() as int) =~= (q + t).take((q + u).len() as int).skip(q.len() as int));
        assert((q + u).skip(q.len() as int) =~= u);
    }
    if strict_prefix(t, u) {
        assert((q + u).take((q + t).len() as int) =~= q + u.take(t.len() as int));
    }
    if strict_prefix(q + t, q + u) {
        assert(u.take(t.len() as int) =~= (q + u).take((q + t).len() as int).skip(q.len() as int));
        assert((q + t).skip(q.len() as int) =~= t);
    }
}

/// Two keys that differ at a position both reach are not prefixes of each other.
pub proof fn lemma_differ_at(a: Seq<u8>, b: Seq<u8>, i: int)
    requires
        0 <= i < a.len(),
        i < b.len(),
        a[i] != b[i],
    ensures
        !strict_prefix(a, b),
        !strict_prefix(b, a),
{
    if strict_prefix(a, b) {
        assert(b.take(a.len() as int)[i] == b[i]);
    }
    if strict_prefix(b, a) {
        assert(a.take(b.len() as int)[i] == a[i]);
    }
}

/// Whether `key[depth..]` may be stored in the subtree at `node`: it is no proper prefix of
/// a key there, and no key there is a proper prefix of it.
pub fn compatible_node<V>(node: &NodePtr<V>, key: &[u8], depth: usize) -> (r: bool)
    requires
        wf(*node),
        depth <= key@.len(),
    ensures
        r == prefix_free_in(*node, key@.skip(depth as int)),
    decreases key@.len() - depth,
{
    let ghost rest = key@.skip(depth as int);
    let ghost p = node.prefix();
    let body = node.as_body();
    let plen = body.header().prefix_len();
    let cpl = common_prefix_length(key, depth, body.header().prefix());
    proof {
        assert(rest.take(cpl as int) =~= key@.subrange(depth as int, depth + cpl));
        lemma_holds_key(*node);
    }
    let ghost w = choose|k: Seq<u8>|
        #[trigger] lookup(*node, k) is Some && p.len() <= k.len() && k.take(p.len() as int) == p && (
        !node.body().is_leaf() ==> p.len() < k.len());
    if cpl < plen {
        if cpl == key.len() - depth {
            proof {
                assert(w.take(rest.len() as int) =~= p.take(cpl as int));
                assert(strict_prefix(rest, w));
            }
            return false;
        }
        proof {
            assert forall|j: Seq<u8>| #[trigger] lookup(*node, j) is Some implies !strict_prefix(j, rest)
                && !strict_prefix(rest, j) by {
                lemma_keys_start_with_prefix(*node, j);
                assert(j[cpl as int] == j.take(p.len() as int)[cpl as int]);
                lemma_differ_at(j, rest, cpl as int);
            }
        }
        return true;
    }
    proof {
        assert(rest.take(p.len() as int) =~= p);
    }
    if body.is_leaf_node() {
        proof {
            assert(p.take(p.len() as int) =~= p);
            assert(p.skip(p.len() as int) =~= Seq::<u8>::empty());
            assert(lookup(*node, p) is Some);
            assert forall|j: Seq<u8>| #[trigger] lookup(*node, j) is Some implies j == p by {
                lemma_keys_start_with_prefix(*node, j);
                assert(j =~= p);
            }
            if rest.len() > p.len() {
                assert(strict_prefix(p, rest));
            } else {
                assert(rest =~= p);
            }
        }
        return cpl == key.len() - depth;
    }
    if cpl == key.len() - depth {
        proof {
            assert(w.take(rest.len() as int) =~= p);
            assert(strict_prefix(rest, w));
        }
        return false;
    }
    let b = key[depth + plen];
    let ghost t = key@.skip(depth + plen + 1);
    proof {
        assert(rest =~= p.push(b) + t);
        lemma_under(p, b, t);
    }
    match body.get(b) {
        None => {
            proof {
                assert forall|j: Seq<u8>| #[trigger] lookup(*node, j) is Some implies !strict_prefix(j, rest)
                    && !strict_prefix(rest, j) by {
                    lemma_keys_start_with_prefix(*node, j);
                    assert(rest[p.len() as int] == b);
                    lemma_differ_at(j, rest, p.len() as int);
                }
            }
            true
        },
        Some(c) => {
            let r = compatible_node(c, key, depth + plen + 1);
            proof {
                if r {
                    assert forall|j: Seq<u8>| #[trigger] lookup(*node, j) is Some implies !strict_prefix(j, rest)
                        && !strict_prefix(rest, j) by {
                        lemma_keys_start_with_prefix(*node, j);
                        let x = j[p.len() as int];
                        let u = j.skip(p.len() as int + 1);
                        lemma_under(p, x, u);
                        assert(under(p, x, j));
                        lemma_branch_lookup(*node, x, u);
                        if x == b {
                            assert(lookup(*c, u) is Some);
                            lemma_prefix_extend(p.push(b), u, t);
                        } else {
                            lemma_differ_at(j, rest, p.len() as int);
                        }
                    }
                } else {
                    let u = choose|u: Seq<u8>| #[trigger] lookup(*c, u) is Some && !(!strict_prefix(u, t) && !strict_prefix(t, u));
                    let j = p.push(b) + u;
                    lemma_under(p, b, u);
                    lemma_branch_lookup(*node, b, u);
                    assert(lookup(*node, j) is Some);
                    lemma_prefix_extend(p.push(b), u, t);
                }
            }
            r
        },
    }
}

} // verus!
