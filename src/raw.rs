//! The tree over byte keys: a root that is empty or a node.
use crate::nodes::{lookup, wf, LeafNode, NodeBody, NodePtr};
use crate::tree::{
    compatible_node, get_node, get_node_mut, insert_node, is_exact_leaf, remove_node, strict_prefix, unchanged, updated_at,
};
use std::sync::Arc;
use vstd::prelude::*;

verus! {

/// `key` is no proper prefix of a key of `m`, nor is one of them a proper prefix of `key`.
pub open spec fn prefix_compatible<V>(m: Map<Seq<u8>, V>, key: Seq<u8>) -> bool {
    forall|j: Seq<u8>| #[trigger] m.contains_key(j) ==> !strict_prefix(j, key) && !strict_prefix(key, j)
}

/// What the tree with root `root` holds for key `k`.
pub open spec fn root_lookup<V>(root: Option<NodePtr<V>>, k: Seq<u8>) -> Option<V> {
    match root {
        Some(n) => lookup(n, k),
        None => None,
    }
}

/// An adaptive radix tree over byte keys, none of which is a proper prefix of another.
pub struct RawArt<V> {
    root: Option<NodePtr<V>>,
}

impl<V> View for RawArt<V> {
    type V = Map<Seq<u8>, V>;

    closed spec fn view(&self) -> Map<Seq<u8>, V> {
        Map::new(
            |k: Seq<u8>| root_lookup(self.root, k) is Some,
            |k: Seq<u8>| root_lookup(self.root, k).unwrap(),
        )
    }
}

impl<V> RawArt<V> {
    /// The shape invariant of every node of the tree.
    pub closed spec fn wf(&self) -> bool {
        self.root matches Some(n) ==> wf(n)
    }

    /// The root node, if the tree holds a key.
    pub closed spec fn spec_root(&self) -> Option<NodePtr<V>> {
        self.root
    }

    /// The root node, if the tree holds a key.
    pub fn root(&self) -> (r: Option<&NodePtr<V>>)
        ensures
            match r {
                Some(n) => self.spec_root() == Some(*n),
                None => self.spec_root() is None,
            },
    {
        match &self.root {
            Some(n) => Some(n),
            None => None,
        }
    }

    /// An empty tree.
    pub fn new() -> (r: RawArt<V>)
        ensures
            r.wf(),
            r@ == Map::<Seq<u8>, V>::empty(),
    {
        let r = RawArt { root: None };
        proof {
            assert(r@ =~= Map::<Seq<u8>, V>::empty());
        }
        r
    }

    /// Whether the tree holds no key.
    pub fn is_empty(&self) -> (r: bool)
        requires
            self.wf(),
        ensures
            r == (self@ == Map::<Seq<u8>, V>::empty()),
    {
        match &self.root {
            None => {
                proof {
                    assert(self@ =~= Map::<Seq<u8>, V>::empty());
                }
                true
            },
            Some(n) => {
                proof {
                    crate::tree::lemma_holds_key(*n);
                    let k = choose|k: Seq<u8>| #[trigger] lookup(*n, k) is Some && n.prefix().len() <= k.len()
                        && k.take(n.prefix().len() as int) == n.prefix() && (!n.body().is_leaf() ==> n.prefix().len() < k.len());
                    assert(self@.contains_key(k));
                }
                false
            },
        }
    }

    /// The value stored for `key`.
    pub fn get(&self, key: &[u8]) -> (r: Option<&V>)
        requires
            self.wf(),
        ensures
            match r {
                Some(v) => self@.contains_key(key@) && self@[key@] == *v,
                None => !self@.contains_key(key@),
            },
    {
        match &self.root {
            None => None,
            Some(n) => {
                proof {
                    assert(key@.skip(0) =~= key@);
                }
                get_node(n, key, 0)
            },
        }
    }

    /// Mutable access to the value stored for `key`; what is written through it becomes
    /// the key's value.
    pub fn get_mut(&mut self, key: &[u8]) -> (r: Option<&mut V>)
        requires
            old(self).wf(),
        ensures
            match r {
                Some(v) => old(self)@.contains_key(key@) && old(self)@[key@] == *v && final(self).wf()
                    && final(self)@ == old(self)@.insert(key@, *final(v)),
                None => !old(self)@.contains_key(key@) && final(self).wf() && final(self)@ == old(self)@,
            },
    {
        proof {
            assert(key@.skip(0) =~= key@);
            lemma_root_update(*old(self), *final(self), key@);
        }
        match &mut self.root {
            None => None,
            Some(n) => get_node_mut(n, key, 0),
        }
    }

    /// Whether `key` may be stored: it is no proper prefix of a stored key, and no stored
    /// key is a proper prefix of it.
    pub fn can_insert(&self, key: &[u8]) -> (r: bool)
        requires
            self.wf(),
        ensures
            r == prefix_compatible(self@, key@),
    {
        proof {
            assert(key@.skip(0) =~= key@);
        }
        match &self.root {
            None => {
                proof {
                    assert forall|j: Seq<u8>| !#[trigger] self@.contains_key(j) by {}
                }
                true
            },
            Some(n) => {
                let r = compatible_node(n, key, 0);
                proof {
                    if r {
                        assert forall|j: Seq<u8>| #[trigger] self@.contains_key(j) implies !strict_prefix(j, key@)
                            && !strict_prefix(key@, j) by {
                            assert(lookup(*n, j) is Some);
                        }
                    } else {
                        let j = choose|j: Seq<u8>|
                            #[trigger] lookup(*n, j) is Some && !(!strict_prefix(j, key@) && !strict_prefix(key@, j));
                        assert(self@.contains_key(j));
                    }
                }
                r
            },
        }
    }

    /// Stores `key ↦ value` and hands back the value the key had. The key must be no
    /// proper prefix of a stored key, and no stored key a proper prefix of it.
    pub fn insert(&mut self, key: &[u8], value: V) -> (r: Option<V>)
        requires
            old(self).wf(),
            prefix_compatible(old(self)@, key@),
        ensures
            final(self).wf(),
            final(self)@ == old(self)@.insert(key@, value),
            r is Some == old(self)@.contains_key(key@),
            r matches Some(v) ==> v == old(self)@[key@],
    {
        proof {
            assert(key@.skip(0) =~= key@);
        }
        match self.root.take() {
            None => {
                let leaf = LeafNode::new(key, 0, value);
                let n = NodePtr::new(NodeBody::Leaf(leaf));
                self.root = Some(n);
                proof {
                    assert(n.prefix() == key@);
                    assert(key@.take(key@.len() as int) =~= key@);
                    assert(key@.skip(key@.len() as int) =~= Seq::<u8>::empty());
                    assert forall|k: Seq<u8>| #[trigger] lookup(n, k) is Some implies k == key@ by {
                        assert(k.take(key@.len() as int) == key@);
                        assert(k =~= key@);
                    }
                    assert(self@ =~= old(self)@.insert(key@, value));
                }
                None
            },
            Some(n) => {
                let ghost on = n;
                proof {
                    assert forall|j: Seq<u8>| #[trigger] lookup(n, j) is Some implies !strict_prefix(j, key@)
                        && !strict_prefix(key@, j) by {
                        assert(old(self)@.contains_key(j));
                    }
                }
                let (nn, prev) = insert_node(n, key, 0, value);
                self.root = Some(nn);
                proof {
                    assert(self@ =~= old(self)@.insert(key@, value));
                }
                prev
            },
        }
    }

    /// Removes `key` and hands back its value.
    pub fn remove(&mut self, key: &[u8]) -> (r: Option<V>)
        requires
            old(self).wf(),
        ensures
            final(self).wf(),
            final(self)@ == old(self)@.remove(key@),
            r is Some == old(self)@.contains_key(key@),
            r matches Some(v) ==> v == old(self)@[key@],
    {
        proof {
            assert(key@.skip(0) =~= key@);
        }
        match self.root.take() {
            None => {
                proof {
                    assert(self@ =~= old(self)@.remove(key@));
                }
                None
            },
            Some(n) => {
                if is_exact_leaf(&n, key, 0) {
                    let ghost on = n;
                    let v = match n.into_body() {
                        NodeBody::Leaf(l) => l.into_value(),
                        _ => unreached(),
                    };
                    proof {
                        assert(key@.take(key@.len() as int) =~= key@);
                        assert(key@.skip(key@.len() as int) =~= Seq::<u8>::empty());
                        assert forall|k: Seq<u8>| #[trigger] lookup(on, k) is Some implies k == key@ by {
                            assert(k.take(key@.len() as int) == key@);
                            assert(k =~= key@);
                        }
                        assert(self@ =~= old(self)@.remove(key@));
                    }
                    Some(v)
                } else {
                    let (nn, prev) = remove_node(n, key, 0);
                    self.root = Some(nn);
                    proof {
                        assert(self@ =~= old(self)@.remove(key@));
                    }
                    prev
                }
            },
        }
    }
}

impl<W> RawArt<Arc<W>> {
    /// A copy of the tree that shares its values.
    pub fn copy(&self) -> (r: RawArt<Arc<W>>)
        requires
            self.wf(),
        ensures
            r.wf(),
            r@ == self@,
    {
        match &self.root {
            None => RawArt { root: None },
            Some(n) => {
                let c = crate::shared::copy_node(n);
                let r = RawArt { root: Some(c) };
                proof {
                    assert(r@ =~= self@);
                }
                r
            },
        }
    }
}

/// How a change below the root shows in the tree's view.
proof fn lemma_root_update<V>(before: RawArt<V>, after: RawArt<V>, k: Seq<u8>)
    ensures
        forall|v: V|
            #![trigger updated_at(before.root.unwrap(), after.root.unwrap(), k, v)]
            before.root is Some && after.root is Some && updated_at(before.root.unwrap(), after.root.unwrap(), k, v)
                ==> after.wf() && after@ == before@.insert(k, v),
        before.root is Some && after.root is Some && unchanged(before.root.unwrap(), after.root.unwrap())
            ==> after.wf() && after@ == before@,
        before.root is None && after.root is None ==> after.wf() && after@ == before@,
{
    assert forall|v: V|
        before.root is Some && after.root is Some && updated_at(before.root.unwrap(), after.root.unwrap(), k, v)
            implies after.wf() && after@ == before@.insert(k, v) by {
        assert(after@ =~= before@.insert(k, v));
    }
    if before.root is Some && after.root is Some && unchanged(before.root.unwrap(), after.root.unwrap()) {
        assert(after@ =~= before@);
    }
    if before.root is None && after.root is None {
        assert(after@ =~= before@);
    }
}

impl<V> Default for RawArt<V> {
    fn default() -> (r: Self)
        ensures
            r.wf(),
            r@ == Map::<Seq<u8>, V>::empty(),
    {
        Self::new()
    }
}

} // verus!
