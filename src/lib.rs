//! An adaptive radix tree: an ordered map from prefix-free byte keys to values.
//!
//! Branch nodes come in four shapes (`Node4`, `Node16`, `Node48`, `Node256`) that grow and
//! shrink with their population; every node compresses the key bytes that all keys below
//! it share into a prefix.

pub mod body;
pub mod count;
pub mod header;
pub mod key;
pub mod laws;
pub mod node16;
pub mod node256;
pub mod node4;
pub mod node48;
pub mod nodes;
pub mod raw;
pub mod shared;
pub mod sorted;
pub mod tree;

pub use header::{InlineStorage, NodeData, NodeHeader, NodeHeaderData, NodeKind};
pub use key::{Key, KeyPrefixError, PostfixedBytes, INVALID_STR_BYTE};
pub use nodes::{LeafNode, Node16, Node256, Node4, Node48, NodeBody, NodePtr};
pub use raw::RawArt;
pub use shared::{Aart, RawAart};

use raw::prefix_compatible;
use std::marker::PhantomData;
use vstd::prelude::*;

verus! {

/// A map from keys of type `K`, by their byte encoding, to values of type `V`.
pub struct Art<K: Key + ?Sized, V> {
    tree: RawArt<V>,
    len: usize,
    keys: Ghost<Set<Seq<u8>>>,
    _marker: PhantomData<K>,
}

impl<K: Key + ?Sized, V> View for Art<K, V> {
    type V = Map<Seq<u8>, V>;

    closed spec fn view(&self) -> Map<Seq<u8>, V> {
        self.tree@
    }
}

impl<K: Key + ?Sized, V> Art<K, V> {
    /// The tree is well formed and `len` counts its keys.
    pub closed spec fn wf(&self) -> bool {
        &&& self.tree.wf()
        &&& self.keys@ == self.tree@.dom()
        &&& self.keys@.finite()
        &&& self.len == self.keys@.len()
    }

    /// An empty map.
    pub fn new() -> (r: Self)
        ensures
            r.wf(),
            r@ == Map::<Seq<u8>, V>::empty(),
    {
        let tree = RawArt::new();
        let r = Art { tree, len: 0, keys: Ghost(Set::empty()), _marker: PhantomData };
        proof {
            assert(r.tree@.dom() =~= Set::<Seq<u8>>::empty());
        }
        r
    }

    /// The number of keys.
    pub fn len(&self) -> (r: usize)
        requires
            self.wf(),
        ensures
            r == self@.dom().len(),
    {
        self.len
    }

    /// Whether the map holds no key.
    pub fn is_empty(&self) -> (r: bool)
        requires
            self.wf(),
        ensures
            r == (self@ == Map::<Seq<u8>, V>::empty()),
    {
        proof {
            if self.len == 0 {
                assert(self@.dom() =~= Set::<Seq<u8>>::empty());
                assert(self@ =~= Map::<Seq<u8>, V>::empty());
            } else if self@ == Map::<Seq<u8>, V>::empty() {
                assert(self@.dom() =~= Set::<Seq<u8>>::empty());
            }
        }
        self.len == 0
    }

    /// The value stored for `key`.
    pub fn get(&self, key: &K) -> (r: Option<&V>)
        requires
            self.wf(),
        ensures
            match r {
                Some(v) => self@.contains_key(key.key_bytes()) && self@[key.key_bytes()] == *v,
                None => !self@.contains_key(key.key_bytes()),
            },
    {
        let k = key.as_key_bytes();
        self.tree.get(k.as_slice())
    }

    /// Mutable access to the value stored for `key`; what is written through it becomes
    /// the key's value.
    pub fn get_mut(&mut self, key: &K) -> (r: Option<&mut V>)
        requires
            old(self).wf(),
        ensures
            match r {
                Some(v) => old(self)@.contains_key(key.key_bytes()) && old(self)@[key.key_bytes()] == *v
                    && final(self).wf() && final(self)@ == old(self)@.insert(key.key_bytes(), *final(v)),
                None => !old(self)@.contains_key(key.key_bytes()) && final(self).wf() && final(self)@
                    == old(self)@,
            },
    {
        let k = key.as_key_bytes();
        proof {
            lemma_same_keys(*old(self), *final(self), key.key_bytes());
        }
        self.tree.get_mut(k.as_slice())
    }

    /// Stores `key ↦ value` and hands back the value the key had. The key's encoding must
    /// be no proper prefix of a stored key's, and no stored key's a proper prefix of it.
    pub fn insert(&mut self, key: &K, value: V) -> (r: Option<V>)
        requires
            old(self).wf(),
            prefix_compatible(old(self)@, key.key_bytes()),
            old(self)@.dom().len() < usize::MAX,
        ensures
            final(self).wf(),
            final(self)@ == old(self)@.insert(key.key_bytes(), value),
            r is Some == old(self)@.contains_key(key.key_bytes()),
            r matches Some(v) ==> v == old(self)@[key.key_bytes()],
    {
        let k = key.as_key_bytes();
        let res = self.tree.insert(k.as_slice(), value);
        if res.is_none() {
            self.len = self.len + 1;
        }
        proof {
            self.keys@ = self.keys@.insert(key.key_bytes());
            assert(self.keys@ =~= self.tree@.dom());
        }
        res
    }

    /// Whether `key` may be stored: its encoding is no proper prefix of a stored key's, and
    /// no stored key's encoding is a proper prefix of it.
    pub fn can_insert(&self, key: &K) -> (r: bool)
        requires
            self.wf(),
        ensures
            r == prefix_compatible(self@, key.key_bytes()),
    {
        let k = key.as_key_bytes();
        self.tree.can_insert(k.as_slice())
    }

    /// Stores `key ↦ value` where that is allowed and hands back the value the key had;
    /// a key in conflict with a stored key is refused and the map left as it is.
    pub fn try_insert(&mut self, key: &K, value: V) -> (r: Result<Option<V>, KeyPrefixError>)
        requires
            old(self).wf(),
            old(self)@.dom().len() < usize::MAX,
        ensures
            final(self).wf(),
            r is Err <==> !prefix_compatible(old(self)@, key.key_bytes()),
            r is Err ==> final(self)@ == old(self)@,
            r matches Ok(prev) ==> final(self)@ == old(self)@.insert(key.key_bytes(), value) && (prev is Some
                == old(self)@.contains_key(key.key_bytes())) && (prev matches Some(v) ==> v == old(
                self,
            )@[key.key_bytes()]),
    {
        if !self.can_insert(key) {
            return Err(KeyPrefixError);
        }
        Ok(self.insert(key, value))
    }

    /// Removes `key` and hands back its value.
    pub fn remove(&mut self, key: &K) -> (r: Option<V>)
        requires
            old(self).wf(),
        ensures
            final(self).wf(),
            final(self)@ == old(self)@.remove(key.key_bytes()),
            r is Some == old(self)@.contains_key(key.key_bytes()),
            r matches Some(v) ==> v == old(self)@[key.key_bytes()],
    {
        let k = key.as_key_bytes();
        let res = self.tree.remove(k.as_slice());
        if res.is_some() {
            self.len = self.len - 1;
        }
        proof {
            self.keys@ = self.keys@.remove(key.key_bytes());
            assert(self.keys@ =~= self.tree@.dom());
        }
        res
    }
}

/// A change of a stored key's value keeps the count of keys.
proof fn lemma_same_keys<K: Key + ?Sized, V>(before: Art<K, V>, after: Art<K, V>, k: Seq<u8>)
    requires
        before.wf(),
    ensures
        forall|v: V|
            after.tree.wf() && before.tree@.contains_key(k) && after.tree@ == #[trigger] before.tree@.insert(
                k,
                v,
            ) && after.keys == before.keys && after.len == before.len ==> after.wf(),
        after.tree.wf() && after.tree@ == before.tree@ && after.keys == before.keys && after.len
            == before.len ==> after.wf(),
{
    assert forall|v: V|
        after.tree.wf() && before.tree@.contains_key(k) && after.tree@ == before.tree@.insert(k, v)
            && after.keys == before.keys && after.len == before.len implies after.wf() by {
        assert(after.tree@.dom() =~= before.tree@.dom());
    }
}

impl<K: Key + ?Sized, V> Default for Art<K, V> {
    fn default() -> (r: Self)
        ensures
            r.wf(),
            r@ == Map::<Seq<u8>, V>::empty(),
    {
        Self::new()
    }
}

} // verus!
