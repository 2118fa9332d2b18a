//! The shared flavour: a tree behind a reference-counted handle. A snapshot shares the
//! whole tree in O(1); the first change after a snapshot copies the tree, so that every
//! snapshot keeps answering as it did when it was taken.
use crate::header::{copy_bytes, NodeHeader};
use crate::key::Key;
use crate::nodes::{lookup, take_slot, wf, LeafNode, Node16, Node256, Node4, Node48, NodeBody, NodePtr};
use crate::raw::{prefix_compatible, RawArt};
use std::marker::PhantomData;
use std::sync::Arc;
use vstd::prelude::*;

verus! {

/// Relies on `Arc::clone`: the new handle points at the same value.
#[verifier::external_body]
fn share<T>(a: &Arc<T>) -> (r: Arc<T>)
    ensures
        r == *a,
{
    Arc::clone(a)
}

/// Relies on `Arc::try_unwrap`: the value comes out when this was its only handle, and the
/// handle comes back unchanged otherwise.
#[verifier::external_body]
fn unwrap_unique<T>(a: Arc<T>) -> (r: Result<T, Arc<T>>)
    ensures
        match r {
            Ok(t) => t == *a,
            Err(b) => b == a,
        },
{
    Arc::try_unwrap(a)
}

/// `b` holds what `a` holds, and is well formed where `a` is.
pub open spec fn equivalent<V>(a: NodePtr<V>, b: NodePtr<V>) -> bool {
    &&& wf(a) ==> wf(b)
    &&& forall|k: Seq<u8>| #[trigger] lookup(b, k) == lookup(a, k)
}

/// `b` has the shape, header and child slots of `a`, with an equivalent child in every
/// slot that holds one.
pub open spec fn same_shape<V>(a: NodeBody<V>, b: NodeBody<V>) -> bool {
    &&& a.hdr().spec_data() == b.hdr().spec_data()
    &&& a.hdr().spec_prefix() == b.hdr().spec_prefix()
    &&& match (a, b) {
        (NodeBody::Leaf(n), NodeBody::Leaf(m)) => n.value == m.value,
        (NodeBody::Node4(n), NodeBody::Node4(m)) => n.keys@ == m.keys@ && slots_equivalent(
            n.ptr@,
            m.ptr@,
        ),
        (NodeBody::Node16(n), NodeBody::Node16(m)) => n.keys@ == m.keys@ && slots_equivalent(
            n.ptr@,
            m.ptr@,
        ),
        (NodeBody::Node48(n), NodeBody::Node48(m)) => n.idxs@ == m.idxs@ && n.next_free@
            == m.next_free@ && n.free_list@ == m.free_list@ && slots_equivalent(n.ptr@, m.ptr@),
        (NodeBody::Node256(n), NodeBody::Node256(m)) => slots_equivalent(n.ptr@, m.ptr@),
        _ => false,
    }
}

/// Two slot tables of one length, with a child in the same slots, pairwise equivalent.
pub open spec fn slots_equivalent<V>(a: Seq<Option<NodePtr<V>>>, b: Seq<Option<NodePtr<V>>>) -> bool {
    &&& a.len() == b.len()
    &&& forall|i: int|
        0 <= i < a.len() ==> (#[trigger] a[i] is Some) == (b[i] is Some) && (a[i] is Some
            ==> equivalent(a[i].unwrap(), b[i].unwrap()))
}

/// Nodes of the same shape with equivalent children are equivalent.
pub proof fn lemma_same_shape<V>(a: NodePtr<V>, b: NodePtr<V>)
    requires
        same_shape(a.body(), b.body()),
    ensures
        equivalent(a, b),
{
    let (ba, bb) = (a.body(), b.body());
    assert forall|x: u8| #[trigger] ba.child(x) is Some == bb.child(x) is Some && (ba.child(x) is Some ==> equivalent(ba.child(x).unwrap(), bb.child(x).unwrap())) by {
        match (ba, bb) {
            (NodeBody::Node4(n), NodeBody::Node4(m)) => {
                crate::sorted::lemma_index_of_bound(n.keys@, x);
            },
            (NodeBody::Node16(n), NodeBody::Node16(m)) => {
                crate::sorted::lemma_index_of_bound(n.keys@, x);
            },
            _ => {},
        }
    }
    assert(ba.wf_local() ==> bb.wf_local()) by {
        match (ba, bb) {
            (NodeBody::Node4(n), NodeBody::Node4(m)) => {
                if n.wf() {
                    assert forall|i: int| 0 <= i < m.ptr@.len() implies (#[trigger] m.ptr@[i]).is_some() by {
                        assert(n.ptr@[i] is Some);
                    }
                }
            },
            (NodeBody::Node16(n), NodeBody::Node16(m)) => {
                if n.wf() {
                    assert forall|i: int| 0 <= i < m.ptr@.len() implies (#[trigger] m.ptr@[i]).is_some() by {
                        assert(n.ptr@[i] is Some);
                    }
                }
            },
            (NodeBody::Node48(n), NodeBody::Node48(m)) => {
                if n.wf() {
                    assert forall|b: int|
                        0 <= b < 256 && (#[trigger] m.idxs@[b]) != crate::nodes::ABSENT implies m.ptr@[m.idxs@[b] as int] is Some by {
                        assert(n.ptr@[n.idxs@[b] as int] is Some);
                    }
                    assert forall|j: int| 0 <= j < m.free_list@.len() implies m.ptr@[(#[trigger] m.free_list@[j]) as int] is None by {
                        assert(n.ptr@[n.free_list@[j] as int] is None);
                    }
                }
            },
            (NodeBody::Node256(n), NodeBody::Node256(m)) => {
                assert(crate::nodes::presence(m.ptr@) =~= crate::nodes::presence(n.ptr@));
            },
            _ => {},
        }
    }
    if wf(a) {
        assert forall|x: u8| (#[trigger] bb.child(x)) is Some implies wf(bb.child(x).unwrap()) by {
            assert(ba.child(x) is Some);
        }
    }
    assert forall|k: Seq<u8>| #[trigger] lookup(b, k) == lookup(a, k) by {
        let p = a.prefix();
        if p.len() < k.len() && k.take(p.len() as int) == p {
            let r = k.skip(p.len() as int);
            assert(ba.child(r[0]) is Some == bb.child(r[0]) is Some);
            if ba.child(r[0]) is Some {
                assert(equivalent(ba.child(r[0]).unwrap(), bb.child(r[0]).unwrap()));
                assert(lookup(bb.child(r[0]).unwrap(), r.skip(1)) == lookup(ba.child(r[0]).unwrap(), r.skip(1)));
            }
        }
    }
}

impl<W> LeafNode<Arc<W>> {
    /// A copy of the leaf, sharing its value, whose prefix drops its first `until` bytes.
    pub fn copy_drop_prefix(&self, until: usize) -> (r: LeafNode<Arc<W>>)
        requires
            until <= self.header.spec_prefix().len(),
        ensures
            r.header.spec_data() == self.header.spec_data(),
            r.header.spec_prefix() == self.header.spec_prefix().skip(until as int),
            r.value == self.value,
    {
        LeafNode { header: self.header.copy_drop_prefix(until), value: share(&self.value) }
    }
}

impl<W> Node4<Arc<W>> {
    /// A copy of the node, with copies of its children, whose prefix drops its first
    /// `until` bytes.
    pub fn copy_drop_prefix(&self, until: usize) -> (r: Node4<Arc<W>>)
        requires
            until <= self.header.spec_prefix().len(),
        ensures
            r.header.spec_data() == self.header.spec_data(),
            r.header.spec_prefix() == self.header.spec_prefix().skip(until as int),
            r.keys@ == self.keys@,
            slots_equivalent(self.ptr@, r.ptr@),
        decreases self,
    {
        let keys = copy_bytes(self.keys.as_slice(), 0, self.keys.len());
        proof {
            assert(self.keys@.subrange(0, self.keys@.len() as int) =~= self.keys@);
        }
        Node4 { header: self.header.copy_drop_prefix(until), keys, ptr: copy_slots(&self.ptr) }
    }
}

impl<W> Node16<Arc<W>> {
    /// A copy of the node, with copies of its children, whose prefix drops its first
    /// `until` bytes.
    pub fn copy_drop_prefix(&self, until: usize) -> (r: Node16<Arc<W>>)
        requires
            until <= self.header.spec_prefix().len(),
        ensures
            r.header.spec_data() == self.header.spec_data(),
            r.header.spec_prefix() == self.header.spec_prefix().skip(until as int),
            r.keys@ == self.keys@,
            slots_equivalent(self.ptr@, r.ptr@),
        decreases self,
    {
        let keys = copy_bytes(self.keys.as_slice(), 0, self.keys.len());
        proof {
            assert(self.keys@.subrange(0, self.keys@.len() as int) =~= self.keys@);
        }
        Node16 { header: self.header.copy_drop_prefix(until), keys, ptr: copy_slots(&self.ptr) }
    }
}

impl<W> Node48<Arc<W>> {
    /// A copy of the node, with copies of its children, whose prefix drops its first
    /// `until` bytes.
    pub fn copy_drop_prefix(&self, until: usize) -> (r: Node48<Arc<W>>)
        requires
            until <= self.header.spec_prefix().len(),
        ensures
            r.header.spec_data() == self.header.spec_data(),
            r.header.spec_prefix() == self.header.spec_prefix().skip(until as int),
            r.idxs@ == self.idxs@,
            r.next_free@ == self.next_free@,
            r.free_list@ == self.free_list@,
            slots_equivalent(self.ptr@, r.ptr@),
        decreases self,
    {
        let idxs = copy_bytes(self.idxs.as_slice(), 0, self.idxs.len());
        let next_free = copy_bytes(self.next_free.as_slice(), 0, self.next_free.len());
        proof {
            assert(self.idxs@.subrange(0, self.idxs@.len() as int) =~= self.idxs@);
            assert(self.next_free@.subrange(0, self.next_free@.len() as int) =~= self.next_free@);
        }
        Node48 {
            header: self.header.copy_drop_prefix(until),
            idxs,
            ptr: copy_slots(&self.ptr),
            next_free,
            free_list: Ghost(self.free_list@),
        }
    }
}

impl<W> Node256<Arc<W>> {
    /// A copy of the node, with copies of its children, whose prefix drops its first
    /// `until` bytes.
    pub fn copy_drop_prefix(&self, until: usize) -> (r: Node256<Arc<W>>)
        requires
            until <= self.header.spec_prefix().len(),
        ensures
            r.header.spec_data() == self.header.spec_data(),
            r.header.spec_prefix() == self.header.spec_prefix().skip(until as int),
            slots_equivalent(self.ptr@, r.ptr@),
        decreases self,
    {
        Node256 { header: self.header.copy_drop_prefix(until), ptr: copy_slots(&self.ptr) }
    }
}

/// A copy of the subtree at `n` that shares its values.
pub(crate) fn copy_node<W>(n: &NodePtr<Arc<W>>) -> (r: NodePtr<Arc<W>>)
    ensures
        equivalent(*n, r),
    decreases n,
{
    let body = match n.as_body() {
        NodeBody::Leaf(l) => NodeBody::Leaf(l.copy_drop_prefix(0)),
        NodeBody::Node4(b) => NodeBody::Node4(b.copy_drop_prefix(0)),
        NodeBody::Node16(b) => NodeBody::Node16(b.copy_drop_prefix(0)),
        NodeBody::Node48(b) => NodeBody::Node48(b.copy_drop_prefix(0)),
        NodeBody::Node256(b) => NodeBody::Node256(b.copy_drop_prefix(0)),
    };
    let r = NodePtr::new(body);
    proof {
        assert(n.prefix().skip(0) =~= n.prefix());
        lemma_same_shape(*n, r);
    }
    r
}

/// Copies of every child of a slot table.
fn copy_slots<W>(ptr: &Vec<Option<NodePtr<Arc<W>>>>) -> (r: Vec<Option<NodePtr<Arc<W>>>>)
    ensures
        slots_equivalent(ptr@, r@),
    decreases ptr,
{
    let mut out: Vec<Option<NodePtr<Arc<W>>>> = Vec::new();
    let mut i: usize = 0;
    while i < ptr.len()
        invariant
            i <= ptr@.len(),
            out@.len() == i,
            forall|j: int|
                0 <= j < i ==> (#[trigger] ptr@[j] is Some) == (out@[j] is Some) && (ptr@[j] is Some
                    ==> equivalent(ptr@[j].unwrap(), out@[j].unwrap())),
        decreases ptr@.len() - i,
    {
        match &ptr[i] {
            Some(c) => {
                let cc = copy_node(c);
                out.push(Some(cc));
            },
            None => {
                out.push(None);
            },
        }
        i = i + 1;
    }
    out
}

/// A tree over byte keys whose snapshots share it: values live behind `Arc` handles, and a
/// change made while a snapshot shares the tree goes to a copy.
pub struct RawAart<V> {
    root: Arc<RawArt<Arc<V>>>,
}

impl<V> View for RawAart<V> {
    type V = Map<Seq<u8>, V>;

    closed spec fn view(&self) -> Map<Seq<u8>, V> {
        Map::new(|k: Seq<u8>| (*self.root)@.contains_key(k), |k: Seq<u8>| *(*self.root)@[k])
    }
}

impl<V> RawAart<V> {
    pub closed spec fn wf(&self) -> bool {
        (*self.root).wf()
    }

    /// An empty tree.
    pub fn new() -> (r: RawAart<V>)
        ensures
            r.wf(),
            r@ == Map::<Seq<u8>, V>::empty(),
    {
        let r = RawAart { root: Arc::new(RawArt::new()) };
        proof {
            assert(r@ =~= Map::<Seq<u8>, V>::empty());
        }
        r
    }

    /// A handle on the same tree, in O(1); later changes to either leave the other as it is.
    pub fn snapshot(&self) -> (r: RawAart<V>)
        requires
            self.wf(),
        ensures
            r.wf(),
            r@ == self@,
    {
        RawAart { root: share(&self.root) }
    }

    /// The value stored for `key`.
    pub fn get(&self, key: &[u8]) -> (r: Option<&V>)
        requires
            self.wf(),
        ensures
            match r {
                Some(v) => self@.contains_key(key@) && self@[key@] == *v,
                None => !self@.contains_key(key@),
            },
    {
        let tree: &RawArt<Arc<V>> = &self.root;
        match tree.get(key) {
            Some(a) => {
                let v: &V = &**a;
                Some(v)
            },
            None => None,
        }
    }

    /// Whether `key` may be stored: it is no proper prefix of a stored key, and no stored
    /// key is a proper prefix of it.
    pub fn can_insert(&self, key: &[u8]) -> (r: bool)
        requires
            self.wf(),
        ensures
            r == prefix_compatible(self@, key@),
    {
        let tree: &RawArt<Arc<V>> = &self.root;
        let r = tree.can_insert(key);
        proof {
            assert forall|j: Seq<u8>| #[trigger] self@.contains_key(j) == tree@.contains_key(j) by {}
            if r {
                assert forall|j: Seq<u8>| #[trigger] self@.contains_key(j) implies !crate::tree::strict_prefix(j, key@)
                    && !crate::tree::strict_prefix(key@, j) by {
                    assert(tree@.contains_key(j));
                }
            } else {
                let j = choose|j: Seq<u8>|
                    #[trigger] tree@.contains_key(j) && !(!crate::tree::strict_prefix(j, key@) && !crate::tree::strict_prefix(key@, j));
                assert(self@.contains_key(j));
            }
        }
        r
    }

    /// The tree alone, copied first if a snapshot shares it.
    fn take_unique(&mut self) -> (r: RawArt<Arc<V>>)
        requires
            old(self).wf(),
        ensures
            r.wf(),
            r@ == (*old(self).root)@,
    {
        let mut root = Arc::new(RawArt::new());
        std::mem::swap(&mut self.root, &mut root);
        match unwrap_unique(root) {
            Ok(t) => t,
            Err(shared) => shared.copy(),
        }
    }

    /// Stores `key ↦ value`. The key must be no proper prefix of a stored key, and no stored
    /// key a proper prefix of it.
    pub fn insert(&mut self, key: &[u8], value: V)
        requires
            old(self).wf(),
            prefix_compatible(old(self)@, key@),
        ensures
            final(self).wf(),
            final(self)@ == old(self)@.insert(key@, value),
    {
        let ghost before = (*old(self).root)@;
        let mut tree = self.take_unique();
        proof {
            assert forall|j: Seq<u8>| #[trigger] tree@.contains_key(j) implies !crate::tree::strict_prefix(j, key@)
                && !crate::tree::strict_prefix(key@, j) by {
                assert(old(self)@.contains_key(j));
            }
        }
        tree.insert(key, Arc::new(value));
        self.root = Arc::new(tree);
        proof {
            assert(self@ =~= old(self)@.insert(key@, value));
        }
    }

    /// Removes `key` and hands back the handle on its value.
    pub fn remove(&mut self, key: &[u8]) -> (r: Option<Arc<V>>)
        requires
            old(self).wf(),
        ensures
            final(self).wf(),
            final(self)@ == old(self)@.remove(key@),
            r is Some == old(self)@.contains_key(key@),
            r matches Some(v) ==> *v == old(self)@[key@],
    {
        let mut tree = self.take_unique();
        let r = tree.remove(key);
        self.root = Arc::new(tree);
        proof {
            assert(self@ =~= old(self)@.remove(key@));
        }
        r
    }
}

/// The shared flavour of the map, over keys of type `K`.
pub struct Aart<K: Key + ?Sized, V> {
    inner: RawAart<V>,
    _marker: PhantomData<K>,
}

impl<K: Key + ?Sized, V> View for Aart<K, V> {
    type V = Map<Seq<u8>, V>;

    closed spec fn view(&self) -> Map<Seq<u8>, V> {
        self.inner@
    }
}

impl<K: Key + ?Sized, V> Aart<K, V> {
    pub closed spec fn wf(&self) -> bool {
        self.inner.wf()
    }

    /// An empty map.
    pub fn new() -> (r: Self)
        ensures
            r.wf(),
            r@ == Map::<Seq<u8>, V>::empty(),
    {
        Aart { inner: RawAart::new(), _marker: PhantomData }
    }

    /// A map that answers as this one does now, in O(1); later changes to either leave the
    /// other as it is.
    pub fn snapshot(&self) -> (r: Self)
        requires
            self.wf(),
        ensures
            r.wf(),
            r@ == self@,
    {
        Aart { inner: self.inner.snapshot(), _marker: PhantomData }
    }

    /// The value stored for `key`.
    pub fn get(&self, key: &K) -> (r: Option<&V>)
        requires
            self.wf(),
        ensures
            match r {
                Some(v) => self@.contains_key(key.key_bytes()) && self@[key.key_bytes()] == *v,
                None => !self@.contains_key(key.key_bytes()),
            },
    {
        let k = key.as_key_bytes();
        self.inner.get(k.as_slice())
    }

    /// Whether `key` may be stored: its encoding is no proper prefix of a stored key's, and
    /// no stored key's encoding is a proper prefix of it.
    pub fn can_insert(&self, key: &K) -> (r: bool)
        requires
            self.wf(),
        ensures
            r == prefix_compatible(self@, key.key_bytes()),
    {
        let k = key.as_key_bytes();
        self.inner.can_insert(k.as_slice())
    }

    /// Stores `key ↦ value`. The key's encoding must be no proper prefix of a stored key's,
    /// and no stored key's a proper prefix of it.
    pub fn insert(&mut self, key: &K, value: V)
        requires
            old(self).wf(),
            prefix_compatible(old(self)@, key.key_bytes()),
        ensures
            final(self).wf(),
            final(self)@ == old(self)@.insert(key.key_bytes(), value),
    {
        let k = key.as_key_bytes();
        self.inner.insert(k.as_slice(), value);
    }

    /// Removes `key` and hands back the handle on its value.
    pub fn remove(&mut self, key: &K) -> (r: Option<Arc<V>>)
        requires
            old(self).wf(),
        ensures
            final(self).wf(),
            final(self)@ == old(self)@.remove(key.key_bytes()),
            r is Some == old(self)@.contains_key(key.key_bytes()),
            r matches Some(v) ==> *v == old(self)@[key.key_bytes()],
    {
        let k = key.as_key_bytes();
        self.inner.remove(k.as_slice())
    }
}

impl<V> Default for RawAart<V> {
    fn default() -> (r: Self)
        ensures
            r.wf(),
            r@ == Map::<Seq<u8>, V>::empty(),
    {
        Self::new()
    }
}

impl<K: Key + ?Sized, V> Default for Aart<K, V> {
    fn default() -> (r: Self)
        ensures
            r.wf(),
            r@ == Map::<Seq<u8>, V>::empty(),
    {
        Self::new()
    }
}

} // verus!
