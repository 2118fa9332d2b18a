//! Operations on a node of any shape, dispatched on its kind.
use crate::header::{NodeData, NodeHeader, NodeKind};
use crate::nodes::{index_of, take_slot, wf, LeafNode, NodeBody, NodePtr, Shrunk, ABSENT};
use crate::sorted::lemma_index_of_at;
use crate::sorted::{lemma_index_of_bound, sorted_find};
use vstd::prelude::*;

verus! {

impl<V> NodePtr<V> {
    /// Wraps a node in a fresh handle.
    pub fn new(body: NodeBody<V>) -> (r: NodePtr<V>)
        ensures
            r.body() == body,
    {
        NodePtr { node: Box::new(body) }
    }

    /// Gives up the handle and hands back the node.
    pub fn into_body(self) -> (r: NodeBody<V>)
        ensures
            r == self.body(),
    {
        *self.node
    }

    /// Mutable access to the node behind the handle.
    pub fn body_mut(&mut self) -> (r: &mut NodeBody<V>)
        ensures
            *r == old(self).body(),
            final(self).body() == *final(r),
    {
        &mut self.node
    }

    /// The node behind the handle.
    pub fn as_body(&self) -> (r: &NodeBody<V>)
        ensures
            *r == self.body(),
    {
        &self.node
    }
}

impl<V> LeafNode<V> {
    /// A leaf for `value` whose prefix is `key[from..]`.
    pub fn new(key: &[u8], from: usize, value: V) -> (r: LeafNode<V>)
        requires
            from <= key@.len(),
        ensures
            r.wf(),
            r.header.spec_prefix() == key@.skip(from as int),
            r.value == value,
    {
        let header = NodeHeader::new(
            key,
            from,
            key.len(),
            NodeData { len: 0, kind: NodeKind::Leaf, free: 0 },
        );
        proof {
            assert(key@.subrange(from as int, key@.len() as int) =~= key@.skip(from as int));
        }
        LeafNode { header, value }
    }

    /// Gives up the leaf and hands back its value.
    pub fn into_value(self) -> (r: V)
        ensures
            r == self.value,
    {
        self.value
    }
}

impl<V> NodeBody<V> {
    /// The header of the node.
    pub fn header(&self) -> (r: &NodeHeader)
        ensures
            *r == self.hdr(),
    {
        match self {
            NodeBody::Leaf(n) => &n.header,
            NodeBody::Node4(n) => &n.header,
            NodeBody::Node16(n) => &n.header,
            NodeBody::Node48(n) => &n.header,
            NodeBody::Node256(n) => &n.header,
        }
    }

    /// Drops the first `until` bytes of the prefix.
    pub fn drop_prefix(&mut self, until: usize)
        requires
            until <= old(self).hdr().spec_prefix().len(),
        ensures
            old(self).reprefixed(*final(self)),
            final(self).hdr().spec_prefix() == old(self).hdr().spec_prefix().skip(until as int),
    {
        match self {
            NodeBody::Leaf(n) => n.header = n.header.copy_drop_prefix(until),
            NodeBody::Node4(n) => n.header = n.header.copy_drop_prefix(until),
            NodeBody::Node16(n) => n.header = n.header.copy_drop_prefix(until),
            NodeBody::Node48(n) => n.header = n.header.copy_drop_prefix(until),
            NodeBody::Node256(n) => n.header = n.header.copy_drop_prefix(until),
        }
    }

    /// Puts `prefix ++ [key]` in front of the prefix, as a fold does.
    pub fn prepend_prefix(&mut self, prefix: &[u8], key: u8)
        ensures
            old(self).reprefixed(*final(self)),
            final(self).hdr().spec_prefix() == prefix@.push(key) + old(self).hdr().spec_prefix(),
    {
        match self {
            NodeBody::Leaf(n) => n.header.prepend_prefix(prefix, key),
            NodeBody::Node4(n) => n.header.prepend_prefix(prefix, key),
            NodeBody::Node16(n) => n.header.prepend_prefix(prefix, key),
            NodeBody::Node48(n) => n.header.prepend_prefix(prefix, key),
            NodeBody::Node256(n) => n.header.prepend_prefix(prefix, key),
        }
    }

    /// Whether the node is a leaf.
    pub fn is_leaf_node(&self) -> (r: bool)
        ensures
            r == self.is_leaf(),
    {
        match self {
            NodeBody::Leaf(_) => true,
            _ => false,
        }
    }

    /// Whether byte `key` has a child here.
    pub fn has_child(&self, key: u8) -> (r: bool)
        requires
            self.wf_local(),
        ensures
            r == self.child(key) is Some,
    {
        match self {
            NodeBody::Leaf(_) => false,
            NodeBody::Node4(n) => n.lookup(key).is_some(),
            NodeBody::Node16(n) => n.lookup(key).is_some(),
            NodeBody::Node48(n) => n.lookup(key).is_some(),
            NodeBody::Node256(n) => n.lookup(key).is_some(),
        }
    }

    /// The child for byte `key`.
    pub fn get(&self, key: u8) -> (r: Option<&NodePtr<V>>)
        requires
            self.wf_local(),
        ensures
            match r {
                Some(c) => self.child(key) == Some(*c),
                None => self.child(key) is None,
            },
    {
        match self {
            NodeBody::Leaf(_) => None,
            NodeBody::Node4(n) => n.get(key),
            NodeBody::Node16(n) => n.get(key),
            NodeBody::Node48(n) => n.get(key),
            NodeBody::Node256(n) => n.get(key),
        }
    }

    /// Mutable access to the child for byte `key`.
    pub fn child_mut(&mut self, key: u8) -> (r: Option<&mut NodePtr<V>>)
        requires
            old(self).wf_local(),
        ensures
            match r {
                Some(c) => old(self).child(key) == Some(*c) && old(self).slot_set(
                    *final(self),
                    key,
                    Some(*final(c)),
                ),
                None => old(self).child(key) is None && *final(self) == *old(self),
            },
    {
        match self {
            NodeBody::Leaf(_) => None,
            NodeBody::Node4(n) => n.lookup_mut(key),
            NodeBody::Node16(n) => n.lookup_mut(key),
            NodeBody::Node48(n) => n.lookup_mut(key),
            NodeBody::Node256(n) => n.lookup_mut(key),
        }
    }

    /// Takes the child for byte `key` out, leaving its slot empty.
    pub fn take_child(&mut self, key: u8) -> (r: NodePtr<V>)
        requires
            old(self).wf_local(),
            old(self).child(key) is Some,
        ensures
            old(self).child(key) == Some(r),
            old(self).slot_set(*final(self), key, None),
            final(self).has_slot(key),
    {
        match self {
            NodeBody::Leaf(_) => {
                unreached()
            },
            NodeBody::Node4(n) => {
                let i = match sorted_find(&n.keys, key) {
                    Ok(i) => i,
                    Err(i) => i,
                };
                take_slot(&mut n.ptr, i).unwrap()
            },
            NodeBody::Node16(n) => {
                let i = match sorted_find(&n.keys, key) {
                    Ok(i) => i,
                    Err(i) => i,
                };
                take_slot(&mut n.ptr, i).unwrap()
            },
            NodeBody::Node48(n) => {
                let i = n.idxs[key as usize];
                take_slot(&mut n.ptr, i as usize).unwrap()
            },
            NodeBody::Node256(n) => take_slot(&mut n.ptr, key as usize).unwrap(),
        }
    }

    /// Puts `c` in the (empty) slot of byte `key`.
    pub fn put_child(&mut self, key: u8, c: NodePtr<V>)
        requires
            old(self).has_slot(key),
        ensures
            old(self).slot_set(*final(self), key, Some(c)),
    {
        match self {
            NodeBody::Leaf(_) => {},
            NodeBody::Node4(n) => {
                let i = match sorted_find(&n.keys, key) {
                    Ok(i) => i,
                    Err(i) => i,
                };
                n.ptr[i] = Some(c);
            },
            NodeBody::Node16(n) => {
                let i = match sorted_find(&n.keys, key) {
                    Ok(i) => i,
                    Err(i) => i,
                };
                n.ptr[i] = Some(c);
            },
            NodeBody::Node48(n) => {
                let i = n.idxs[key as usize];
                n.ptr[i as usize] = Some(c);
            },
            NodeBody::Node256(n) => {
                n.ptr[key as usize] = Some(c);
            },
        }
    }

    /// Adds `key ↦ child` for a byte without a child; a full node grows into the next
    /// larger shape.
    pub fn insert_child(self, key: u8, child: NodePtr<V>) -> (r: NodeBody<V>)
        requires
            self.wf_local(),
            !self.is_leaf(),
            self.child(key) is None,
        ensures
            r.wf_local(),
            !r.is_leaf(),
            r.hdr().spec_prefix() == self.hdr().spec_prefix(),
            forall|x: u8|
                #[trigger] r.child(x) == if x == key {
                    Some(child)
                } else {
                    self.child(x)
                },
    {
        match self {
            NodeBody::Leaf(n) => NodeBody::Leaf(n),
            NodeBody::Node4(n) => n.insert(key, child),
            NodeBody::Node16(n) => n.insert(key, child),
            NodeBody::Node48(n) => n.insert(key, child),
            NodeBody::Node256(n) => NodeBody::Node256(n.insert(key, child)),
        }
    }

    /// Removes the child for byte `key` and hands it back, together with what is left.
    pub fn remove_child(self, key: u8) -> (r: (Shrunk<V>, NodePtr<V>))
        requires
            self.wf_local(),
            self.child(key) is Some,
        ensures
            Some(r.1) == self.child(key),
            r.0.removed_from(self, key),
            r.0 matches Shrunk::Node(n) ==> !n.is_leaf(),
    {
        match self {
            NodeBody::Leaf(n) => {
                unreached()
            },
            NodeBody::Node4(n) => n.remove(key),
            NodeBody::Node16(n) => n.remove(key),
            NodeBody::Node48(n) => n.remove(key),
            NodeBody::Node256(n) => n.remove(key),
        }
    }

    /// The child with the smallest key byte at or above `b`, with that byte.
    pub fn next_child_after(&self, b: u8) -> (r: Option<(u8, &NodePtr<V>)>)
        requires
            self.wf_local(),
        ensures
            match r {
                Some((x, c)) => x >= b && self.child(x) == Some(*c) && forall|y: u8|
                    b <= y < x ==> (#[trigger] self.child(y)) is None,
                None => forall|y: u8| y >= b ==> (#[trigger] self.child(y)) is None,
            },
    {
        match self {
            NodeBody::Leaf(_) => None,
            NodeBody::Node4(n) => sorted_next(&n.keys, &n.ptr, b),
            NodeBody::Node16(n) => sorted_next(&n.keys, &n.ptr, b),
            NodeBody::Node48(n) => {
                let mut y: usize = b as usize;
                while y < 256
                    invariant
                        b <= y <= 256,
                        n.wf(),
                        *self == NodeBody::Node48(*n),
                        forall|z: u8| b <= z < y ==> (#[trigger] n.child(z)) is None,
                    decreases 256 - y,
                {
                    let i = n.idxs[y];
                    if i != ABSENT {
                        proof {
                            assert((y as u8) as usize == y);
                        }
                        match &n.ptr[i as usize] {
                            Some(c) => {
                                return Some((y as u8, c));
                            },
                            None => {},
                        }
                    }
                    y = y + 1;
                }
                None
            },
            NodeBody::Node256(n) => {
                let mut y: usize = b as usize;
                while y < 256
                    invariant
                        b <= y <= 256,
                        n.wf(),
                        *self == NodeBody::Node256(*n),
                        forall|z: u8| b <= z < y ==> (#[trigger] n.child(z)) is None,
                    decreases 256 - y,
                {
                    proof {
                        assert((y as u8) as usize == y);
                    }
                    match &n.ptr[y] {
                        Some(c) => {
                            return Some((y as u8, c));
                        },
                        None => {},
                    }
                    y = y + 1;
                }
                None
            },
        }
    }
}

/// The child with the smallest key byte at or above `b` in a sorted table.
fn sorted_next<'a, V>(keys: &Vec<u8>, ptr: &'a Vec<Option<NodePtr<V>>>, b: u8) -> (r: Option<(u8, &'a NodePtr<V>)>)
    requires
        keys@.len() == ptr@.len(),
        crate::nodes::strictly_increasing(keys@),
        crate::sorted::all_some(ptr@),
    ensures
        match r {
            Some((x, c)) => x >= b && crate::sorted::sorted_child(keys@, ptr@, x) == Some(*c)
                && forall|y: u8| b <= y < x ==> (#[trigger] crate::sorted::sorted_child(keys@, ptr@, y)) is None,
            None => forall|y: u8| y >= b ==> (#[trigger] crate::sorted::sorted_child(keys@, ptr@, y)) is None,
        },
{
    let mut i: usize = 0;
    while i < keys.len()
        invariant
            i <= keys@.len(),
            keys@.len() == ptr@.len(),
            crate::nodes::strictly_increasing(keys@),
            crate::sorted::all_some(ptr@),
            forall|j: int| 0 <= j < i ==> keys@[j] < b,
        decreases keys@.len() - i,
    {
        let x = keys[i];
        if x >= b {
            proof {
                lemma_index_of_at(keys@, i as int);
                assert(ptr@[i as int] is Some);
                assert forall|y: u8| b <= y < x implies (#[trigger] crate::sorted::sorted_child(keys@, ptr@, y)) is None by {
                    crate::sorted::lemma_index_of_bound(keys@, y);
                    if index_of(keys@, y) is Some {
                        let j = index_of(keys@, y).unwrap();
                        if j > i {
                            assert(keys@[i as int] < keys@[j]);
                        }
                    }
                }
            }
            match &ptr[i] {
                Some(c) => {
                    return Some((x, c));
                },
                None => {},
            }
        }
        i = i + 1;
    }
    proof {
        assert forall|y: u8| y >= b implies (#[trigger] crate::sorted::sorted_child(keys@, ptr@, y)) is None by {
            crate::sorted::lemma_index_of_bound(keys@, y);
        }
    }
    None
}

} // verus!
