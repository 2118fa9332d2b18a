//! The branch of five to sixteen children.
use crate::header::{NodeData, NodeKind};
use crate::nodes::{index_of, Node16, Node4, Node48, NodeBody, NodePtr, Shrunk};
use crate::sorted::{sorted_find, sorted_insert, sorted_remove};
use vstd::prelude::*;

verus! {

impl<V> Node16<V> {
    /// Whether every slot is taken.
    pub fn is_full(&self) -> (r: bool)
        requires
            self.wf(),
        ensures
            r == (self.keys@.len() == 16),
    {
        self.header.data().len == 16
    }

    /// Whether removing a child brings the node down to the size of a `Node4`.
    pub fn should_shrink(&self) -> (r: bool)
        requires
            self.wf(),
        ensures
            r == (self.keys@.len() == 5),
    {
        self.header.data().len == 5
    }

    /// The child for byte `key`.
    pub fn get(&self, key: u8) -> (r: Option<&NodePtr<V>>)
        requires
            self.wf(),
        ensures
            match r {
                Some(c) => self.child(key) == Some(*c),
                None => self.child(key) is None,
            },
    {
        match sorted_find(&self.keys, key) {
            Ok(i) => match &self.ptr[i] {
                Some(c) => Some(c),
                None => None,
            },
            Err(_) => None,
        }
    }

    /// The slot that holds the child for byte `key`.
    pub fn lookup(&self, key: u8) -> (r: Option<usize>)
        requires
            self.wf(),
        ensures
            r is Some == self.child(key) is Some,
            r matches Some(i) ==> index_of(self.keys@, key) == Some(i as int),
    {
        match sorted_find(&self.keys, key) {
            Ok(i) => Some(i),
            Err(_) => None,
        }
    }

    /// Adds `key ↦ child`; a full node grows into a `Node48`.
    pub fn insert(self, key: u8, child: NodePtr<V>) -> (r: NodeBody<V>)
        requires
            self.wf(),
            self.child(key) is None,
        ensures
            r.wf_local(),
            r.hdr().spec_prefix() == self.header.spec_prefix(),
            if self.keys@.len() == 16 {
                r is Node48
            } else {
                r is Node16
            },
            forall|x: u8|
                #[trigger] r.child(x) == if x == key {
                    Some(child)
                } else {
                    self.child(x)
                },
    {
        let Node16 { mut header, mut keys, mut ptr } = self;
        let len = header.data().len;
        if len == 16 {
            NodeBody::Node48(Node48::grow_from(header, keys, ptr, key, child))
        } else {
            sorted_insert(&mut keys, &mut ptr, key, child);
            header.set_data(NodeData { len: len + 1, kind: NodeKind::Node16, free: 0 });
            NodeBody::Node16(Node16 { header, keys, ptr })
        }
    }

    /// Removes the child for `key` and hands it back; a node left with four children
    /// shrinks into a `Node4`.
    pub fn remove(self, key: u8) -> (r: (Shrunk<V>, NodePtr<V>))
        requires
            self.wf(),
            self.child(key) is Some,
        ensures
            Some(r.1) == self.child(key),
            r.0.removed_from(NodeBody::Node16(self), key),
            r.0 matches Shrunk::Node(n) && if self.keys@.len() == 5 {
                n is Node4
            } else {
                n is Node16
            },
    {
        let Node16 { mut header, mut keys, mut ptr } = self;
        let len = header.data().len;
        let removed = sorted_remove(&mut keys, &mut ptr, key).unwrap();
        if len == 5 {
            header.set_data(NodeData { len: 4, kind: NodeKind::Node4, free: 0 });
            (Shrunk::Node(NodeBody::Node4(Node4 { header, keys, ptr })), removed)
        } else {
            header.set_data(NodeData { len: len - 1, kind: NodeKind::Node16, free: 0 });
            (Shrunk::Node(NodeBody::Node16(Node16 { header, keys, ptr })), removed)
        }
    }

    /// Mutable access to the child for byte `key`.
    pub fn lookup_mut(&mut self, key: u8) -> (r: Option<&mut NodePtr<V>>)
        requires
            old(self).wf(),
        ensures
            match r {
                Some(c) => old(self).child(key) == Some(*c) && final(self).header == old(self).header
                    && final(self).keys@ == old(self).keys@ && final(self).ptr@ == old(self).ptr@.update(
                    index_of(old(self).keys@, key).unwrap(),
                    Some(*final(c)),
                ),
                None => old(self).child(key) is None && *final(self) == *old(self),
            },
    {
        match sorted_find(&self.keys, key) {
            Ok(i) => match &mut self.ptr[i] {
                Some(c) => Some(c),
                None => None,
            },
            Err(_) => None,
        }
    }
}

} // verus!
