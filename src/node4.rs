//! The branch of two to four children.
use crate::header::{NodeData, NodeHeader, NodeKind};
use crate::nodes::{index_of, strictly_increasing, Node16, Node4, NodeBody, NodePtr, Shrunk};
use crate::sorted::{
    all_some, lemma_index_of_at, lemma_index_of_absent, sorted_child, sorted_find, sorted_insert,
    sorted_remove,
};
use vstd::prelude::*;

verus! {

impl<V> Node4<V> {
    /// The node that a split makes: prefix `key[from..to]` and two children under
    /// distinct bytes.
    pub fn new_split(
        key: &[u8],
        from: usize,
        to: usize,
        first: (u8, NodePtr<V>),
        second: (u8, NodePtr<V>),
    ) -> (r: Node4<V>)
        requires
            from <= to <= key@.len(),
            first.0 != second.0,
        ensures
            r.wf(),
            r.header.spec_prefix() == key@.subrange(from as int, to as int),
            forall|x: u8|
                #[trigger] r.child(x) == if x == first.0 {
                    Some(first.1)
                } else if x == second.0 {
                    Some(second.1)
                } else {
                    None
                },
    {
        let header = NodeHeader::new(key, from, to, NodeData { len: 2, kind: NodeKind::Node4, free: 0 });
        let (a, b) = if first.0 < second.0 {
            (first, second)
        } else {
            (second, first)
        };
        let ghost (ka, kb) = (a.0, b.0);
        let ghost (ca, cb) = (a.1, b.1);
        let mut keys: Vec<u8> = Vec::new();
        keys.push(a.0);
        keys.push(b.0);
        let mut ptr: Vec<Option<NodePtr<V>>> = Vec::new();
        ptr.push(Some(a.1));
        ptr.push(Some(b.1));
        let r = Node4 { header, keys, ptr };
        proof {
            assert(r.keys@[0] == ka && r.keys@[1] == kb);
            lemma_index_of_at(r.keys@, 0);
            lemma_index_of_at(r.keys@, 1);
            assert forall|x: u8|
                #[trigger] r.child(x) == if x == first.0 {
                    Some(first.1)
                } else if x == second.0 {
                    Some(second.1)
                } else {
                    None
                } by {
                if x != ka && x != kb {
                    lemma_index_of_absent(r.keys@, x);
                }
            }
        }
        r
    }

    /// Whether every slot is taken.
    pub fn is_full(&self) -> (r: bool)
        requires
            self.wf(),
        ensures
            r == (self.keys@.len() == 4),
    {
        self.header.data().len == 4
    }

    /// Whether removing a child leaves one, so that the node must fold into it.
    pub fn should_shrink(&self) -> (r: bool)
        requires
            self.wf(),
        ensures
            r == (self.keys@.len() == 2),
    {
        self.header.data().len == 2
    }

    /// The child for byte `key`.
    pub fn get(&self, key: u8) -> (r: Option<&NodePtr<V>>)
        requires
            self.wf(),
        ensures
            match r {
                Some(c) => self.child(key) == Some(*c),
                None => self.child(key) is None,
            },
    {
        match sorted_find(&self.keys, key) {
            Ok(i) => match &self.ptr[i] {
                Some(c) => Some(c),
                None => None,
            },
            Err(_) => None,
        }
    }

    /// The slot that holds the child for byte `key`.
    pub fn lookup(&self, key: u8) -> (r: Option<usize>)
        requires
            self.wf(),
        ensures
            r is Some == self.child(key) is Some,
            r matches Some(i) ==> index_of(self.keys@, key) == Some(i as int),
    {
        match sorted_find(&self.keys, key) {
            Ok(i) => Some(i),
            Err(_) => None,
        }
    }

    /// Adds `key ↦ child`; a full node grows into a `Node16`.
    pub fn insert(self, key: u8, child: NodePtr<V>) -> (r: NodeBody<V>)
        requires
            self.wf(),
            self.child(key) is None,
        ensures
            r.wf_local(),
            r.hdr().spec_prefix() == self.header.spec_prefix(),
            if self.keys@.len() == 4 {
                r is Node16
            } else {
                r is Node4
            },
            forall|x: u8|
                #[trigger] r.child(x) == if x == key {
                    Some(child)
                } else {
                    self.child(x)
                },
    {
        let Node4 { mut header, mut keys, mut ptr } = self;
        let ghost old_keys = keys@;
        let ghost old_ptr = ptr@;
        let len = header.data().len;
        sorted_insert(&mut keys, &mut ptr, key, child);
        if len == 4 {
            header.set_data(NodeData { len: 5, kind: NodeKind::Node16, free: 0 });
            NodeBody::Node16(Node16 { header, keys, ptr })
        } else {
            header.set_data(NodeData { len: len + 1, kind: NodeKind::Node4, free: 0 });
            NodeBody::Node4(Node4 { header, keys, ptr })
        }
    }

    /// Removes the child for `key` and hands it back; a node left with one child
    /// reports that child so that the caller can fold it.
    pub fn remove(self, key: u8) -> (r: (Shrunk<V>, NodePtr<V>))
        requires
            self.wf(),
            self.child(key) is Some,
        ensures
            Some(r.1) == self.child(key),
            r.0.removed_from(NodeBody::Node4(self), key),
            self.keys@.len() == 2 <==> r.0 is Single,
            r.0 matches Shrunk::Node(n) ==> n is Node4,
    {
        let Node4 { mut header, mut keys, mut ptr } = self;
        let ghost this = Node4 { header, keys, ptr };
        let len = header.data().len;
        let removed = sorted_remove(&mut keys, &mut ptr, key).unwrap();
        if len == 2 {
            let last_key = keys[0];
            let ghost left_keys = keys@;
            let ghost left_ptr = ptr@;
            let last = ptr.pop().unwrap().unwrap();
            proof {
                lemma_index_of_at(left_keys, 0);
                assert(sorted_child(left_keys, left_ptr, last_key) == Some(last));
                assert forall|x: u8| x != key && x != last_key implies (#[trigger] this.child(x)) is None by {
                    lemma_index_of_absent(left_keys, x);
                    assert(sorted_child(left_keys, left_ptr, x) is None);
                }
            }
            (Shrunk::Single(header, last_key, last), removed)
        } else {
            header.set_data(NodeData { len: len - 1, kind: NodeKind::Node4, free: 0 });
            (Shrunk::Node(NodeBody::Node4(Node4 { header, keys, ptr })), removed)
        }
    }

    /// Mutable access to the child for byte `key`.
    pub fn lookup_mut(&mut self, key: u8) -> (r: Option<&mut NodePtr<V>>)
        requires
            old(self).wf(),
        ensures
            match r {
                Some(c) => old(self).child(key) == Some(*c) && final(self).header == old(self).header
                    && final(self).keys@ == old(self).keys@ && final(self).ptr@ == old(self).ptr@.update(
                    index_of(old(self).keys@, key).unwrap(),
                    Some(*final(c)),
                ),
                None => old(self).child(key) is None && *final(self) == *old(self),
            },
    {
        match sorted_find(&self.keys, key) {
            Ok(i) => match &mut self.ptr[i] {
                Some(c) => Some(c),
                None => None,
            },
            Err(_) => None,
        }
    }
}

} // verus!
