//! The header that every node starts with: three packed bytes (kind, population,
//! free-slot head) and the compressed prefix shared by every key below the node.
use vstd::prelude::*;

verus! {

/// The five node shapes.
#[derive(Clone, Copy, Debug, PartialEq, Eq, Structural)]
pub enum NodeKind {
    Leaf,
    Node4,
    Node16,
    Node48,
    Node256,
}

impl NodeKind {
    /// The byte that encodes this kind in a header.
    pub open spec fn spec_as_u8(self) -> u8 {
        match self {
            NodeKind::Leaf => 0,
            NodeKind::Node4 => 1,
            NodeKind::Node16 => 2,
            NodeKind::Node48 => 3,
            NodeKind::Node256 => 4,
        }
    }

    pub fn as_u8(self) -> (r: u8)
        ensures
            r == self.spec_as_u8(),
    {
        match self {
            NodeKind::Leaf => 0,
            NodeKind::Node4 => 1,
            NodeKind::Node16 => 2,
            NodeKind::Node48 => 3,
            NodeKind::Node256 => 4,
        }
    }

    /// Decodes a kind byte; bytes above 4 encode no kind.
    pub fn from_u8(v: u8) -> (r: Option<NodeKind>)
        ensures
            v <= 4 <==> r.is_some(),
            r matches Some(k) ==> k.spec_as_u8() == v,
    {
        match v {
            0 => Some(NodeKind::Leaf),
            1 => Some(NodeKind::Node4),
            2 => Some(NodeKind::Node16),
            3 => Some(NodeKind::Node48),
            4 => Some(NodeKind::Node256),
            _ => None,
        }
    }
}

/// The three packed header bytes.
///
/// `len` is the population of the node's child slots. A `Node256` cannot hold 256 in a
/// byte, so it stores its population minus one there. `free` is the head of the free-slot
/// list of a `Node48`; the other kinds leave it at zero.
#[derive(Clone, Copy, Debug, PartialEq, Eq, Structural)]
pub struct NodeData {
    pub len: u8,
    pub kind: NodeKind,
    pub free: u8,
}

/// A fresh vector holding `src[from..to]`.
pub fn copy_bytes(src: &[u8], from: usize, to: usize) -> (r: Vec<u8>)
    requires
        from <= to <= src@.len(),
    ensures
        r@ == src@.subrange(from as int, to as int),
{
    let mut out: Vec<u8> = Vec::with_capacity(to - from);
    let mut i: usize = from;
    while i < to
        invariant
            from <= i <= to <= src@.len(),
            out@ == src@.subrange(from as int, i as int),
        decreases to - i,
    {
        out.push(src[i]);
        proof {
            assert(src@.subrange(from as int, i + 1) =~= src@.subrange(from as int, i as int).push(
                src@[i as int],
            ));
        }
        i = i + 1;
    }
    out
}

/// The three header bytes as they are laid out: byte 0 the kind (0 for a leaf, then 1 to 4
/// for `Node4` to `Node256`), byte 1 the population, byte 2 the free-slot head.
#[derive(Clone, Copy, Debug, PartialEq, Eq, Structural)]
pub struct NodeHeaderData {
    pub kind: u8,
    pub len: u8,
    pub free: u8,
}

impl NodeHeaderData {
    /// The bytes of a leaf header.
    pub fn leaf() -> (r: NodeHeaderData)
        ensures
            r == (NodeHeaderData { kind: 0, len: 0, free: 0 }),
    {
        NodeHeaderData { kind: NodeKind::Leaf.as_u8(), len: 0, free: 0 }
    }

    pub fn new(len: u8, kind: NodeKind, free: u8) -> (r: NodeHeaderData)
        ensures
            r == (NodeHeaderData { kind: kind.spec_as_u8(), len, free }),
    {
        NodeHeaderData { kind: kind.as_u8(), len, free }
    }

    /// The kind that byte 0 encodes, if any.
    pub fn kind(self) -> (r: Option<NodeKind>)
        ensures
            self.kind <= 4 <==> r is Some,
            r matches Some(k) ==> k.spec_as_u8() == self.kind,
    {
        NodeKind::from_u8(self.kind)
    }

    /// The head of the free-slot list.
    pub fn free(self) -> (r: u8)
        ensures
            r == self.free,
    {
        self.free
    }

    /// The bytes of a decoded header.
    pub fn encode(data: NodeData) -> (r: NodeHeaderData)
        ensures
            r == (NodeHeaderData { kind: data.kind.spec_as_u8(), len: data.len, free: data.free }),
    {
        NodeHeaderData::new(data.len, data.kind, data.free)
    }

    /// Decodes the bytes; a kind byte above 4 encodes no header.
    pub fn decode(self) -> (r: Option<NodeData>)
        ensures
            self.kind <= 4 <==> r is Some,
            r matches Some(d) ==> NodeHeaderData::encode_spec(d) == self,
    {
        match self.kind() {
            Some(kind) => Some(NodeData { len: self.len, kind, free: self.free }),
            None => None,
        }
    }

    pub open spec fn encode_spec(data: NodeData) -> NodeHeaderData {
        NodeHeaderData { kind: data.kind.spec_as_u8(), len: data.len, free: data.free }
    }
}

/// Prefixes of up to this many bytes are kept inline.
pub const INLINE_CAPACITY: usize = 8;

/// The length byte that says the prefix lives in its own heap block.
pub const SPILLED: u8 = 0xFF;

/// The byte `key[from + i]`, or zero past `to`.
fn byte_or_zero(key: &[u8], from: usize, i: usize, to: usize) -> (r: u8)
    requires
        from <= to <= key@.len(),
    ensures
        from + i < to ==> r == key@[from + i],
{
    if i < to - from {
        key[from + i]
    } else {
        0
    }
}

/// The storage of a node's header bytes and prefix: a prefix of up to `INLINE_CAPACITY`
/// bytes stays inline, a longer one goes to a heap block and the length byte says
/// `SPILLED`.
#[derive(Debug)]
pub struct InlineStorage {
    data: NodeData,
    len: u8,
    inline: [u8; 8],
    heap: Vec<u8>,
}

impl InlineStorage {
    pub closed spec fn spec_data(&self) -> NodeData {
        self.data
    }

    pub closed spec fn spec_prefix(&self) -> Seq<u8> {
        if self.len == SPILLED {
            self.heap@
        } else if self.len <= 8 {
            self.inline@.take(self.len as int)
        } else {
            Seq::empty()
        }
    }

    /// Whether the prefix is kept inline.
    pub closed spec fn spec_is_inline(&self) -> bool {
        self.len != SPILLED
    }

    /// Stores `key[from..to]` with the given header bytes.
    pub fn store(key: &[u8], from: usize, to: usize, data: NodeData) -> (r: InlineStorage)
        requires
            from <= to <= key@.len(),
        ensures
            r.spec_data() == data,
            r.spec_prefix() == key@.subrange(from as int, to as int),
            r.spec_is_inline() == (to - from <= INLINE_CAPACITY),
    {
        let n = to - from;
        if n <= INLINE_CAPACITY {
            let inline: [u8; 8] = [
                byte_or_zero(key, from, 0, to),
                byte_or_zero(key, from, 1, to),
                byte_or_zero(key, from, 2, to),
                byte_or_zero(key, from, 3, to),
                byte_or_zero(key, from, 4, to),
                byte_or_zero(key, from, 5, to),
                byte_or_zero(key, from, 6, to),
                byte_or_zero(key, from, 7, to),
            ];
            let r = InlineStorage { data, len: n as u8, inline, heap: Vec::new() };
            proof {
                assert(r.inline@.take(n as int) =~= key@.subrange(from as int, to as int));
            }
            r
        } else {
            InlineStorage { data, len: SPILLED, inline: [0u8; 8], heap: copy_bytes(key, from, to) }
        }
    }

    /// The prefix.
    pub fn prefix(&self) -> (r: &[u8])
        ensures
            r@ == self.spec_prefix(),
    {
        if self.len == SPILLED {
            self.heap.as_slice()
        } else if self.len as usize <= INLINE_CAPACITY {
            vstd::slice::slice_subrange(self.inline.as_slice(), 0, self.len as usize)
        } else {
            vstd::slice::slice_subrange(self.inline.as_slice(), 0, 0)
        }
    }

    /// Whether the prefix is kept inline.
    pub fn is_inline(&self) -> (r: bool)
        ensures
            r == self.spec_is_inline(),
    {
        self.len != SPILLED
    }
}

/// The common part of every node: its header bytes and its compressed prefix.
#[derive(Debug)]
pub struct NodeHeader {
    storage: InlineStorage,
}

impl NodeHeader {
    pub closed spec fn spec_data(&self) -> NodeData {
        self.storage.spec_data()
    }

    pub closed spec fn spec_prefix(&self) -> Seq<u8> {
        self.storage.spec_prefix()
    }

    /// Stores `key[from..to]` as the prefix, with the given header bytes.
    pub fn new(key: &[u8], from: usize, to: usize, data: NodeData) -> (r: NodeHeader)
        requires
            from <= to <= key@.len(),
        ensures
            r.spec_data() == data,
            r.spec_prefix() == key@.subrange(from as int, to as int),
    {
        NodeHeader { storage: InlineStorage::store(key, from, to, data) }
    }

    /// The storage of the header bytes and the prefix.
    pub fn storage(&self) -> (r: &InlineStorage)
        ensures
            r.spec_data() == self.spec_data(),
            r.spec_prefix() == self.spec_prefix(),
    {
        &self.storage
    }

    /// The three header bytes.
    pub fn data(&self) -> (r: &NodeData)
        ensures
            *r == self.spec_data(),
    {
        &self.storage.data
    }

    /// Mutable access to the three header bytes; the prefix is left as it is.
    pub fn data_mut(&mut self) -> (r: &mut NodeData)
        ensures
            *r == old(self).spec_data(),
            final(self).spec_data() == *final(r),
            final(self).spec_prefix() == old(self).spec_prefix(),
    {
        &mut self.storage.data
    }

    /// Overwrites the three header bytes; the prefix is left as it is.
    pub fn set_data(&mut self, data: NodeData)
        ensures
            final(self).spec_data() == data,
            final(self).spec_prefix() == old(self).spec_prefix(),
    {
        self.storage.data = data;
    }

    /// The header bytes in their encoded form.
    pub fn header_data(&self) -> (r: NodeHeaderData)
        ensures
            r == NodeHeaderData::encode_spec(self.spec_data()),
    {
        NodeHeaderData::encode(self.storage.data)
    }

    pub fn kind(&self) -> (r: NodeKind)
        ensures
            r == self.spec_data().kind,
    {
        self.storage.data.kind
    }

    /// Whether the header belongs to a node of the given kind.
    pub fn is(&self, kind: NodeKind) -> (r: bool)
        ensures
            r == (self.spec_data().kind == kind),
    {
        self.storage.data.kind == kind
    }

    /// The compressed prefix.
    pub fn prefix(&self) -> (r: &[u8])
        ensures
            r@ == self.spec_prefix(),
    {
        self.storage.prefix()
    }

    pub fn prefix_len(&self) -> (r: usize)
        ensures
            r == self.spec_prefix().len(),
    {
        self.storage.prefix().len()
    }

    /// A header with the same bytes whose prefix drops its first `until` bytes.
    pub fn copy_drop_prefix(&self, until: usize) -> (r: NodeHeader)
        requires
            until <= self.spec_prefix().len(),
        ensures
            r.spec_data() == self.spec_data(),
            r.spec_prefix() == self.spec_prefix().skip(until as int),
    {
        let p = self.storage.prefix();
        let r = NodeHeader::new(p, until, p.len(), self.storage.data);
        proof {
            assert(p@.subrange(until as int, p@.len() as int) =~= p@.skip(until as int));
        }
        r
    }

    /// Replaces the prefix by `prefix ++ [key] ++ current prefix`, as a fold does.
    pub fn prepend_prefix(&mut self, prefix: &[u8], key: u8)
        ensures
            final(self).spec_data() == old(self).spec_data(),
            final(self).spec_prefix() == prefix@.push(key) + old(self).spec_prefix(),
    {
        let mut joined = copy_bytes(prefix, 0, prefix.len());
        proof {
            assert(prefix@.subrange(0, prefix@.len() as int) =~= prefix@);
        }
        joined.push(key);
        let cur = self.storage.prefix();
        let mut rest = copy_bytes(cur, 0, cur.len());
        proof {
            assert(cur@.subrange(0, cur@.len() as int) =~= cur@);
        }
        joined.append(&mut rest);
        let data = self.storage.data;
        self.storage = InlineStorage::store(joined.as_slice(), 0, joined.len(), data);
        proof {
            assert(joined@.subrange(0, joined@.len() as int) =~= joined@);
        }
    }
}

} // verus!
