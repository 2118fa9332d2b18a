//! The five node shapes, the handle that owns a node, and the abstract meaning of a subtree.
use crate::header::{NodeData, NodeHeader, NodeKind};
use crate::sorted::{all_some, sorted_child};
use vstd::prelude::*;

verus! {

/// Marks an unused entry of a `Node48` index table.
pub const ABSENT: u8 = 0xFF;

/// A leaf: its prefix is the rest of its key below the path that leads to it.
pub struct LeafNode<V> {
    pub header: NodeHeader,
    pub value: V,
}

/// Up to four children, with their key bytes kept in ascending order.
pub struct Node4<V> {
    pub header: NodeHeader,
    pub keys: Vec<u8>,
    pub ptr: Vec<Option<NodePtr<V>>>,
}

/// Five to sixteen children, with their key bytes kept in ascending order.
pub struct Node16<V> {
    pub header: NodeHeader,
    pub keys: Vec<u8>,
    pub ptr: Vec<Option<NodePtr<V>>>,
}

/// Seventeen to forty-eight children: `idxs[b]` is the slot of the child for byte `b`,
/// or `ABSENT`. The unused slots form a list that starts at the header's `free` byte and
/// goes on through `next_free`.
pub struct Node48<V> {
    pub header: NodeHeader,
    pub idxs: Vec<u8>,
    pub ptr: Vec<Option<NodePtr<V>>>,
    pub next_free: Vec<u8>,
    pub free_list: Ghost<Seq<u8>>,
}

/// Forty-nine to 256 children, one slot per key byte.
pub struct Node256<V> {
    pub header: NodeHeader,
    pub ptr: Vec<Option<NodePtr<V>>>,
}

/// A node of any shape.
pub enum NodeBody<V> {
    Leaf(LeafNode<V>),
    Node4(Node4<V>),
    Node16(Node16<V>),
    Node48(Node48<V>),
    Node256(Node256<V>),
}

/// The owning handle of a node: the child reference of a branch and the root of a tree.
pub struct NodePtr<V> {
    pub node: Box<NodeBody<V>>,
}

/// Whether `s` is strictly increasing.
pub open spec fn strictly_increasing(s: Seq<u8>) -> bool {
    forall|i: int, j: int| 0 <= i < j < s.len() ==> s[i] < s[j]
}

/// The number of `true` entries of `s`.
pub open spec fn count_true(s: Seq<bool>) -> nat
    decreases s.len(),
{
    if s.len() == 0 {
        0
    } else {
        count_true(s.drop_last()) + if s.last() {
            1nat
        } else {
            0nat
        }
    }
}

/// The position of `b` in `keys`, if it is there.
pub open spec fn index_of(keys: Seq<u8>, b: u8) -> Option<int> {
    if exists|i: int| 0 <= i < keys.len() && keys[i] == b {
        Some(choose|i: int| 0 <= i < keys.len() && keys[i] == b)
    } else {
        None
    }
}

/// What is left of a branch after a removal: a branch, or a single child that the
/// caller folds into the branch's place (with the branch's header and the child's byte).
pub enum Shrunk<V> {
    Node(NodeBody<V>),
    Single(NodeHeader, u8, NodePtr<V>),
}

impl<V> Shrunk<V> {
    /// This is what removing byte `key` from `before` leaves.
    pub open spec fn removed_from(self, before: NodeBody<V>, key: u8) -> bool {
        match self {
            Shrunk::Node(n) => {
                &&& n.wf_local()
                &&& n.hdr().spec_prefix() == before.hdr().spec_prefix()
                &&& forall|x: u8|
                    #[trigger] n.child(x) == if x == key {
                        None
                    } else {
                        before.child(x)
                    }
            },
            Shrunk::Single(h, b, c) => {
                &&& h.spec_prefix() == before.hdr().spec_prefix()
                &&& b != key
                &&& before.child(b) == Some(c)
                &&& forall|x: u8| x != key && x != b ==> (#[trigger] before.child(x)) is None
            },
        }
    }
}

/// Which key bytes have an entry in a `Node48` index table.
pub open spec fn presence48(idxs: Seq<u8>) -> Seq<bool> {
    Seq::new(256, |b: int| idxs[b] != ABSENT)
}

/// Which slots of a table hold a child.
pub open spec fn presence<V>(ptr: Seq<Option<NodePtr<V>>>) -> Seq<bool> {
    Seq::new(ptr.len(), |i: int| ptr[i] is Some)
}

impl<V> LeafNode<V> {
    pub open spec fn wf(self) -> bool {
        self.header.spec_data() == (NodeData { len: 0, kind: NodeKind::Leaf, free: 0 })
    }
}

impl<V> Node4<V> {
    pub open spec fn child(self, b: u8) -> Option<NodePtr<V>> {
        sorted_child(self.keys@, self.ptr@, b)
    }

    pub open spec fn wf(self) -> bool {
        let d = self.header.spec_data();
        &&& d.kind == NodeKind::Node4
        &&& d.free == 0
        &&& self.keys@.len() == self.ptr@.len() == d.len
        &&& 2 <= d.len <= 4
        &&& strictly_increasing(self.keys@)
        &&& all_some(self.ptr@)
    }
}

impl<V> Node16<V> {
    pub open spec fn child(self, b: u8) -> Option<NodePtr<V>> {
        sorted_child(self.keys@, self.ptr@, b)
    }

    pub open spec fn wf(self) -> bool {
        let d = self.header.spec_data();
        &&& d.kind == NodeKind::Node16
        &&& d.free == 0
        &&& self.keys@.len() == self.ptr@.len() == d.len
        &&& 5 <= d.len <= 16
        &&& strictly_increasing(self.keys@)
        &&& all_some(self.ptr@)
    }
}

impl<V> Node48<V> {
    pub open spec fn child(self, b: u8) -> Option<NodePtr<V>> {
        let i = self.idxs@[b as int];
        if i != ABSENT && (i as int) < self.ptr@.len() {
            self.ptr@[i as int]
        } else {
            None
        }
    }

    /// The free slots form a list from the header's `free` byte through `next_free`.
    pub open spec fn free_list_wf(self) -> bool {
        let fl = self.free_list@;
        &&& forall|j: int| 0 <= j < fl.len() ==> (#[trigger] fl[j]) < 48 && self.ptr@[fl[j] as int] is None
        &&& forall|j1: int, j2: int| 0 <= j1 < j2 < fl.len() ==> fl[j1] != fl[j2]
        &&& forall|j: int|
            0 <= j < fl.len() ==> self.next_free@[(#[trigger] fl[j]) as int] == if j + 1 < fl.len() {
                fl[j + 1]
            } else {
                ABSENT
            }
        &&& self.header.spec_data().free == if fl.len() > 0 {
            fl[0]
        } else {
            ABSENT
        }
    }

    pub open spec fn wf(self) -> bool {
        let d = self.header.spec_data();
        &&& d.kind == NodeKind::Node48
        &&& self.idxs@.len() == 256
        &&& self.ptr@.len() == 48
        &&& self.next_free@.len() == 48
        &&& 17 <= d.len <= 48
        &&& d.len == count_true(presence48(self.idxs@))
        &&& self.table_wf()
        &&& self.free_list@.len() + d.len == 48
        &&& self.free_list_wf()
    }

    /// Every byte with an index entry selects its own occupied slot.
    pub open spec fn table_wf(self) -> bool {
        &&& self.idxs@.len() == 256
        &&& self.ptr@.len() == 48
        &&& forall|b: int|
            0 <= b < 256 && (#[trigger] self.idxs@[b]) != ABSENT ==> self.idxs@[b] < 48
                && self.ptr@[self.idxs@[b] as int] is Some
        &&& forall|b1: int, b2: int|
            0 <= b1 < 256 && 0 <= b2 < 256 && b1 != b2 && (#[trigger] self.idxs@[b1]) != ABSENT
                ==> self.idxs@[b1] != #[trigger] self.idxs@[b2]
    }
}

impl<V> Node256<V> {
    pub open spec fn child(self, b: u8) -> Option<NodePtr<V>> {
        if (b as int) < self.ptr@.len() {
            self.ptr@[b as int]
        } else {
            None
        }
    }

    /// The population; the header stores it minus one.
    pub open spec fn population(self) -> nat {
        count_true(presence(self.ptr@))
    }

    pub open spec fn wf(self) -> bool {
        let d = self.header.spec_data();
        &&& d.kind == NodeKind::Node256
        &&& d.free == 0
        &&& self.ptr@.len() == 256
        &&& 49 <= self.population() <= 256
        &&& d.len + 1 == self.population()
    }
}

impl<V> NodeBody<V> {
    pub open spec fn hdr(self) -> NodeHeader {
        match self {
            NodeBody::Leaf(n) => n.header,
            NodeBody::Node4(n) => n.header,
            NodeBody::Node16(n) => n.header,
            NodeBody::Node48(n) => n.header,
            NodeBody::Node256(n) => n.header,
        }
    }

    pub open spec fn is_leaf(self) -> bool {
        self is Leaf
    }

    /// The child for key byte `b`; a leaf has none.
    pub open spec fn child(self, b: u8) -> Option<NodePtr<V>> {
        match self {
            NodeBody::Leaf(n) => None,
            NodeBody::Node4(n) => n.child(b),
            NodeBody::Node16(n) => n.child(b),
            NodeBody::Node48(n) => n.child(b),
            NodeBody::Node256(n) => n.child(b),
        }
    }

    /// `other` is this node with the slot of byte `b` set to `c`.
    pub open spec fn slot_set(self, other: NodeBody<V>, b: u8, c: Option<NodePtr<V>>) -> bool {
        match (self, other) {
            (NodeBody::Node4(n), NodeBody::Node4(m)) => n.header == m.header && n.keys@ == m.keys@
                && m.ptr@ == n.ptr@.update(index_of(n.keys@, b).unwrap(), c),
            (NodeBody::Node16(n), NodeBody::Node16(m)) => n.header == m.header && n.keys@ == m.keys@
                && m.ptr@ == n.ptr@.update(index_of(n.keys@, b).unwrap(), c),
            (NodeBody::Node48(n), NodeBody::Node48(m)) => n.header == m.header && n.idxs@ == m.idxs@
                && n.next_free@ == m.next_free@ && n.free_list@ == m.free_list@ && m.ptr@
                == n.ptr@.update(n.idxs@[b as int] as int, c),
            (NodeBody::Node256(n), NodeBody::Node256(m)) => n.header == m.header && m.ptr@
                == n.ptr@.update(b as int, c),
            _ => false,
        }
    }

    /// `other` is this node with another prefix: the same shape, header bytes and children.
    pub open spec fn reprefixed(self, other: NodeBody<V>) -> bool {
        &&& other.hdr().spec_data() == self.hdr().spec_data()
        &&& match (self, other) {
            (NodeBody::Leaf(n), NodeBody::Leaf(m)) => n.value == m.value,
            (NodeBody::Node4(n), NodeBody::Node4(m)) => n.keys == m.keys && n.ptr == m.ptr,
            (NodeBody::Node16(n), NodeBody::Node16(m)) => n.keys == m.keys && n.ptr == m.ptr,
            (NodeBody::Node48(n), NodeBody::Node48(m)) => n.idxs == m.idxs && n.ptr == m.ptr
                && n.next_free == m.next_free && n.free_list == m.free_list,
            (NodeBody::Node256(n), NodeBody::Node256(m)) => n.ptr == m.ptr,
            _ => false,
        }
    }

    /// The slot of byte `b` exists, whether or not it holds a child.
    pub open spec fn has_slot(self, b: u8) -> bool {
        match self {
            NodeBody::Leaf(n) => false,
            NodeBody::Node4(n) => strictly_increasing(n.keys@) && (index_of(n.keys@, b) matches Some(i)
                && 0 <= i < n.ptr@.len()),
            NodeBody::Node16(n) => strictly_increasing(n.keys@) && (index_of(n.keys@, b) matches Some(
                i,
            ) && 0 <= i < n.ptr@.len()),
            NodeBody::Node48(n) => {
                let i = n.idxs@[b as int];
                n.idxs@.len() == 256 && i != ABSENT && (i as int) < n.ptr@.len()
            },
            NodeBody::Node256(n) => n.ptr@.len() == 256,
        }
    }

    /// The shape invariant of this node alone.
    pub open spec fn wf_local(self) -> bool {
        match self {
            NodeBody::Leaf(n) => n.wf(),
            NodeBody::Node4(n) => n.wf(),
            NodeBody::Node16(n) => n.wf(),
            NodeBody::Node48(n) => n.wf(),
            NodeBody::Node256(n) => n.wf(),
        }
    }
}

impl<V> NodePtr<V> {
    pub open spec fn body(self) -> NodeBody<V> {
        *self.node
    }

    pub open spec fn prefix(self) -> Seq<u8> {
        self.body().hdr().spec_prefix()
    }
}

/// The value that the subtree at `n` holds for the key suffix `k`, if any.
pub open spec fn lookup<V>(n: NodePtr<V>, k: Seq<u8>) -> Option<V>
    decreases n,
{
    let p = n.prefix();
    if p.len() <= k.len() && k.take(p.len() as int) == p {
        let r = k.skip(p.len() as int);
        match *n.node {
            NodeBody::Leaf(l) => if r.len() == 0 {
                Some(l.value)
            } else {
                None
            },
            _ => if r.len() > 0 {
                match n.body().child(r[0]) {
                    Some(c) => lookup(c, r.skip(1)),
                    None => None,
                }
            } else {
                None
            },
        }
    } else {
        None
    }
}

/// Takes the child out of slot `i`, leaving the slot empty.
pub fn take_slot<V>(v: &mut Vec<Option<NodePtr<V>>>, i: usize) -> (r: Option<NodePtr<V>>)
    requires
        i < old(v)@.len(),
    ensures
        r == old(v)@[i as int],
        final(v)@ == old(v)@.update(i as int, None),
{
    let mut t: Option<NodePtr<V>> = None;
    std::mem::swap(&mut v[i], &mut t);
    t
}

/// The whole subtree at `n` is well formed: every node keeps its shape invariant.
pub open spec fn wf<V>(n: NodePtr<V>) -> bool
    decreases n,
{
    &&& n.body().wf_local()
    &&& forall|b: u8| #[trigger] n.body().child(b) matches Some(c) ==> wf(c)
}

} // verus!
