//! The branch of forty-nine to 256 children, one slot per key byte.
use crate::count::{lemma_count_le, lemma_count_take_le, lemma_count_take_step, lemma_count_update};
use crate::header::{NodeData, NodeHeader, NodeKind};
use crate::nodes::{
    count_true, presence, presence48, take_slot, Node256, Node48, NodeBody, NodePtr, Shrunk, ABSENT,
};
use vstd::prelude::*;

verus! {

impl<V> Node256<V> {
    /// The node that a full `Node48` grows into when `key ↦ child` is added.
    pub fn grow_from(n: Node48<V>, key: u8, child: NodePtr<V>) -> (r: Node256<V>)
        requires
            n.wf(),
            n.header.spec_data().len == 48,
            n.child(key) is None,
        ensures
            r.wf(),
            r.header.spec_prefix() == n.header.spec_prefix(),
            forall|x: u8|
                #[trigger] r.child(x) == if x == key {
                    Some(child)
                } else {
                    n.child(x)
                },
    {
        let ghost old_n = n;
        let Node48 { mut header, idxs, mut ptr, next_free, free_list } = n;
        let ghost orig = ptr@;
        let mut slots: Vec<Option<NodePtr<V>>> = Vec::new();
        let mut b: usize = 0;
        while b < 256
            invariant
                b <= 256,
                old_n.table_wf(),
                old_n.idxs == idxs,
                old_n.ptr@ == orig,
                ptr@.len() == 48,
                slots@.len() == b,
                forall|y: int|
                    b <= y < 256 && idxs@[y] != ABSENT ==> ptr@[idxs@[y] as int] == orig[idxs@[y] as int],
                forall|x: int|
                    0 <= x < b ==> #[trigger] slots@[x] == if idxs@[x] != ABSENT {
                        orig[idxs@[x] as int]
                    } else {
                        None
                    },
            decreases 256 - b,
        {
            let i = idxs[b];
            if i == ABSENT {
                slots.push(None);
            } else {
                let c = take_slot(&mut ptr, i as usize);
                slots.push(c);
                proof {
                    assert forall|y: int|
                        b + 1 <= y < 256 && idxs@[y] != ABSENT implies ptr@[idxs@[y] as int]
                        == orig[idxs@[y] as int] by {
                        assert(idxs@[y] != idxs@[b as int]);
                    }
                }
            }
            b = b + 1;
        }
        proof {
            assert(presence(slots@) =~= presence48(idxs@));
            assert(slots@[key as int] is None);
            lemma_count_update(presence(slots@), key as int, true);
            assert(presence(slots@.update(key as int, Some(child))) =~= presence(slots@).update(
                key as int,
                true,
            ));
        }
        slots[key as usize] = Some(child);
        header.set_data(NodeData { len: 48, kind: NodeKind::Node256, free: 0 });
        Node256 { header, ptr: slots }
    }

    /// Whether all 256 slots are taken.
    pub fn is_full(&self) -> (r: bool)
        requires
            self.wf(),
        ensures
            r == (self.population() == 256),
    {
        self.header.data().len == 255
    }

    /// Whether removing a child brings the node down to the size of a `Node48`.
    pub fn should_shrink(&self) -> (r: bool)
        requires
            self.wf(),
        ensures
            r == (self.population() == 49),
    {
        self.header.data().len == 48
    }

    /// The child for byte `key`.
    pub fn get(&self, key: u8) -> (r: Option<&NodePtr<V>>)
        requires
            self.wf(),
        ensures
            match r {
                Some(c) => self.child(key) == Some(*c),
                None => self.child(key) is None,
            },
    {
        match &self.ptr[key as usize] {
            Some(c) => Some(c),
            None => None,
        }
    }

    /// The slot that holds the child for byte `key`: the byte itself, when it has a child.
    pub fn lookup(&self, key: u8) -> (r: Option<usize>)
        requires
            self.wf(),
        ensures
            r is Some == self.child(key) is Some,
            r matches Some(i) ==> i == key,
    {
        if self.ptr[key as usize].is_some() {
            Some(key as usize)
        } else {
            None
        }
    }

    /// Adds `key ↦ child` for a byte that has no child yet.
    pub fn insert(self, key: u8, child: NodePtr<V>) -> (r: Node256<V>)
        requires
            self.wf(),
            self.child(key) is None,
        ensures
            r.wf(),
            r.header.spec_prefix() == self.header.spec_prefix(),
            r.population() == self.population() + 1,
            forall|x: u8|
                #[trigger] r.child(x) == if x == key {
                    Some(child)
                } else {
                    self.child(x)
                },
    {
        let Node256 { mut header, mut ptr } = self;
        let ghost orig_ptr = ptr@;
        proof {
            lemma_count_update(presence(orig_ptr), key as int, true);
            assert(presence(orig_ptr.update(key as int, Some(child))) =~= presence(orig_ptr).update(
                key as int,
                true,
            ));
            lemma_count_le(presence(orig_ptr.update(key as int, Some(child))));
        }
        ptr[key as usize] = Some(child);
        let len = header.data().len;
        header.set_data(NodeData { len: len + 1, kind: NodeKind::Node256, free: 0 });
        Node256 { header, ptr }
    }

    /// Removes the child for `key` and hands it back; a node left with forty-eight
    /// children shrinks into a `Node48`.
    pub fn remove(self, key: u8) -> (r: (Shrunk<V>, NodePtr<V>))
        requires
            self.wf(),
            self.child(key) is Some,
        ensures
            Some(r.1) == self.child(key),
            r.0.removed_from(NodeBody::Node256(self), key),
            r.0 matches Shrunk::Node(n) && if self.population() == 49 {
                n is Node48
            } else {
                n is Node256
            },
    {
        let Node256 { mut header, mut ptr } = self;
        let ghost orig_ptr = ptr@;
        let removed = take_slot(&mut ptr, key as usize).unwrap();
        proof {
            lemma_count_update(presence(orig_ptr), key as int, false);
            assert(presence(ptr@) =~= presence(orig_ptr).update(key as int, false));
        }
        let len = header.data().len;
        if len == 48 {
            (Shrunk::Node(NodeBody::Node48(Node256::shrink(header, ptr))), removed)
        } else {
            header.set_data(NodeData { len: len - 1, kind: NodeKind::Node256, free: 0 });
            (Shrunk::Node(NodeBody::Node256(Node256 { header, ptr })), removed)
        }
    }

    /// The `Node48` that holds the forty-eight children of `ptr`, in slots numbered in
    /// the order of their bytes; no slot is left free.
    fn shrink(header: NodeHeader, ptr: Vec<Option<NodePtr<V>>>) -> (r: Node48<V>)
        requires
            ptr@.len() == 256,
            count_true(presence(ptr@)) == 48,
        ensures
            r.wf(),
            r.header.spec_prefix() == header.spec_prefix(),
            forall|x: u8| #[trigger] r.child(x) == ptr@[x as int],
    {
        let mut header = header;
        let mut ptr = ptr;
        let ghost orig = ptr@;
        let mut idxs: Vec<u8> = Vec::new();
        let mut slots: Vec<Option<NodePtr<V>>> = Vec::new();
        let mut b: usize = 0;
        while b < 256
            invariant
                b <= 256,
                orig.len() == 256,
                count_true(presence(orig)) == 48,
                ptr@.len() == 256,
                forall|y: int| b <= y < 256 ==> ptr@[y] == orig[y],
                idxs@.len() == b,
                slots@.len() == count_true(presence(orig).take(b as int)),
                slots@.len() <= 48,
                forall|x: int|
                    0 <= x < b ==> ((#[trigger] idxs@[x]) != ABSENT <==> orig[x] is Some),
                forall|x: int|
                    0 <= x < b && (#[trigger] idxs@[x]) != ABSENT ==> idxs@[x] < slots@.len()
                        && slots@[idxs@[x] as int] == orig[x],
                forall|x1: int, x2: int|
                    0 <= x1 < x2 < b && (#[trigger] idxs@[x1]) != ABSENT && (#[trigger] idxs@[x2])
                        != ABSENT ==> idxs@[x1] < idxs@[x2],
                forall|k: int| 0 <= k < slots@.len() ==> (#[trigger] slots@[k]) is Some,
            decreases 256 - b,
        {
            proof {
                lemma_count_take_step(presence(orig), b as int);
                lemma_count_take_le(presence(orig), b as int + 1);
            }
            if ptr[b].is_some() {
                let slot = slots.len();
                let c = take_slot(&mut ptr, b);
                slots.push(c);
                idxs.push(slot as u8);
            } else {
                idxs.push(ABSENT);
            }
            b = b + 1;
        }
        let mut next_free: Vec<u8> = Vec::new();
        let mut k: usize = 0;
        while k < 48
            invariant
                k <= 48,
                next_free@.len() == k,
            decreases 48 - k,
        {
            next_free.push(ABSENT);
            k = k + 1;
        }
        proof {
            assert(presence(orig).take(256) =~= presence(orig));
            assert(presence48(idxs@) =~= presence(orig));
        }
        header.set_data(NodeData { len: 48, kind: NodeKind::Node48, free: ABSENT });
        let r = Node48 { header, idxs, ptr: slots, next_free, free_list: Ghost(Seq::empty()) };
        proof {
            assert forall|b1: int, b2: int|
                0 <= b1 < 256 && 0 <= b2 < 256 && b1 != b2 && (#[trigger] r.idxs@[b1]) != ABSENT
                    implies r.idxs@[b1] != #[trigger] r.idxs@[b2] by {
                if r.idxs@[b2] != ABSENT {
                    if b1 < b2 {
                        assert(r.idxs@[b1] < r.idxs@[b2]);
                    } else {
                        assert(r.idxs@[b2] < r.idxs@[b1]);
                    }
                }
            }
        }
        r
    }

    /// Mutable access to the child for byte `key`.
    pub fn lookup_mut(&mut self, key: u8) -> (r: Option<&mut NodePtr<V>>)
        requires
            old(self).wf(),
        ensures
            match r {
                Some(c) => old(self).child(key) == Some(*c) && final(self).header == old(self).header
                    && final(self).ptr@ == old(self).ptr@.update(key as int, Some(*final(c))),
                None => old(self).child(key) is None && *final(self) == *old(self),
            },
    {
        let i = key as usize;
        if self.ptr[i].is_none() {
            return None;
        }
        match &mut self.ptr[i] {
            Some(c) => Some(c),
            None => None,
        }
    }
}

} // verus!
