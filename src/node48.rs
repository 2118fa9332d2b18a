//! The branch of seventeen to forty-eight children, reached through a byte-indexed table.
use crate::count::{lemma_count_none, lemma_count_take_le, lemma_count_take_step, lemma_count_update};
use crate::header::{NodeData, NodeHeader, NodeKind};
use crate::nodes::{
    count_true, index_of, presence48, strictly_increasing, take_slot, Node16, Node256, Node48,
    NodeBody, NodePtr, Shrunk, ABSENT,
};
use crate::sorted::{all_some, lemma_index_of_at, lemma_index_of_bound, sorted_child};
use vstd::prelude::*;

verus! {

/// A table of 256 `ABSENT` entries.
fn absent_table() -> (r: Vec<u8>)
    ensures
        r@.len() == 256,
        forall|b: int| 0 <= b < 256 ==> r@[b] == ABSENT,
        count_true(presence48(r@)) == 0,
{
    let mut idxs: Vec<u8> = Vec::new();
    let mut i: usize = 0;
    while i < 256
        invariant
            i <= 256,
            idxs@.len() == i,
            forall|b: int| 0 <= b < i ==> idxs@[b] == ABSENT,
        decreases 256 - i,
    {
        idxs.push(ABSENT);
        i = i + 1;
    }
    proof {
        lemma_count_none(presence48(idxs@));
    }
    idxs
}

impl<V> Node48<V> {
    /// The node that a full `Node16` (with `keys` and `ptr`) grows into when `key ↦ child`
    /// is added. Slots 0 to 16 hold the children; the rest form the free list.
    pub fn grow_from(
        header: NodeHeader,
        keys: Vec<u8>,
        ptr: Vec<Option<NodePtr<V>>>,
        key: u8,
        child: NodePtr<V>,
    ) -> (r: Node48<V>)
        requires
            keys@.len() == 16,
            ptr@.len() == 16,
            strictly_increasing(keys@),
            all_some(ptr@),
            index_of(keys@, key) is None,
        ensures
            r.wf(),
            r.header.spec_prefix() == header.spec_prefix(),
            forall|x: u8|
                #[trigger] r.child(x) == if x == key {
                    Some(child)
                } else {
                    sorted_child(keys@, ptr@, x)
                },
    {
        let mut header = header;
        let mut ptr = ptr;
        let ghost orig = ptr@;
        let mut idxs = absent_table();
        let mut slots: Vec<Option<NodePtr<V>>> = Vec::new();
        let mut next_free: Vec<u8> = Vec::new();
        let mut j: usize = 0;
        while j < 16
            invariant
                j <= 16,
                keys@.len() == 16,
                orig.len() == 16,
                ptr@.len() == 16,
                all_some(orig),
                strictly_increasing(keys@),
                index_of(keys@, key) is None,
                idxs@.len() == 256,
                slots@.len() == j,
                next_free@.len() == j,
                forall|k: int| 0 <= k < j ==> slots@[k] == orig[k],
                forall|k: int| j <= k < 16 ==> ptr@[k] == orig[k],
                forall|k: int| 0 <= k < j ==> idxs@[keys@[k] as int] == k as u8,
                forall|b: int|
                    0 <= b < 256 && idxs@[b] != ABSENT ==> exists|k: int|
                        0 <= k < j && keys@[k] == b && idxs@[b] == k,
                count_true(presence48(idxs@)) == j,
            decreases 16 - j,
        {
            let c = take_slot(&mut ptr, j);
            slots.push(c);
            let kb = keys[j];
            proof {
                if idxs@[kb as int] != ABSENT {
                    let k = choose|k: int| 0 <= k < j && keys@[k] == kb && idxs@[kb as int] == k;
                    assert(keys@[k] < keys@[j as int]);
                }
                lemma_count_update(presence48(idxs@), kb as int, true);
                assert(presence48(idxs@.update(kb as int, j as u8)) =~= presence48(idxs@).update(
                    kb as int,
                    true,
                ));
            }
            idxs[kb as usize] = j as u8;
            next_free.push(ABSENT);
            proof {
                assert forall|k: int| 0 <= k < j + 1 implies idxs@[keys@[k] as int] == k as u8 by {
                    if k < j {
                        assert(keys@[k] < keys@[j as int]);
                    }
                }
                assert forall|b: int| 0 <= b < 256 && idxs@[b] != ABSENT implies exists|k: int|
                    0 <= k < j + 1 && keys@[k] == b && idxs@[b] == k by {
                    if b == kb {
                        assert(keys@[j as int] == b);
                    }
                }
            }
            j = j + 1;
        }
        proof {
            if idxs@[key as int] != ABSENT {
                let k = choose|k: int| 0 <= k < 16 && keys@[k] == key && idxs@[key as int] == k;
                lemma_index_of_at(keys@, k);
            }
            lemma_count_update(presence48(idxs@), key as int, true);
            assert(presence48(idxs@.update(key as int, 16u8)) =~= presence48(idxs@).update(
                key as int,
                true,
            ));
        }
        let ghost before = idxs@;
        slots.push(Some(child));
        idxs[key as usize] = 16;
        next_free.push(ABSENT);
        let mut s: usize = 17;
        while s < 48
            invariant
                17 <= s <= 48,
                orig.len() == 16,
                all_some(orig),
                keys@.len() == 16,
                idxs@ == before.update(key as int, 16u8),
                before.len() == 256,
                forall|k: int| 0 <= k < 16 ==> before[keys@[k] as int] == k as u8,
                forall|b: int|
                    0 <= b < 256 && before[b] != ABSENT ==> exists|k: int|
                        0 <= k < 16 && keys@[k] == b && before[b] == k,
                count_true(presence48(idxs@)) == 17,
                slots@.len() == s,
                next_free@.len() == s,
                forall|k: int| 0 <= k < 16 ==> slots@[k] == orig[k],
                slots@[16] == Some(child),
                forall|k: int| 17 <= k < s ==> (#[trigger] slots@[k]) is None,
                forall|k: int|
                    17 <= k < s ==> #[trigger] next_free@[k] == if k + 1 < 48 {
                        (k + 1) as u8
                    } else {
                        ABSENT
                    },
            decreases 48 - s,
        {
            let ghost nf0 = next_free@;
            slots.push(None);
            let nxt: u8 = if s + 1 < 48 {
                (s + 1) as u8
            } else {
                ABSENT
            };
            next_free.push(nxt);
            assert(next_free@[s as int] == if s + 1 < 48 {
                (s + 1) as u8
            } else {
                ABSENT
            });
            assert forall|k: int| 17 <= k < s + 1 implies slots@[k] is None && next_free@[k] == if k
                + 1 < 48 {
                (k + 1) as u8
            } else {
                ABSENT
            } by {
                if k < s {
                    assert(next_free@[k] == nf0[k]);
                }
            }
            s = s + 1;
        }
        header.set_data(NodeData { len: 17, kind: NodeKind::Node48, free: 17 });
        let ghost fl = Seq::new(31, |k: int| (17 + k) as u8);
        let r = Node48 { header, idxs, ptr: slots, next_free, free_list: Ghost(fl) };
        proof {
            assert forall|b: int| 0 <= b < 256 && (#[trigger] r.idxs@[b]) != ABSENT implies r.idxs@[b]
                < 48 && r.ptr@[r.idxs@[b] as int] is Some by {
                if b != key {
                    assert(r.idxs@[b] == before[b]);
                    let k = choose|k: int| 0 <= k < 16 && keys@[k] == b && before[b] == k;
                    assert(orig[k] is Some);
                    assert(r.ptr@[k] == orig[k]);
                }
            }
            assert forall|b1: int, b2: int|
                0 <= b1 < 256 && 0 <= b2 < 256 && b1 != b2 && (#[trigger] r.idxs@[b1]) != ABSENT
                    implies r.idxs@[b1] != #[trigger] r.idxs@[b2] by {
                if r.idxs@[b2] != ABSENT && b1 != key && b2 != key {
                    let k1 = choose|k: int| 0 <= k < 16 && keys@[k] == b1 && before[b1] == k;
                    let k2 = choose|k: int| 0 <= k < 16 && keys@[k] == b2 && before[b2] == k;
                } else if r.idxs@[b2] != ABSENT && b1 == key {
                    let k2 = choose|k: int| 0 <= k < 16 && keys@[k] == b2 && before[b2] == k;
                } else if r.idxs@[b2] != ABSENT && b2 == key {
                    let k1 = choose|k: int| 0 <= k < 16 && keys@[k] == b1 && before[b1] == k;
                }
            }
            assert forall|x: u8|
                #[trigger] r.child(x) == if x == key {
                    Some(child)
                } else {
                    sorted_child(keys@, orig, x)
                } by {
                lemma_index_of_bound(keys@, x);
                if x != key {
                    if before[x as int] != ABSENT {
                        let k = choose|k: int| 0 <= k < 16 && keys@[k] == x && before[x as int] == k;
                        lemma_index_of_at(keys@, k);
                    } else {
                        if index_of(keys@, x) is Some {
                            let k = index_of(keys@, x).unwrap();
                            assert(before[keys@[k] as int] == k as u8);
                        }
                    }
                }
            }
        }
        r
    }

    /// Whether every slot is taken.
    pub fn is_full(&self) -> (r: bool)
        requires
            self.wf(),
        ensures
            r == (self.header.spec_data().len == 48),
    {
        self.header.data().len == 48
    }

    /// Whether removing a child brings the node down to the size of a `Node16`.
    pub fn should_shrink(&self) -> (r: bool)
        requires
            self.wf(),
        ensures
            r == (self.header.spec_data().len == 17),
    {
        self.header.data().len == 17
    }

    /// The child for byte `key`.
    pub fn get(&self, key: u8) -> (r: Option<&NodePtr<V>>)
        requires
            self.wf(),
        ensures
            match r {
                Some(c) => self.child(key) == Some(*c),
                None => self.child(key) is None,
            },
    {
        let i = self.idxs[key as usize];
        if i == ABSENT {
            None
        } else {
            match &self.ptr[i as usize] {
                Some(c) => Some(c),
                None => None,
            }
        }
    }

    /// The slot that holds the child for byte `key`.
    pub fn lookup(&self, key: u8) -> (r: Option<usize>)
        requires
            self.wf(),
        ensures
            r is Some == self.child(key) is Some,
            r matches Some(i) ==> self.idxs@[key as int] == i,
    {
        let i = self.idxs[key as usize];
        if i == ABSENT {
            None
        } else {
            Some(i as usize)
        }
    }

    /// Adds `key ↦ child` in the slot at the head of the free list; a full node grows
    /// into a `Node256`.
    pub fn insert(self, key: u8, child: NodePtr<V>) -> (r: NodeBody<V>)
        requires
            self.wf(),
            self.child(key) is None,
        ensures
            r.wf_local(),
            r.hdr().spec_prefix() == self.header.spec_prefix(),
            if self.header.spec_data().len == 48 {
                r is Node256
            } else {
                r is Node48
            },
            forall|x: u8|
                #[trigger] r.child(x) == if x == key {
                    Some(child)
                } else {
                    self.child(x)
                },
    {
        let d = *self.header.data();
        if d.len == 48 {
            return NodeBody::Node256(Node256::grow_from(self, key, child));
        }
        let ghost old_n = self;
        let Node48 { mut header, mut idxs, mut ptr, next_free, free_list } = self;
        let ghost fl = free_list@;
        let slot = d.free;
        let next = next_free[slot as usize];
        proof {
            assert(fl[0] == slot);
            assert(idxs@[key as int] == ABSENT);
            lemma_count_update(presence48(idxs@), key as int, true);
            assert(presence48(idxs@.update(key as int, slot)) =~= presence48(idxs@).update(
                key as int,
                true,
            ));
        }
        ptr[slot as usize] = Some(child);
        idxs[key as usize] = slot;
        header.set_data(NodeData { len: d.len + 1, kind: NodeKind::Node48, free: next });
        let ghost fl2 = fl.drop_first();
        let r = Node48 { header, idxs, ptr, next_free, free_list: Ghost(fl2) };
        proof {
            assert forall|b: int| 0 <= b < 256 && b != key && old_n.idxs@[b] != ABSENT implies old_n.idxs@[b] != slot by {
                assert(old_n.ptr@[old_n.idxs@[b] as int] is Some);
            }
            assert forall|j: int| 0 <= j < fl2.len() implies (#[trigger] fl2[j]) < 48 && r.ptr@[fl2[j] as int] is None by {
                assert(fl2[j] == fl[j + 1]);
                assert(fl[0] != fl[j + 1]);
            }
            assert forall|j: int|
                0 <= j < fl2.len() implies r.next_free@[(#[trigger] fl2[j]) as int] == if j + 1 < fl2.len() {
                    fl2[j + 1]
                } else {
                    ABSENT
                } by {
                assert(fl2[j] == fl[j + 1]);
            }
            assert forall|x: u8|
                #[trigger] r.child(x) == if x == key {
                    Some(child)
                } else {
                    old_n.child(x)
                } by {
                if x != key && old_n.idxs@[x as int] != ABSENT {
                    assert(old_n.idxs@[x as int] != slot);
                }
            }
        }
        NodeBody::Node48(r)
    }

    /// Removes the child for `key` and hands it back, pushing its slot on the free list;
    /// a node left with sixteen children shrinks into a `Node16`.
    pub fn remove(self, key: u8) -> (r: (Shrunk<V>, NodePtr<V>))
        requires
            self.wf(),
            self.child(key) is Some,
        ensures
            Some(r.1) == self.child(key),
            r.0.removed_from(NodeBody::Node48(self), key),
            r.0 matches Shrunk::Node(n) && if self.header.spec_data().len == 17 {
                n is Node16
            } else {
                n is Node48
            },
    {
        let ghost old_n = self;
        let d = *self.header.data();
        let Node48 { mut header, mut idxs, mut ptr, mut next_free, free_list } = self;
        let ghost fl = free_list@;
        let i = idxs[key as usize];
        let removed = take_slot(&mut ptr, i as usize).unwrap();
        proof {
            lemma_count_update(presence48(idxs@), key as int, false);
            assert(presence48(idxs@.update(key as int, ABSENT)) =~= presence48(idxs@).update(
                key as int,
                false,
            ));
        }
        idxs[key as usize] = ABSENT;
        if d.len == 17 {
            let shrunk = Node48::shrink(header, idxs, ptr);
            proof {
                assert forall|x: u8|
                    #[trigger] NodeBody::Node16(shrunk).child(x) == if x == key {
                        None
                    } else {
                        old_n.child(x)
                    } by {
                    if x != key && old_n.idxs@[x as int] != ABSENT {
                        assert(old_n.idxs@[x as int] != i);
                    }
                }
            }
            return (Shrunk::Node(NodeBody::Node16(shrunk)), removed);
        }
        next_free[i as usize] = d.free;
        header.set_data(NodeData { len: d.len - 1, kind: NodeKind::Node48, free: i });
        let ghost fl2 = seq![i].add(fl);
        let r = Node48 { header, idxs, ptr, next_free, free_list: Ghost(fl2) };
        proof {
            assert forall|j: int| 0 <= j < fl.len() implies fl[j] != i by {
                assert(old_n.ptr@[fl[j] as int] is None);
            }
            assert forall|j: int| 0 <= j < fl2.len() implies (#[trigger] fl2[j]) < 48 && r.ptr@[fl2[j] as int] is None by {
                if j > 0 {
                    assert(fl2[j] == fl[j - 1]);
                }
            }
            assert forall|j1: int, j2: int| 0 <= j1 < j2 < fl2.len() implies fl2[j1] != fl2[j2] by {
                assert(fl2[j2] == fl[j2 - 1]);
                if j1 > 0 {
                    assert(fl2[j1] == fl[j1 - 1]);
                }
            }
            assert forall|j: int|
                0 <= j < fl2.len() implies r.next_free@[(#[trigger] fl2[j]) as int] == if j + 1 < fl2.len() {
                    fl2[j + 1]
                } else {
                    ABSENT
                } by {
                if j > 0 {
                    assert(fl2[j] == fl[j - 1]);
                    assert(fl[j - 1] != i);
                }
            }
            assert forall|x: u8|
                #[trigger] r.child(x) == if x == key {
                    None
                } else {
                    old_n.child(x)
                } by {
                if x != key && old_n.idxs@[x as int] != ABSENT {
                    assert(old_n.idxs@[x as int] != i);
                }
            }
        }
        (Shrunk::Node(NodeBody::Node48(r)), removed)
    }

    /// The `Node16` that holds the sixteen children of a table, in the order of their bytes.
    fn shrink(header: NodeHeader, idxs: Vec<u8>, ptr: Vec<Option<NodePtr<V>>>) -> (r: Node16<V>)
        requires
            idxs@.len() == 256,
            ptr@.len() == 48,
            count_true(presence48(idxs@)) == 16,
            forall|b: int|
                0 <= b < 256 && (#[trigger] idxs@[b]) != ABSENT ==> idxs@[b] < 48
                    && ptr@[idxs@[b] as int] is Some,
            forall|b1: int, b2: int|
                0 <= b1 < 256 && 0 <= b2 < 256 && b1 != b2 && (#[trigger] idxs@[b1]) != ABSENT
                    ==> idxs@[b1] != #[trigger] idxs@[b2],
        ensures
            r.wf(),
            r.header.spec_prefix() == header.spec_prefix(),
            forall|x: u8|
                #[trigger] r.child(x) == if idxs@[x as int] != ABSENT {
                    ptr@[idxs@[x as int] as int]
                } else {
                    None
                },
    {
        let mut header = header;
        let mut ptr = ptr;
        let ghost orig = ptr@;
        let mut keys: Vec<u8> = Vec::new();
        let mut slots: Vec<Option<NodePtr<V>>> = Vec::new();
        let mut b: usize = 0;
        while b < 256
            invariant
                b <= 256,
                idxs@.len() == 256,
                orig.len() == 48,
                ptr@.len() == 48,
                count_true(presence48(idxs@)) == 16,
                forall|y: int|
                    0 <= y < 256 && (#[trigger] idxs@[y]) != ABSENT ==> idxs@[y] < 48
                        && orig[idxs@[y] as int] is Some,
                forall|b1: int, b2: int|
                    0 <= b1 < 256 && 0 <= b2 < 256 && b1 != b2 && (#[trigger] idxs@[b1]) != ABSENT
                        ==> idxs@[b1] != #[trigger] idxs@[b2],
                forall|y: int|
                    b <= y < 256 && idxs@[y] != ABSENT ==> ptr@[idxs@[y] as int] == orig[idxs@[y] as int],
                keys@.len() == slots@.len(),
                keys@.len() == count_true(presence48(idxs@).take(b as int)),
                strictly_increasing(keys@),
                forall|k: int|
                    0 <= k < keys@.len() ==> (#[trigger] keys@[k]) < b && idxs@[keys@[k] as int]
                        != ABSENT && slots@[k] == orig[idxs@[keys@[k] as int] as int],
                forall|x: int|
                    0 <= x < b && idxs@[x] != ABSENT ==> exists|k: int|
                        0 <= k < keys@.len() && keys@[k] == x,
            decreases 256 - b,
        {
            proof {
                lemma_count_take_step(presence48(idxs@), b as int);
                lemma_count_take_le(presence48(idxs@), b as int + 1);
            }
            let i = idxs[b];
            if i != ABSENT {
                let c = take_slot(&mut ptr, i as usize);
                let ghost k0 = keys@;
                let ghost s0 = slots@;
                keys.push(b as u8);
                slots.push(c);
                proof {
                    assert(c == orig[i as int]);
                    assert(keys@[k0.len() as int] == b as u8);
                    assert((b as u8) as int == b);
                    assert forall|k1: int, k2: int| 0 <= k1 < k2 < keys@.len() implies keys@[k1] < keys@[k2] by {
                        if k2 < k0.len() {
                            assert(keys@[k1] == k0[k1] && keys@[k2] == k0[k2]);
                        } else {
                            assert(keys@[k1] == k0[k1]);
                            assert(k0[k1] < b);
                        }
                    }
                    assert forall|k: int| 0 <= k < keys@.len() implies keys@[k] < b + 1 && idxs@[keys@[k] as int] != ABSENT
                        && slots@[k] == orig[idxs@[keys@[k] as int] as int] by {
                        if k < k0.len() {
                            assert(keys@[k] == k0[k] && slots@[k] == s0[k]);
                        }
                    }
                    assert forall|y: int|
                        b + 1 <= y < 256 && idxs@[y] != ABSENT implies ptr@[idxs@[y] as int]
                        == orig[idxs@[y] as int] by {
                        assert(idxs@[y] != idxs@[b as int]);
                    }
                    assert forall|x: int|
                        0 <= x < b + 1 && idxs@[x] != ABSENT implies exists|k: int|
                            0 <= k < keys@.len() && keys@[k] == x by {
                        if x == b {
                            assert(keys@[keys@.len() - 1] == x);
                        } else {
                            let k = choose|k: int| 0 <= k < k0.len() && k0[k] == x;
                            assert(keys@[k] == x);
                        }
                    }
                }
            }
            b = b + 1;
        }
        proof {
            assert(presence48(idxs@).take(256) =~= presence48(idxs@));
        }
        header.set_data(NodeData { len: 16, kind: NodeKind::Node16, free: 0 });
        let r = Node16 { header, keys, ptr: slots };
        proof {
            assert forall|k: int| 0 <= k < r.ptr@.len() implies (#[trigger] r.ptr@[k]).is_some() by {
                assert(r.keys@[k] < 256);
                assert(idxs@[r.keys@[k] as int] != ABSENT);
            }
            assert forall|x: u8|
                #[trigger] r.child(x) == if idxs@[x as int] != ABSENT {
                    orig[idxs@[x as int] as int]
                } else {
                    None
                } by {
                lemma_index_of_bound(r.keys@, x);
                if idxs@[x as int] != ABSENT {
                    let k = choose|k: int| 0 <= k < r.keys@.len() && r.keys@[k] == x;
                    lemma_index_of_at(r.keys@, k);
                }
            }
        }
        r
    }

    /// Mutable access to the child for byte `key`.
    pub fn lookup_mut(&mut self, key: u8) -> (r: Option<&mut NodePtr<V>>)
        requires
            old(self).wf(),
        ensures
            match r {
                Some(c) => old(self).child(key) == Some(*c) && final(self).header == old(self).header
                    && final(self).idxs@ == old(self).idxs@ && final(self).next_free@ == old(self).next_free@
                    && final(self).free_list@ == old(self).free_list@ && final(self).ptr@ == old(
                    self,
                ).ptr@.update(old(self).idxs@[key as int] as int, Some(*final(c))),
                None => old(self).child(key) is None && *final(self) == *old(self),
            },
    {
        let i = self.idxs[key as usize];
        if i == ABSENT {
            None
        } else {
            match &mut self.ptr[i as usize] {
                Some(c) => Some(c),
                None => None,
            }
        }
    }
}

} // verus!
