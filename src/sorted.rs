//! Child tables whose key bytes are kept in ascending order, as in `Node4` and `Node16`.
use crate::nodes::{index_of, strictly_increasing, NodePtr};
use vstd::prelude::*;

verus! {

/// The child that a sorted table holds for byte `b`.
pub open spec fn sorted_child<V>(keys: Seq<u8>, ptr: Seq<Option<NodePtr<V>>>, b: u8) -> Option<
    NodePtr<V>,
> {
    match index_of(keys, b) {
        Some(i) => if 0 <= i < ptr.len() {
            ptr[i]
        } else {
            None
        },
        None => None,
    }
}

/// Every slot of the table holds a child.
pub open spec fn all_some<V>(ptr: Seq<Option<NodePtr<V>>>) -> bool {
    forall|i: int| 0 <= i < ptr.len() ==> (#[trigger] ptr[i]).is_some()
}

pub proof fn lemma_index_of_at(keys: Seq<u8>, i: int)
    requires
        strictly_increasing(keys),
        0 <= i < keys.len(),
    ensures
        index_of(keys, keys[i]) == Some(i),
{
    let b = keys[i];
    assert(exists|j: int| 0 <= j < keys.len() && keys[j] == b);
    let j = choose|j: int| 0 <= j < keys.len() && keys[j] == b;
    if j < i {
        assert(keys[j] < keys[i]);
    } else if i < j {
        assert(keys[i] < keys[j]);
    }
}

pub proof fn lemma_index_of_absent(keys: Seq<u8>, b: u8)
    requires
        forall|j: int| 0 <= j < keys.len() ==> keys[j] != b,
    ensures
        index_of(keys, b) is None,
{
}

pub proof fn lemma_index_of_bound(keys: Seq<u8>, b: u8)
    ensures
        index_of(keys, b) matches Some(i) ==> 0 <= i < keys.len() && keys[i] == b,
{
}

/// Where `b` is, or where it would go to keep the order.
pub fn sorted_find(keys: &Vec<u8>, b: u8) -> (r: Result<usize, usize>)
    requires
        strictly_increasing(keys@),
    ensures
        match r {
            Ok(i) => i < keys@.len() && keys@[i as int] == b && index_of(keys@, b) == Some(i as int),
            Err(i) => i <= keys@.len() && index_of(keys@, b) is None && (forall|j: int|
                0 <= j < i ==> keys@[j] < b) && (forall|j: int| i <= j < keys@.len() ==> keys@[j]
                > b),
        },
{
    let mut i: usize = 0;
    while i < keys.len()
        invariant
            i <= keys@.len(),
            strictly_increasing(keys@),
            forall|j: int| 0 <= j < i ==> keys@[j] < b,
        decreases keys@.len() - i,
    {
        if keys[i] == b {
            proof {
                lemma_index_of_at(keys@, i as int);
            }
            return Ok(i);
        }
        if keys[i] > b {
            proof {
                assert forall|j: int| i <= j < keys@.len() implies keys@[j] > b by {
                    if i < j {
                        assert(keys@[i as int] < keys@[j]);
                    }
                }
            }
            return Err(i);
        }
        i = i + 1;
    }
    Err(i)
}

/// Adds `b ↦ c` to a sorted table that lacks `b`.
pub fn sorted_insert<V>(keys: &mut Vec<u8>, ptr: &mut Vec<Option<NodePtr<V>>>, b: u8, c: NodePtr<V>)
    requires
        old(keys)@.len() == old(ptr)@.len(),
        strictly_increasing(old(keys)@),
        index_of(old(keys)@, b) is None,
    ensures
        final(keys)@.len() == old(keys)@.len() + 1,
        final(ptr)@.len() == final(keys)@.len(),
        strictly_increasing(final(keys)@),
        all_some(old(ptr)@) ==> all_some(final(ptr)@),
        forall|x: u8|
            #[trigger] sorted_child(final(keys)@, final(ptr)@, x) == if x == b {
                Some(c)
            } else {
                sorted_child(old(keys)@, old(ptr)@, x)
            },
{
    let pos = match sorted_find(keys, b) {
        Ok(i) => i,
        Err(i) => i,
    };
    let ghost ok = old(keys)@;
    let ghost op = old(ptr)@;
    keys.insert(pos, b);
    ptr.insert(pos, Some(c));
    proof {
        let nk = keys@;
        let np = ptr@;
        assert(nk == ok.insert(pos as int, b));
        assert forall|i: int, j: int| 0 <= i < j < nk.len() implies nk[i] < nk[j] by {
            if j < pos {
            } else if j == pos {
            } else if i < pos {
            } else if i == pos {
            } else {
            }
        }
        assert forall|i: int| 0 <= i < np.len() && all_some(op) implies (#[trigger] np[i]).is_some() by {
            if i < pos {
                assert(np[i] == op[i]);
            } else if i > pos {
                assert(np[i] == op[i - 1]);
            }
        }
        assert forall|x: u8|
            #[trigger] sorted_child(nk, np, x) == if x == b {
                Some(c)
            } else {
                sorted_child(ok, op, x)
            } by {
            lemma_index_of_bound(ok, x);
            if x == b {
                lemma_index_of_at(nk, pos as int);
            } else {
                match index_of(ok, x) {
                    Some(j) => {
                        if j < pos {
                            assert(nk[j] == x);
                            lemma_index_of_at(nk, j);
                        } else {
                            assert(nk[j + 1] == x);
                            lemma_index_of_at(nk, j + 1);
                        }
                    },
                    None => {
                        assert forall|j: int| 0 <= j < nk.len() implies nk[j] != x by {
                            if j < pos {
                                assert(ok[j] != x);
                            } else if j > pos {
                                assert(ok[j - 1] != x);
                            }
                        }
                        lemma_index_of_absent(nk, x);
                    },
                }
            }
        }
    }
}

/// Removes byte `b`, which the sorted table holds, and hands back its child.
pub fn sorted_remove<V>(keys: &mut Vec<u8>, ptr: &mut Vec<Option<NodePtr<V>>>, b: u8) -> (r: Option<
    NodePtr<V>,
>)
    requires
        old(keys)@.len() == old(ptr)@.len(),
        strictly_increasing(old(keys)@),
        index_of(old(keys)@, b) is Some,
    ensures
        final(keys)@.len() + 1 == old(keys)@.len(),
        final(ptr)@.len() == final(keys)@.len(),
        strictly_increasing(final(keys)@),
        r == sorted_child(old(keys)@, old(ptr)@, b),
        all_some(old(ptr)@) ==> all_some(final(ptr)@),
        forall|x: u8|
            #[trigger] sorted_child(final(keys)@, final(ptr)@, x) == if x == b {
                None
            } else {
                sorted_child(old(keys)@, old(ptr)@, x)
            },
{
    let pos = match sorted_find(keys, b) {
        Ok(i) => i,
        Err(i) => i,
    };
    let ghost ok = old(keys)@;
    let ghost op = old(ptr)@;
    keys.remove(pos);
    let r = ptr.remove(pos);
    proof {
        let nk = keys@;
        let np = ptr@;
        assert(nk == ok.remove(pos as int));
        assert forall|i: int, j: int| 0 <= i < j < nk.len() implies nk[i] < nk[j] by {
            if j < pos {
            } else if i < pos {
                assert(ok[i] < ok[j + 1]);
            } else {
                assert(ok[i + 1] < ok[j + 1]);
            }
        }
        assert forall|i: int| 0 <= i < np.len() && all_some(op) implies (#[trigger] np[i]).is_some() by {
            if i < pos {
                assert(np[i] == op[i]);
            } else {
                assert(np[i] == op[i + 1]);
            }
        }
        assert forall|x: u8|
            #[trigger] sorted_child(nk, np, x) == if x == b {
                None
            } else {
                sorted_child(ok, op, x)
            } by {
            lemma_index_of_bound(ok, x);
            if x == b {
                assert forall|j: int| 0 <= j < nk.len() implies nk[j] != x by {
                    if j < pos {
                        assert(ok[j] < ok[pos as int]);
                    } else {
                        assert(ok[pos as int] < ok[j + 1]);
                    }
                }
                lemma_index_of_absent(nk, x);
            } else {
                match index_of(ok, x) {
                    Some(j) => {
                        if j < pos {
                            assert(nk[j] == x);
                            lemma_index_of_at(nk, j);
                        } else {
                            assert(nk[j - 1] == x);
                            lemma_index_of_at(nk, j - 1);
                        }
                    },
                    None => {
                        assert forall|j: int| 0 <= j < nk.len() implies nk[j] != x by {
                            if j < pos {
                                assert(ok[j] != x);
                            } else {
                                assert(ok[j + 1] != x);
                            }
                        }
                        lemma_index_of_absent(nk, x);
                    },
                }
            }
        }
    }
    r
}

} // verus!
