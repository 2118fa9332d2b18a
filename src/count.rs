//! Counting the occupied entries of a table.
use crate::nodes::count_true;
use vstd::prelude::*;

verus! {

pub proof fn lemma_count_update(s: Seq<bool>, i: int, v: bool)
    requires
        0 <= i < s.len(),
    ensures
        count_true(s.update(i, v)) + (if s[i] {
            1int
        } else {
            0int
        }) == count_true(s) + (if v {
            1int
        } else {
            0int
        }),
    decreases s.len(),
{
    let t = s.update(i, v);
    if i == s.len() - 1 {
        assert(t.drop_last() =~= s.drop_last());
    } else {
        assert(t.drop_last() =~= s.drop_last().update(i, v));
        lemma_count_update(s.drop_last(), i, v);
    }
}

pub proof fn lemma_count_le(s: Seq<bool>)
    ensures
        count_true(s) <= s.len(),
    decreases s.len(),
{
    if s.len() > 0 {
        lemma_count_le(s.drop_last());
    }
}

pub proof fn lemma_count_take_step(s: Seq<bool>, n: int)
    requires
        0 <= n < s.len(),
    ensures
        count_true(s.take(n + 1)) == count_true(s.take(n)) + (if s[n] {
            1nat
        } else {
            0nat
        }),
{
    assert(s.take(n + 1).drop_last() =~= s.take(n));
}

pub proof fn lemma_count_take_le(s: Seq<bool>, n: int)
    requires
        0 <= n <= s.len(),
    ensures
        count_true(s.take(n)) <= count_true(s),
    decreases s.len() - n,
{
    if n < s.len() {
        lemma_count_take_step(s, n);
        lemma_count_take_le(s, n + 1);
    } else {
        assert(s.take(n) =~= s);
    }
}

pub proof fn lemma_count_none(s: Seq<bool>)
    requires
        forall|i: int| 0 <= i < s.len() ==> !s[i],
    ensures
        count_true(s) == 0,
    decreases s.len(),
{
    if s.len() > 0 {
        lemma_count_none(s.drop_last());
    }
}

/// A table with `n` occupied entries holds one at some position at or past `from`
/// when fewer than `n` lie before it.
pub proof fn lemma_count_some_after(s: Seq<bool>, from: int)
    requires
        0 <= from <= s.len(),
        count_true(s.take(from)) < count_true(s),
    ensures
        exists|i: int| from <= i < s.len() && s[i],
    decreases s.len() - from,
{
    if from == s.len() {
        assert(s.take(from) =~= s);
    } else {
        lemma_count_take_step(s, from);
        if !s[from] {
            lemma_count_some_after(s, from + 1);
        }
    }
}

} // verus!
