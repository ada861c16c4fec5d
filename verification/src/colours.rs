//! The colours of one row of cells: counting them, and painting one colour
//! over another.

use vstd::prelude::*;
use std::collections::HashMap;

verus! {

/// How often `v` occurs in `s`.
pub open spec fn occurrences(s: Seq<usize>, v: usize) -> nat
    decreases s.len(),
{
    if s.len() == 0 {
        0
    } else {
        occurrences(s.drop_last(), v) + if s.last() == v {
            1nat
        } else {
            0nat
        }
    }
}

/// `s` with every `from` replaced by `to`.
pub open spec fn recoloured(s: Seq<usize>, from: usize, to: usize) -> Seq<usize> {
    Seq::new(
        s.len(),
        |k: int|
            if s[k] == from {
                to
            } else {
                s[k]
            },
    )
}

/// The count that `m` holds for `v`: zero where it holds none.
pub open spec fn count_of(m: Map<usize, usize>, v: usize) -> usize {
    if m.contains_key(v) {
        m[v]
    } else {
        0
    }
}

/// A value that stands nowhere occurs zero times.
pub proof fn lemma_occurrences_none(s: Seq<usize>, v: usize)
    requires
        forall|k: int| 0 <= k < s.len() ==> s[k] != v,
    ensures
        occurrences(s, v) == 0,
    decreases s.len(),
{
    if s.len() > 0 {
        lemma_occurrences_none(s.drop_last(), v);
    }
}

/// A value that stands everywhere occurs as often as the row is long.
pub proof fn lemma_occurrences_all(s: Seq<usize>, v: usize)
    requires
        forall|k: int| 0 <= k < s.len() ==> s[k] == v,
    ensures
        occurrences(s, v) == s.len(),
    decreases s.len(),
{
    if s.len() > 0 {
        lemma_occurrences_all(s.drop_last(), v);
    }
}

/// A value that stands somewhere occurs at least once.
pub proof fn lemma_occurrences_some(s: Seq<usize>, v: usize, k: int)
    requires
        0 <= k < s.len(),
        s[k] == v,
    ensures
        occurrences(s, v) > 0,
    decreases s.len(),
{
    if k < s.len() - 1 {
        lemma_occurrences_some(s.drop_last(), v, k);
    }
}

/// A value that occurs stands somewhere.
pub proof fn lemma_occurrences_witness(s: Seq<usize>, v: usize) -> (k: int)
    requires
        occurrences(s, v) > 0,
    ensures
        0 <= k < s.len(),
        s[k] == v,
    decreases s.len(),
{
    if s.last() == v {
        s.len() - 1
    } else {
        lemma_occurrences_witness(s.drop_last(), v)
    }
}

/// Overwriting one place takes one occurrence from the old value and gives
/// one to the new.
pub proof fn lemma_occurrences_update(s: Seq<usize>, k: int, x: usize, v: usize)
    requires
        0 <= k < s.len(),
    ensures
        occurrences(s.update(k, x), v) == occurrences(s, v) - (if s[k] == v {
            1int
        } else {
            0int
        }) + (if x == v {
            1int
        } else {
            0int
        }),
    decreases s.len(),
{
    let t = s.update(k, x);
    if k == s.len() - 1 {
        assert(t.drop_last() =~= s.drop_last());
    } else {
        assert(t.drop_last() =~= s.drop_last().update(k, x));
        lemma_occurrences_update(s.drop_last(), k, x, v);
    }
}

/// Two different values together occur no more often than the row is long.
pub proof fn lemma_occurrences_pair(s: Seq<usize>, a: usize, b: usize)
    requires
        a != b,
    ensures
        occurrences(s, a) + occurrences(s, b) <= s.len(),
    decreases s.len(),
{
    if s.len() > 0 {
        lemma_occurrences_pair(s.drop_last(), a, b);
    }
}

/// After painting `to` over `from`, `from` is gone, `to` has the
/// occurrences of both, and every other value has its own.
pub proof fn lemma_occurrences_recoloured(s: Seq<usize>, from: usize, to: usize, v: usize)
    requires
        from != to,
    ensures
        occurrences(recoloured(s, from, to), v) == if v == from {
            0
        } else if v == to {
            occurrences(s, to) + occurrences(s, from)
        } else {
            occurrences(s, v)
        },
    decreases s.len(),
{
    if s.len() > 0 {
        assert(recoloured(s, from, to).drop_last() =~= recoloured(s.drop_last(), from, to));
        lemma_occurrences_recoloured(s.drop_last(), from, to, v);
    }
}

/// The count held for colour `v`.
pub fn count(counts: &HashMap<usize, usize>, v: usize) -> (n: usize)
    ensures
        n == count_of(counts@, v),
{
    match counts.get(&v) {
        Some(n) => *n,
        None => 0,
    }
}

/// Paints `to` over every `from` in the row.
pub fn recolour(row: &mut Vec<usize>, from: usize, to: usize)
    ensures
        final(row)@ == recoloured(old(row)@, from, to),
{
    let n: usize = row.len();
    for k in 0..n
        invariant
            row@.len() == n,
            n == old(row)@.len(),
            forall|m: int| 0 <= m < k ==> row@[m] == recoloured(old(row)@, from, to)[m],
            forall|m: int| k <= m < n ==> row@[m] == old(row)@[m],
    {
        if row[k] == from {
            row[k] = to;
        }
    }
    assert(row@ =~= recoloured(old(row)@, from, to));
}

} // verus!
