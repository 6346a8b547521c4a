//! Sets of small numbers compared as binary numerals.
use vstd::prelude::*;

use crate::listing::orders;

verus! {

/// `k` is the highest number on which the two sets differ, and `b` has it.
pub open spec fn tops(a: Set<usize>, b: Set<usize>, k: usize) -> bool {
    &&& !a.contains(k)
    &&& b.contains(k)
    &&& forall|j: usize| k < j ==> (#[trigger] a.contains(j) <==> b.contains(j))
}

/// The set `a`, read as the number with exactly those binary digits set, is below `b`.
pub open spec fn bits_lt(a: Set<usize>, b: Set<usize>) -> bool {
    exists|k: usize| #[trigger] tops(a, b, k)
}

pub proof fn lemma_bits_irreflexive(a: Set<usize>)
    ensures
        !bits_lt(a, a),
{
}

pub proof fn lemma_bits_asymmetric(a: Set<usize>, b: Set<usize>)
    requires
        bits_lt(a, b),
    ensures
        !bits_lt(b, a),
        a != b,
{
    let k = choose|k: usize| #[trigger] tops(a, b, k);
    if bits_lt(b, a) {
        let m = choose|m: usize| #[trigger] tops(b, a, m);
        assert(a.contains(k) || !a.contains(k));
        assert(a.contains(m) || !a.contains(m));
        assert(b.contains(k) || !b.contains(k));
        assert(b.contains(m) || !b.contains(m));
    }
}

pub proof fn lemma_bits_transitive(a: Set<usize>, b: Set<usize>, c: Set<usize>)
    requires
        bits_lt(a, b),
        bits_lt(b, c),
    ensures
        bits_lt(a, c),
{
    let k = choose|k: usize| #[trigger] tops(a, b, k);
    let m = choose|m: usize| #[trigger] tops(b, c, m);
    let top = if k < m {
        m
    } else {
        k
    };
    assert(b.contains(k) && b.contains(m) || b.contains(k) && !b.contains(m));
    assert forall|j: usize| top < j implies (#[trigger] a.contains(j) <==> c.contains(j)) by {
        assert(b.contains(j) || !b.contains(j));
    }
    assert(a.contains(top) || !a.contains(top));
    assert(tops(a, c, top));
}

/// Two finite sets that agree above `n` and differ are ordered.
proof fn lemma_bits_total_above(a: Set<usize>, b: Set<usize>, n: int)
    requires
        a != b,
        0 <= n <= usize::MAX + 1,
        forall|j: usize| n <= j ==> (#[trigger] a.contains(j) <==> b.contains(j)),
    ensures
        bits_lt(a, b) || bits_lt(b, a),
    decreases n,
{
    if n == 0 {
        assert(a =~= b);
    } else {
        let k = (n - 1) as usize;
        if a.contains(k) == b.contains(k) {
            lemma_bits_total_above(a, b, n - 1);
        } else if a.contains(k) {
            assert(tops(b, a, k));
        } else {
            assert(tops(a, b, k));
        }
    }
}

pub proof fn lemma_bits_total(a: Set<usize>, b: Set<usize>)
    requires
        a != b,
    ensures
        bits_lt(a, b) || bits_lt(b, a),
{
    lemma_bits_total_above(a, b, usize::MAX + 1);
}

/// Comparing as numerals orders every collection of sets.
pub proof fn lemma_bits_orders(s: Set<Set<usize>>)
    ensures
        orders(|a: Set<usize>, b: Set<usize>| bits_lt(a, b), s),
{
    let lt = |a: Set<usize>, b: Set<usize>| bits_lt(a, b);
    assert forall|x: Set<usize>, y: Set<usize>|
        s.contains(x) && s.contains(y) && x != y implies #[trigger] lt(x, y) || lt(y, x) by {
        lemma_bits_total(x, y);
    }
    assert forall|x: Set<usize>, y: Set<usize>, z: Set<usize>|
        s.contains(x) && s.contains(y) && s.contains(z) && #[trigger] lt(x, y) && #[trigger] lt(
            y,
            z,
        ) implies lt(x, z) by {
        lemma_bits_transitive(x, y, z);
    }
}

} // verus!
