//! Subsets of at most 32 positions as bit masks.
use vstd::prelude::*;
use vstd::std_specs::bits::u32_trailing_zeros;

use crate::listing::upto;

verus! {

/// Position `i` is in the mask.
pub open spec fn bit(mask: u32, i: u32) -> bool {
    (mask >> i) & 1u32 == 1u32
}

/// The positions in a mask.
pub open spec fn mask_set(mask: u32) -> Set<usize> {
    Set::new(|i: usize| i < 32 && bit(mask, i as u32))
}

/// Every position of `part` is in `mask`.
pub open spec fn within(part: u32, mask: u32) -> bool {
    part & mask == part
}

/// The lowest position in a mask.
pub open spec fn anchor(mask: u32) -> u32 {
    u32_trailing_zeros(mask)
}

/// The mask of the members of `block` below `n`.
pub open spec fn mask_of(block: Set<usize>, n: nat) -> u32
    decreases n,
{
    if n == 0 {
        0
    } else if block.contains((n - 1) as usize) {
        mask_of(block, (n - 1) as nat) | (1u32 << ((n - 1) as u32))
    } else {
        mask_of(block, (n - 1) as nat)
    }
}

pub proof fn lemma_anchor(mask: u32)
    requires
        mask != 0,
    ensures
        anchor(mask) < 32,
        bit(mask, anchor(mask)),
{
    broadcast use vstd::std_specs::bits::axiom_u32_trailing_zeros;

}

pub proof fn lemma_mask_empty()
    ensures
        mask_set(0) == Set::<usize>::empty(),
{
    assert forall|i: usize| !mask_set(0).contains(i) by {
        let k = i as u32;
        assert((0u32 >> k) & 1u32 != 1u32) by (bit_vector);
    }
    assert(mask_set(0) =~= Set::<usize>::empty());
}

/// Masks with the same positions are equal.
pub proof fn lemma_mask_injective(a: u32, b: u32)
    requires
        mask_set(a) == mask_set(b),
    ensures
        a == b,
{
    if a != b {
        let d = a ^ b;
        assert(d != 0) by (bit_vector)
            requires
                a != b,
                d == a ^ b,
        ;
        lemma_anchor(d);
        let k = anchor(d);
        assert(((a >> k) & 1u32 == 1u32) != ((b >> k) & 1u32 == 1u32)) by (bit_vector)
            requires
                k < 32,
                d == a ^ b,
                (d >> k) & 1u32 == 1u32,
        ;
        let i = k as usize;
        assert(i as u32 == k);
        assert(bit(a, k) != bit(b, k));
        assert(mask_set(a).contains(i) == bit(a, k));
        assert(mask_set(b).contains(i) == bit(b, k));
    }
}

/// Removing part of a mask removes its positions.
pub proof fn lemma_mask_minus(mask: u32, part: u32)
    requires
        within(part, mask),
    ensures
        mask_set(mask ^ part) == mask_set(mask).difference(mask_set(part)),
        mask_set(part).subset_of(mask_set(mask)),
        part != 0 ==> (mask ^ part) < mask,
{
    assert(part != 0 ==> (mask ^ part) < mask) by (bit_vector)
        requires
            part & mask == part,
    ;
    assert forall|k: u32|
        #![trigger bit(mask ^ part, k)]
        #![trigger bit(part, k)]
        k < 32 implies (bit(mask ^ part, k) == (bit(mask, k) && !bit(part, k))) && (bit(part, k)
        ==> bit(mask, k)) by {
        assert((((mask ^ part) >> k) & 1u32 == 1u32) == (((mask >> k) & 1u32 == 1u32) && !((part
            >> k) & 1u32 == 1u32))) by (bit_vector)
            requires
                part & mask == part,
                k < 32,
        ;
        assert((part >> k) & 1u32 == 1u32 ==> (mask >> k) & 1u32 == 1u32) by (bit_vector)
            requires
                part & mask == part,
                k < 32,
        ;
    }
    assert(mask_set(mask ^ part) =~= mask_set(mask).difference(mask_set(part)));
    assert forall|i: usize| mask_set(part).contains(i) implies mask_set(mask).contains(i) by {}
}

/// The next smaller part of a mask: nothing between it and `part` is skipped.
pub proof fn lemma_mask_step(mask: u32, part: u32)
    requires
        within(part, mask),
        part != 0,
    ensures
        within((part - 1) as u32 & mask, mask),
        ((part - 1) as u32 & mask) < part,
        forall|other: u32|
            #![trigger within(other, mask)]
            within(other, mask) && other < part ==> other <= ((part - 1) as u32 & mask),
{
    let less = (part - 1) as u32;
    assert((less & mask) & mask == less & mask) by (bit_vector);
    assert((less & mask) <= less) by (bit_vector);
    assert forall|other: u32|
        #![trigger within(other, mask)]
        within(other, mask) && other < part implies other <= (less & mask) by {
        assert(other <= (less & mask)) by (bit_vector)
            requires
                other & mask == other,
                part & mask == part,
                part != 0,
                less + 1 == part,
                other < part,
        ;
    }
}

/// Dropping the lowest position.
pub proof fn lemma_mask_drop(mask: u32)
    requires
        mask != 0,
    ensures
        (mask & (mask - 1) as u32) < mask,
        mask_set(mask) == mask_set(mask & (mask - 1) as u32).insert(anchor(mask) as usize),
{
    broadcast use vstd::std_specs::bits::axiom_u32_trailing_zeros;

    let less = (mask - 1) as u32;
    let a = anchor(mask);
    let rest = mask & less;
    lemma_anchor(mask);
    assert(rest < mask) by (bit_vector)
        requires
            mask != 0,
            less + 1 == mask,
            rest == mask & less,
    ;
    let up = (32 - a) as u32;
    assert(mask << up == 0);
    assert forall|k: u32| k < 32 implies #[trigger] bit(mask, k) == (bit(rest, k) || k == a) by {
        assert(((mask >> k) & 1u32 == 1u32) == (((rest >> k) & 1u32 == 1u32) || k == a))
            by (bit_vector)
            requires
                mask != 0,
                less + 1 == mask,
                rest == mask & less,
                k < 32,
                a < 32,
                (mask >> a) & 1u32 == 1u32,
                up + a == 32,
                mask << up == 0u32,
        ;
    }
    assert(mask_set(mask) =~= mask_set(rest).insert(a as usize));
}

pub proof fn lemma_mask_of_bit(block: Set<usize>, n: nat, i: u32)
    requires
        n <= 32,
        i < 32,
    ensures
        bit(mask_of(block, n), i) <==> i < n && block.contains(i as usize),
    decreases n,
{
    if n == 0 {
        assert((0u32 >> i) & 1u32 != 1u32) by (bit_vector);
    } else {
        lemma_mask_of_bit(block, (n - 1) as nat, i);
        let m = mask_of(block, (n - 1) as nat);
        let k = (n - 1) as u32;
        assert((((m | (1u32 << k)) >> i) & 1u32 == 1u32) == ((m >> i) & 1u32 == 1u32 || i == k))
            by (bit_vector)
            requires
                k < 32,
                i < 32,
        ;
    }
}

/// Every block of small positions has a mask.
pub proof fn lemma_mask_of(block: Set<usize>, mask: u32)
    requires
        block.subset_of(mask_set(mask)),
    ensures
        mask_set(mask_of(block, 32)) == block,
        within(mask_of(block, 32), mask),
{
    let m = mask_of(block, 32);
    assert forall|i: usize| mask_set(m).contains(i) == block.contains(i) by {
        if i < 32 {
            lemma_mask_of_bit(block, 32, i as u32);
        }
        if block.contains(i) {
            assert(mask_set(mask).contains(i));
        }
    }
    assert(mask_set(m) =~= block);
    let both = m & mask;
    assert forall|i: usize| mask_set(both).contains(i) == mask_set(m).contains(i) by {
        if i < 32 {
            let k = i as u32;
            assert((((m & mask) >> k) & 1u32 == 1u32) == ((m >> k) & 1u32 == 1u32 && (mask >> k)
                & 1u32 == 1u32)) by (bit_vector)
                requires
                    k < 32,
            ;
            if mask_set(m).contains(i) {
                assert(mask_set(mask).contains(i));
            }
        }
    }
    assert(mask_set(both) =~= mask_set(m));
    lemma_mask_injective(both, m);
}

/// The mask of the first `n` positions.
pub proof fn lemma_mask_full(n: u32)
    requires
        n < 32,
    ensures
        (1u32 << n) > 0,
        mask_set(((1u32 << n) - 1) as u32) == upto(n as nat),
        n <= 12 ==> (1u32 << n) <= 4096,
{
    assert((1u32 << n) > 0 && (n <= 12 ==> (1u32 << n) <= 4096)) by (bit_vector)
        requires
            n < 32,
    ;
    let one = 1u32 << n;
    let full = ((1u32 << n) - 1) as u32;
    assert forall|k: u32| k < 32 implies #[trigger] bit(full, k) == (k < n) by {
        assert(((full >> k) & 1u32 == 1u32) == (k < n)) by (bit_vector)
            requires
                n < 32,
                k < 32,
                one == 1u32 << n,
                one > 0,
                full + 1 == one,
        ;
    }
    assert(mask_set(full) =~= upto(n as nat));
}

/// Masks below `2^n` hold positions below `n`.
pub proof fn lemma_mask_small(mask: u32, n: u32)
    requires
        n < 32,
        mask < (1u32 << n),
    ensures
        mask_set(mask).subset_of(upto(n as nat)),
        mask != 0 ==> anchor(mask) < n,
{
    assert forall|k: u32| k < 32 && #[trigger] bit(mask, k) implies k < n by {
        assert((mask >> k) & 1u32 == 1u32 ==> k < n) by (bit_vector)
            requires
                n < 32,
                k < 32,
                mask < (1u32 << n),
        ;
    }
    if mask != 0 {
        lemma_anchor(mask);
        assert(bit(mask, (anchor(mask) as usize) as u32));
    }
}

/// Only the empty mask has no position.
pub proof fn lemma_mask_inhabited(mask: u32)
    requires
        mask != 0,
    ensures
        crate::partition::inhabited(mask_set(mask)),
{
    lemma_anchor(mask);
    assert(mask_set(mask).contains(anchor(mask) as usize));
}

pub proof fn lemma_mask_finite(mask: u32)
    ensures
        mask_set(mask).finite(),
{
    crate::listing::lemma_upto(32);
    assert(mask_set(mask).subset_of(upto(32)));
    vstd::set_lib::lemma_set_subset_finite(upto(32), mask_set(mask));
}

} // verus!
