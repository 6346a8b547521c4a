//! No job is lost from the member lists, and none stands on them twice.
use vstd::prelude::*;

use crate::hunt_laws::index_sets;
use crate::listing::{ascending, lemma_ascending, lemma_ascending_unique, upto};
use crate::partition::splits;
use crate::roster::{of_kind, roll_call, strung, strung_all};
use crate::shape::Shape;
use crate::team::alike;

verus! {

/// One more job joins those of its kind.
pub proof fn lemma_of_kind_push(
    items: Map<usize, Shape>,
    tokens: Seq<usize>,
    token: usize,
    kind: Set<usize>,
)
    ensures
        of_kind(items, tokens.push(token), kind) == if items[token].checks == kind {
            of_kind(items, tokens, kind).push(token)
        } else {
            of_kind(items, tokens, kind)
        },
{
    reveal(Seq::filter);
    assert(tokens.push(token).drop_last() =~= tokens);
}

/// The list holds all jobs of the kind.
pub proof fn lemma_of_kind(items: Map<usize, Shape>, tokens: Seq<usize>, kind: Set<usize>)
    ensures
        of_kind(items, tokens, kind).to_set() == alike(items, tokens.to_set(), kind),
    decreases tokens.len(),
{
    if tokens.len() == 0 {
        reveal(Seq::filter);
        assert(of_kind(items, tokens, kind).to_set() =~= alike(items, tokens.to_set(), kind));
    } else {
        let init = tokens.drop_last();
        let last = tokens.last();
        assert(tokens =~= init.push(last));
        lemma_of_kind(items, init, kind);
        lemma_of_kind_push(items, init, last, kind);
        init.lemma_push_to_set_commute(last);
        of_kind(items, init, kind).lemma_push_to_set_commute(last);
        assert(of_kind(items, tokens, kind).to_set() =~= alike(items, tokens.to_set(), kind));
    }
}

/// A position beyond all others comes last.
pub proof fn lemma_strung_next(lists: Seq<Seq<usize>>, part: Set<usize>, next: usize)
    requires
        part.finite(),
        forall|x: usize| #[trigger] part.contains(x) ==> x < next,
    ensures
        strung(lists, ascending(part.insert(next))) == strung(lists, ascending(part))
            + lists[next as int],
{
    let old_order = ascending(part);
    let order = old_order.push(next);
    lemma_ascending(part);
    old_order.lemma_push_to_set_commute(next);
    assert forall|i: int, j: int| 0 <= i < j < order.len() implies #[trigger] order[i]
        < #[trigger] order[j] by {
        if j == old_order.len() {
            assert(old_order.to_set().contains(old_order[i]));
        }
    }
    lemma_ascending_unique(order, part.insert(next));
    assert(order.drop_last() =~= old_order);
}

// Stringing lists together.

pub proof fn lemma_strung_add(lists: Seq<Seq<usize>>, a: Seq<usize>, b: Seq<usize>)
    ensures
        strung(lists, a + b) == strung(lists, a) + strung(lists, b),
    decreases b.len(),
{
    if b.len() == 0 {
        assert(a + b =~= a);
        assert(strung(lists, a) + strung(lists, b) =~= strung(lists, a));
    } else {
        assert((a + b).drop_last() =~= a + b.drop_last());
        lemma_strung_add(lists, a, b.drop_last());
        assert(strung(lists, a) + strung(lists, b.drop_last()) + lists[b.last() as int]
            =~= strung(lists, a) + (strung(lists, b.drop_last()) + lists[b.last() as int]));
    }
}

/// In which order lists are strung together changes the order of their members alone.
pub proof fn lemma_strung_same(lists: Seq<Seq<usize>>, a: Seq<usize>, b: Seq<usize>)
    requires
        a.no_duplicates(),
        b.no_duplicates(),
        a.to_set() == b.to_set(),
    ensures
        strung(lists, a).to_multiset() == strung(lists, b).to_multiset(),
    decreases a.len(),
{
    a.unique_seq_to_set();
    b.unique_seq_to_set();
    if a.len() == 0 {
        assert(a =~= b);
    } else {
        let x = a.last();
        assert(b.to_set().contains(x));
        let p = choose|p: int| 0 <= p < b.len() && b[p] == x;
        let front = b.take(p);
        let back = b.skip(p + 1);
        let rest = front + back;
        let init = a.drop_last();
        assert(b =~= front + seq![x] + back);
        assert forall|t: usize| #[trigger] init.to_set().contains(t) <==> rest.to_set().contains(
            t,
        ) by {
            if init.to_set().contains(t) {
                let i = choose|i: int| 0 <= i < init.len() && init[i] == t;
                assert(a[i] == t && a[a.len() - 1] == x);
                assert(a.to_set().contains(t));
                assert(b.to_set().contains(t));
                let j = choose|j: int| 0 <= j < b.len() && b[j] == t;
                if j < p {
                    assert(rest[j] == t);
                } else {
                    assert(rest[j - 1] == t);
                }
            }
            if rest.to_set().contains(t) {
                let j = choose|j: int| 0 <= j < rest.len() && rest[j] == t;
                let k = if j < p {
                    j
                } else {
                    j + 1
                };
                assert(b[k] == t);
                assert(b.to_set().contains(t));
                assert(a.to_set().contains(t));
                let i = choose|i: int| 0 <= i < a.len() && a[i] == t;
                assert(init[i] == t);
            }
        }
        assert(init.to_set() =~= rest.to_set());
        lemma_strung_same(lists, init, rest);
        lemma_strung_add(lists, front, back);
        lemma_strung_add(lists, front + seq![x], back);
        lemma_strung_add(lists, front, seq![x]);
        assert(seq![x].drop_last() =~= Seq::<usize>::empty());
        let more = lists[x as int];
        assert(strung(lists, Seq::<usize>::empty()) + more =~= more);
        let f = strung(lists, front);
        let g = strung(lists, back);
        vstd::seq_lib::lemma_multiset_commutative(strung(lists, init), more);
        vstd::seq_lib::lemma_multiset_commutative(f + more, g);
        vstd::seq_lib::lemma_multiset_commutative(f, more);
        vstd::seq_lib::lemma_multiset_commutative(f, g);
        assert(strung(lists, a).to_multiset() =~= strung(lists, b).to_multiset());
    }
}

/// Calling the roll of strung lists.
pub proof fn lemma_roll_strung(lists: Seq<Seq<usize>>, which: Seq<Seq<usize>>)
    ensures
        roll_call(strung_all(lists, which)) == strung(lists, roll_call(which)),
    decreases which.len(),
{
    if which.len() > 0 {
        let init = which.drop_last();
        lemma_roll_strung(lists, init);
        assert(strung_all(lists, which).drop_last() =~= strung_all(lists, init));
        lemma_strung_add(lists, roll_call(init), which.last());
    }
}

/// All positions in turn.
pub open spec fn count_up(n: nat) -> Seq<usize> {
    Seq::new(n, |i: int| i as usize)
}

pub proof fn lemma_count_up(n: nat)
    requires
        n <= usize::MAX,
    ensures
        count_up(n).no_duplicates(),
        count_up(n).to_set() == upto(n),
{
    assert forall|x: usize| #[trigger] count_up(n).to_set().contains(x) <==> upto(n).contains(x) by {
        if upto(n).contains(x) {
            assert(count_up(n)[x as int] == x);
        }
    }
    assert(count_up(n).to_set() =~= upto(n));
}

/// The roll is all lists strung together.
pub proof fn lemma_roll_all(lists: Seq<Seq<usize>>)
    requires
        lists.len() <= usize::MAX,
    ensures
        roll_call(lists) == strung(lists, count_up(lists.len())),
{
    lemma_roll_upto(lists, lists.len());
    assert(lists.take(lists.len() as int) =~= lists);
}

proof fn lemma_roll_upto(lists: Seq<Seq<usize>>, n: nat)
    requires
        n <= lists.len() <= usize::MAX,
    ensures
        roll_call(lists.take(n as int)) == strung(lists, count_up(n)),
    decreases n,
{
    if n > 0 {
        lemma_roll_upto(lists, (n - 1) as nat);
        assert(lists.take(n as int).drop_last() =~= lists.take(n - 1));
        assert(count_up(n).drop_last() =~= count_up((n - 1) as nat));
    }
}

/// Lists of different jobs, each once, make a roll with each job once.
pub proof fn lemma_roll_once(lists: Seq<Seq<usize>>, whole: Set<usize>)
    requires
        splits(index_sets(lists), whole),
        forall|i: int| 0 <= i < lists.len() ==> (#[trigger] lists[i]).no_duplicates(),
    ensures
        roll_call(lists).no_duplicates(),
        roll_call(lists).to_set() == whole,
{
    let sets = index_sets(lists);
    assert forall|i: int, j: int, t: usize|
        0 <= i < lists.len() && 0 <= j < lists.len() && #[trigger] lists[i].contains(t)
            && #[trigger] lists[j].contains(t) implies i == j by {
        assert(sets[i].contains(t) && sets[j].contains(t));
    }
    lemma_roll_apart(lists);
    assert forall|t: usize| #[trigger] roll_call(lists).to_set().contains(t) <==> whole.contains(
        t,
    ) by {
        if roll_call(lists).to_set().contains(t) {
            assert(roll_call(lists).contains(t));
            let i = choose|i: int| 0 <= i < lists.len() && #[trigger] lists[i].contains(t);
            assert(sets[i].contains(t));
        }
        if whole.contains(t) {
            let i = choose|i: int| 0 <= i < sets.len() && #[trigger] sets[i].contains(t);
            assert(lists[i].contains(t));
        }
    }
    assert(roll_call(lists).to_set() =~= whole);
}

proof fn lemma_roll_apart(lists: Seq<Seq<usize>>)
    requires
        forall|i: int| 0 <= i < lists.len() ==> (#[trigger] lists[i]).no_duplicates(),
        forall|i: int, j: int, t: usize|
            0 <= i < lists.len() && 0 <= j < lists.len() && #[trigger] lists[i].contains(t)
                && #[trigger] lists[j].contains(t) ==> i == j,
    ensures
        roll_call(lists).no_duplicates(),
        forall|t: usize| #[trigger]
            roll_call(lists).contains(t) <==> exists|i: int|
                0 <= i < lists.len() && #[trigger] lists[i].contains(t),
    decreases lists.len(),
{
    if lists.len() > 0 {
        let init = lists.drop_last();
        let last = lists.last();
        let n = init.len() as int;
        assert forall|i: int, j: int, t: usize|
            0 <= i < init.len() && 0 <= j < init.len() && #[trigger] init[i].contains(t)
                && #[trigger] init[j].contains(t) implies i == j by {
            assert(lists[i].contains(t) && lists[j].contains(t));
        }
        assert forall|i: int| 0 <= i < init.len() implies (#[trigger] init[i]).no_duplicates() by {
            assert(lists[i].no_duplicates());
        }
        lemma_roll_apart(init);
        let a = roll_call(init);
        let all = roll_call(lists);
        assert(lists[n].no_duplicates());
        assert forall|i: int, j: int| 0 <= i < all.len() && 0 <= j < all.len() && i != j implies all[i]
            != all[j] by {
            if i < a.len() && j >= a.len() {
                assert(a.contains(a[i]));
                lemma_roll_not(lists, a[i], j - a.len());
            } else if j < a.len() && i >= a.len() {
                assert(a.contains(a[j]));
                lemma_roll_not(lists, a[j], i - a.len());
            } else if i >= a.len() {
                assert(last[i - a.len()] != last[j - a.len()]);
            }
        }
        assert forall|t: usize| #[trigger] all.contains(t) <==> exists|i: int|
            0 <= i < lists.len() && #[trigger] lists[i].contains(t) by {
            if all.contains(t) {
                let k = choose|k: int| 0 <= k < all.len() && all[k] == t;
                if k < a.len() {
                    assert(a.contains(t));
                    let i = choose|i: int| 0 <= i < init.len() && #[trigger] init[i].contains(t);
                    assert(lists[i].contains(t));
                } else {
                    assert(last[k - a.len()] == t);
                    assert(lists[n].contains(t));
                }
            }
            if exists|i: int| 0 <= i < lists.len() && #[trigger] lists[i].contains(t) {
                let i = choose|i: int| 0 <= i < lists.len() && #[trigger] lists[i].contains(t);
                if i < n {
                    assert(init[i].contains(t));
                    assert(a.contains(t));
                    let k = choose|k: int| 0 <= k < a.len() && a[k] == t;
                    assert(all[k] == t);
                } else {
                    let k = choose|k: int| 0 <= k < last.len() && last[k] == t;
                    assert(all[a.len() + k] == t);
                }
            }
        }
    }
}

/// Who stands on an earlier list does not stand on the last.
proof fn lemma_roll_not(lists: Seq<Seq<usize>>, t: usize, k: int)
    requires
        lists.len() > 0,
        0 <= k < lists.last().len(),
        exists|i: int|
            0 <= i < lists.drop_last().len() && #[trigger] lists.drop_last()[i].contains(t),
        forall|i: int, j: int, t: usize|
            0 <= i < lists.len() && 0 <= j < lists.len() && #[trigger] lists[i].contains(t)
                && #[trigger] lists[j].contains(t) ==> i == j,
    ensures
        lists.last()[k] != t,
{
    let i = choose|i: int|
        0 <= i < lists.drop_last().len() && #[trigger] lists.drop_last()[i].contains(t);
    assert(lists[i].contains(t));
    if lists.last()[k] == t {
        assert(lists[lists.len() - 1].contains(t));
    }
}

/// Whoever is on the roll before, is on it afterwards, as often.
pub proof fn lemma_partition_roll(lists: Seq<Seq<usize>>, which: Seq<Seq<usize>>)
    requires
        lists.len() <= usize::MAX,
        splits(index_sets(which), upto(lists.len())),
        forall|i: int| 0 <= i < which.len() ==> (#[trigger] which[i]).no_duplicates(),
    ensures
        roll_call(strung_all(lists, which)).to_multiset() == roll_call(lists).to_multiset(),
{
    lemma_roll_strung(lists, which);
    lemma_roll_once(which, upto(lists.len()));
    lemma_roll_all(lists);
    lemma_count_up(lists.len());
    lemma_strung_same(lists, roll_call(which), count_up(lists.len()));
}

/// A rearranged roll has each job once if the roll had.
pub proof fn lemma_still_once(a: Seq<usize>, b: Seq<usize>)
    requires
        a.to_multiset() == b.to_multiset(),
    ensures
        a.no_duplicates() ==> b.no_duplicates(),
        a.to_set() == b.to_set(),
{
    broadcast use vstd::seq_lib::group_to_multiset_ensures;

    if a.no_duplicates() {
        a.lemma_multiset_has_no_duplicates();
        b.lemma_multiset_has_no_duplicates_conv();
    }
    assert forall|t: usize| #[trigger] a.to_set().contains(t) <==> b.to_set().contains(t) by {
        assert(a.contains(t) <==> a.to_multiset().count(t) > 0);
        assert(b.contains(t) <==> b.to_multiset().count(t) > 0);
    }
    assert(a.to_set() =~= b.to_set());
}

} // verus!
