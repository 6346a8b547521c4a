//! The states that a search has been in.
use std::collections::BTreeMap;

use vstd::multiset::Multiset;
use vstd::prelude::*;
use vstd::relations::{sorted_by, total_ordering};

use crate::arrange::arrange;
use crate::bits::{
    bits_lt, lemma_bits_asymmetric, lemma_bits_irreflexive, lemma_bits_total, lemma_bits_transitive,
};
use crate::checks::{lemma_increasing_same, Checks};
use crate::hunt::{load, slot_shapes, Slot};
use crate::listing::{orders, upto};
use crate::shape::Shape;

verus! {

/// A machine under construction.
#[derive(Debug)]
pub struct Bin {
    pub checks: Checks,
    pub deadline: u64,
    pub patterns: Vec<usize>,
}

impl View for Bin {
    type V = Slot;

    open spec fn view(&self) -> Slot {
        Slot {
            shape: Shape { checks: self.checks@, deadline: self.deadline },
            patterns: self.patterns@,
        }
    }
}

impl Clone for Bin {
    fn clone(&self) -> (copy: Self)
        ensures
            copy.checks.0@ == self.checks.0@,
            copy@ == self@,
    {
        Bin {
            checks: self.checks.clone(),
            deadline: self.deadline,
            patterns: self.patterns.clone(),
        }
    }
}

pub open spec fn slots(bins: Seq<Bin>) -> Seq<Slot> {
    bins.map_values(|bin: Bin| bin@)
}

/// What one machine asks for.
#[derive(Debug)]
pub struct Mark {
    checks: Checks,
    deadline: u64,
}

impl View for Mark {
    type V = Shape;

    closed spec fn view(&self) -> Shape {
        Shape { checks: self.checks@, deadline: self.deadline }
    }
}

spec fn demands(marks: Seq<Mark>) -> Seq<Shape> {
    marks.map_values(|mark: Mark| mark@)
}

/// Numeral order of the checks, then the deadline.
spec fn upto_mark(a: Shape, b: Shape) -> bool {
    bits_lt(a.checks, b.checks) || a.checks == b.checks && a.deadline <= b.deadline
}

proof fn lemma_mark_ordering()
    ensures
        total_ordering(|a: Shape, b: Shape| upto_mark(a, b)),
{
    let leq = |a: Shape, b: Shape| upto_mark(a, b);
    assert forall|x: Shape, y: Shape| #[trigger] leq(x, y) && #[trigger] leq(y, x) implies x
        == y by {
        if bits_lt(x.checks, y.checks) {
            lemma_bits_asymmetric(x.checks, y.checks);
            lemma_bits_irreflexive(x.checks);
        } else if bits_lt(y.checks, x.checks) {
            lemma_bits_irreflexive(x.checks);
        }
    }
    assert forall|x: Shape, y: Shape, z: Shape| #[trigger]
        leq(x, y) && #[trigger] leq(y, z) implies leq(x, z) by {
        if bits_lt(x.checks, y.checks) && bits_lt(y.checks, z.checks) {
            lemma_bits_transitive(x.checks, y.checks, z.checks);
        }
    }
    assert forall|x: Shape, y: Shape| #[trigger] leq(x, y) || #[trigger] leq(y, x) by {
        if x.checks != y.checks {
            lemma_bits_total(x.checks, y.checks);
        }
    }
}

// Fingerprints. They only narrow down where to look: equal states have equal
// fingerprints, and states with equal fingerprints are compared in full.

spec fn mixed(seed: u64, x: u64) -> u64 {
    (seed ^ x).wrapping_mul(0x0000_0100_0000_01b3)
}

spec fn mixed_checks(seed: u64, checks: Seq<usize>) -> u64
    decreases checks.len(),
{
    if checks.len() == 0 {
        seed
    } else {
        mixed(mixed_checks(seed, checks.drop_last()), checks.last() as u64)
    }
}

spec fn mixed_marks(marks: Seq<Mark>) -> u64
    decreases marks.len(),
{
    if marks.len() == 0 {
        0xcbf2_9ce4_8422_2325
    } else {
        mixed(
            mixed_checks(mixed_marks(marks.drop_last()), marks.last().checks.0@),
            marks.last().deadline,
        )
    }
}

fn mix(seed: u64, x: u64) -> (next: u64)
    ensures
        next == mixed(seed, x),
{
    (seed ^ x).wrapping_mul(0x0000_0100_0000_01b3)
}

fn fingerprint(marks: &Vec<Mark>) -> (print: u64)
    ensures
        print == mixed_marks(marks@),
{
    let mut print: u64 = 0xcbf2_9ce4_8422_2325;
    let mut i: usize = 0;
    while i < marks.len()
        invariant
            i <= marks.len(),
            print == mixed_marks(marks@.take(i as int)),
        decreases marks.len() - i,
    {
        let mark: &Mark = &marks[i];
        let ghost seed = print;
        let mut k: usize = 0;
        assert(mark.checks.0@.take(0) =~= Seq::<usize>::empty());
        while k < mark.checks.0.len()
            invariant
                k <= mark.checks.0.len(),
                print == mixed_checks(seed, mark.checks.0@.take(k as int)),
            decreases mark.checks.0.len() - k,
        {
            let check: usize = mark.checks.0[k];
            assert(mark.checks.0@.take(k + 1).drop_last() =~= mark.checks.0@.take(k as int));
            print = mix(print, check as u64);
            k = k + 1;
        }
        assert(mark.checks.0@.take(k as int) =~= mark.checks.0@);
        assert(marks@.take(i + 1).drop_last() =~= marks@.take(i as int));
        print = mix(print, mark.deadline);
        i = i + 1;
    }
    assert(marks@.take(i as int) =~= marks@);
    print
}

spec fn marks_wf(marks: Seq<Mark>) -> bool {
    forall|i: int| 0 <= i < marks.len() ==> (#[trigger] marks[i]).checks.wf()
}

/// Equal demands have equal fingerprints.
proof fn lemma_same_print(a: Seq<Mark>, b: Seq<Mark>)
    requires
        marks_wf(a),
        marks_wf(b),
        demands(a) == demands(b),
    ensures
        mixed_marks(a) == mixed_marks(b),
    decreases a.len(),
{
    assert(demands(a).len() == a.len());
    assert(demands(b).len() == b.len());
    if a.len() > 0 {
        let n = a.len() - 1;
        assert(demands(a)[n] == a.last()@);
        assert(demands(b)[n] == b.last()@);
        assert(a[n].checks.wf() && b[n].checks.wf());
        lemma_increasing_same(a.last().checks.0@, b.last().checks.0@);
        assert(demands(a.drop_last()) =~= demands(a).drop_last());
        assert(demands(b.drop_last()) =~= demands(b).drop_last());
        lemma_same_print(a.drop_last(), b.drop_last());
    }
}

fn same_marks(a: &Vec<Mark>, b: &Vec<Mark>) -> (same: bool)
    requires
        marks_wf(a@),
        marks_wf(b@),
    ensures
        same == (demands(a@) == demands(b@)),
{
    if a.len() != b.len() {
        assert(demands(a@).len() != demands(b@).len());
        return false;
    }
    let mut i: usize = 0;
    while i < a.len()
        invariant
            marks_wf(a@),
            marks_wf(b@),
            a.len() == b.len(),
            i <= a.len(),
            forall|k: int| 0 <= k < i ==> (#[trigger] a@[k])@ == b@[k]@,
        decreases a.len() - i,
    {
        if a[i].deadline != b[i].deadline || !a[i].checks.same(&b[i].checks) {
            assert(demands(a@)[i as int] != demands(b@)[i as int]);
            return false;
        }
        i = i + 1;
    }
    assert(demands(a@) =~= demands(b@));
    true
}

/// What the machines ask for, in a fixed order.
fn canonical(bins: &Vec<Bin>) -> (marks: Vec<Mark>)
    requires
        forall|i: int| 0 <= i < bins.len() ==> (#[trigger] bins@[i]).checks.wf(),
    ensures
        marks_wf(marks@),
        sorted_by(demands(marks@), |a: Shape, b: Shape| upto_mark(a, b)),
        demands(marks@).to_multiset() == load(slots(bins@)),
{
    let n: usize = bins.len();
    let ghost s = slot_shapes(slots(bins@));
    let ghost lt = |a: usize, b: usize| before_mark(s, a, b);
    let less = |a: usize, b: usize| -> (less: bool)
        requires
            a < n,
            b < n,
            n == bins.len(),
            forall|i: int| 0 <= i < bins.len() ==> (#[trigger] bins@[i]).checks.wf(),
        ensures
            less == before_mark(slot_shapes(slots(bins@)), a, b),
        {
            let ghost s = slot_shapes(slots(bins@));
            assert(s[a as int] == bins@[a as int]@.shape);
            assert(s[b as int] == bins@[b as int]@.shape);
            if bins[a].checks.precedes(&bins[b].checks) {
                true
            } else if bins[a].checks.same(&bins[b].checks) {
                bins[a].deadline < bins[b].deadline || bins[a].deadline == bins[b].deadline && a
                    < b
            } else {
                false
            }
        };
    proof {
        lemma_before_mark_orders(s, upto(n as nat));
    }
    let order: Vec<usize> = arrange(n, less, Ghost(lt));
    let mut marks: Vec<Mark> = Vec::new();
    let mut i: usize = 0;
    while i < n
        invariant
            n == bins.len(),
            n == order.len(),
            forall|i: int| 0 <= i < bins.len() ==> (#[trigger] bins@[i]).checks.wf(),
            order@.to_set() == upto(n as nat),
            s == slot_shapes(slots(bins@)),
            i <= n,
            marks.len() == i,
            marks_wf(marks@),
            forall|k: int| 0 <= k < i ==> (#[trigger] marks@[k])@ == s[order@[k] as int],
        decreases n - i,
    {
        assert(order@.to_set().contains(order@[i as int]));
        let bin: &Bin = &bins[order[i]];
        assert(s[order@[i as int] as int] == bin@.shape);
        marks.push(Mark { checks: bin.checks.clone(), deadline: bin.deadline });
        i = i + 1;
    }
    proof {
        let q = demands(marks@);
        assert forall|k: int| 0 <= k < q.len() implies #[trigger] q[k] == s[order@[k] as int] by {
            assert(q[k] == marks@[k]@);
        }
        let leq = |a: Shape, b: Shape| upto_mark(a, b);
        assert forall|i: int, j: int| 0 <= i < j < q.len() implies #[trigger] leq(q[i], q[j]) by {
            assert(lt(order@[i], order@[j]));
        }
        lemma_reordered(s, q, order@);
    }
    marks
}

/// The order of `canonical`, with ties in order of position.
spec fn before_mark(s: Seq<Shape>, a: usize, b: usize) -> bool {
    let x = s[a as int];
    let y = s[b as int];
    ||| bits_lt(x.checks, y.checks)
    ||| x.checks == y.checks && x.deadline < y.deadline
    ||| x.checks == y.checks && x.deadline == y.deadline && a < b
}

proof fn lemma_before_mark_orders(s: Seq<Shape>, whole: Set<usize>)
    ensures
        orders(|a: usize, b: usize| before_mark(s, a, b), whole),
{
    let lt = |a: usize, b: usize| before_mark(s, a, b);
    assert forall|x: usize| whole.contains(x) implies !#[trigger] lt(x, x) by {
        lemma_bits_irreflexive(s[x as int].checks);
    }
    assert forall|x: usize, y: usize|
        whole.contains(x) && whole.contains(y) && x != y implies #[trigger] lt(x, y) || lt(
        y,
        x,
    ) by {
        if s[x as int].checks != s[y as int].checks {
            lemma_bits_total(s[x as int].checks, s[y as int].checks);
        }
    }
    assert forall|x: usize, y: usize, z: usize|
        whole.contains(x) && whole.contains(y) && whole.contains(z) && #[trigger] lt(x, y)
            && #[trigger] lt(y, z) implies lt(x, z) by {
        if bits_lt(s[x as int].checks, s[y as int].checks) && bits_lt(
            s[y as int].checks,
            s[z as int].checks,
        ) {
            lemma_bits_transitive(s[x as int].checks, s[y as int].checks, s[z as int].checks);
        }
    }
}

/// Listing every position once keeps the multiset.
proof fn lemma_reordered(s: Seq<Shape>, q: Seq<Shape>, order: Seq<usize>)
    requires
        q.len() == s.len() == order.len(),
        s.len() <= usize::MAX,
        order.no_duplicates(),
        order.to_set() == upto(s.len()),
        forall|k: int| 0 <= k < q.len() ==> #[trigger] q[k] == s[order[k] as int],
    ensures
        q.to_multiset() == s.to_multiset(),
    decreases s.len(),
{
    broadcast use vstd::seq_lib::group_to_multiset_ensures;
    broadcast use vstd::multiset::group_multiset_axioms;

    if s.len() > 0 {
        let n = s.len() - 1;
        assert(upto(s.len()).contains(n as usize));
        assert(order.to_set().contains(n as usize));
        let p = choose|p: int| 0 <= p < order.len() && order[p] == n as usize;
        let rest = order.remove(p);
        let fewer = q.remove(p);
        let init = s.drop_last();
        assert forall|k: int| 0 <= k < fewer.len() implies #[trigger] fewer[k]
            == init[rest[k] as int] && rest[k] < n by {
            let m = if k < p {
                k
            } else {
                k + 1
            };
            assert(rest[k] == order[m]);
            assert(fewer[k] == q[m]);
            assert(order.to_set().contains(order[m]));
            assert(order[m] != order[p]);
        }
        assert(rest.no_duplicates()) by {
            assert forall|i: int, j: int| 0 <= i < rest.len() && 0 <= j < rest.len() && i != j
                implies rest[i] != rest[j] by {
                let a = if i < p {
                    i
                } else {
                    i + 1
                };
                let b = if j < p {
                    j
                } else {
                    j + 1
                };
                assert(order[a] != order[b]);
            }
        }
        assert forall|x: usize| upto(init.len()).contains(x) <==> rest.to_set().contains(x) by {
            if upto(init.len()).contains(x) {
                assert(order.to_set().contains(x));
                let k = choose|k: int| 0 <= k < order.len() && order[k] == x;
                if k < p {
                    assert(rest[k] == x);
                } else {
                    assert(rest[k - 1] == x);
                }
            }
            if rest.to_set().contains(x) {
                let k = choose|k: int| 0 <= k < rest.len() && rest[k] == x;
                assert(fewer[k] == init[rest[k] as int]);
            }
        }
        assert(rest.to_set() =~= upto(init.len()));
        lemma_reordered(init, fewer, rest);
        assert(s =~= init.push(s.last()));
        assert(q[p] == s.last());
        vstd::seq_lib::to_multiset_remove(q, p);
        assert(q.to_multiset() =~= fewer.to_multiset().insert(s.last()));
        assert(s.to_multiset() =~= init.to_multiset().insert(s.last()));
    } else {
        assert(q =~= s);
    }
}

/// Sorted demands are equal if their multisets are.
proof fn lemma_canonical_unique(a: Seq<Mark>, b: Seq<Mark>)
    requires
        sorted_by(demands(a), |x: Shape, y: Shape| upto_mark(x, y)),
        sorted_by(demands(b), |x: Shape, y: Shape| upto_mark(x, y)),
        demands(a).to_multiset() == demands(b).to_multiset(),
    ensures
        demands(a) == demands(b),
{
    lemma_mark_ordering();
    vstd::seq_lib::lemma_sorted_unique(
        demands(a),
        demands(b),
        |x: Shape, y: Shape| upto_mark(x, y),
    );
}

/// The states seen at one position.
#[derive(Debug)]
pub struct Level {
    buckets: BTreeMap<u64, Vec<Vec<Mark>>>,
}

impl Level {
    /// Every state is kept in canonical form under its fingerprint.
    #[verifier::type_invariant]
    closed spec fn inv(self) -> bool {
        forall|key: u64, i: int|
            self.buckets@.contains_key(key) && 0 <= i < self.buckets@[key].len() ==> {
                let marks = #[trigger] self.buckets@[key]@[i];
                &&& marks_wf(marks@)
                &&& mixed_marks(marks@) == key
                &&& sorted_by(demands(marks@), |a: Shape, b: Shape| upto_mark(a, b))
            }
    }

    closed spec fn holds(self, loads: Multiset<Shape>) -> bool {
        exists|key: u64, i: int|
            self.buckets@.contains_key(key) && 0 <= i < self.buckets@[key].len() && demands(
                (#[trigger] self.buckets@[key]@[i])@,
            ).to_multiset() == loads
    }
}

impl View for Level {
    type V = Set<Multiset<Shape>>;

    closed spec fn view(&self) -> Set<Multiset<Shape>> {
        Set::new(|loads: Multiset<Shape>| self.holds(loads))
    }
}

impl Level {
    pub fn new() -> (level: Self)
        ensures
            level@ == Set::<Multiset<Shape>>::empty(),
    {
        let level = Level { buckets: BTreeMap::new() };
        assert(level@ =~= Set::empty());
        level
    }

    /// Notes the state of the machines; says whether it is new.
    pub fn note(&mut self, bins: &Vec<Bin>) -> (fresh: bool)
        requires
            forall|i: int| 0 <= i < bins.len() ==> (#[trigger] bins@[i]).checks.wf(),
        ensures
            fresh == !old(self)@.contains(load(slots(bins@))),
            final(self)@ == old(self)@.insert(load(slots(bins@))),
    {
        let ghost was = *self;
        let ghost loads = load(slots(bins@));
        proof {
            use_type_invariant(&*self);
        }
        let marks: Vec<Mark> = canonical(bins);
        let key: u64 = fingerprint(&marks);
        let mut buckets: BTreeMap<u64, Vec<Vec<Mark>>> = BTreeMap::new();
        std::mem::swap(&mut buckets, &mut self.buckets);
        let mut bucket: Vec<Vec<Mark>> = match buckets.remove(&key) {
            Some(bucket) => bucket,
            None => Vec::new(),
        };
        let ghost kept = bucket@;
        let mut i: usize = 0;
        let mut fresh: bool = true;
        while i < bucket.len() && fresh
            invariant
                marks_wf(marks@),
                forall|k: int| 0 <= k < bucket.len() ==> marks_wf((#[trigger] bucket@[k])@),
                i <= bucket.len(),
                fresh ==> forall|k: int|
                    0 <= k < i ==> demands((#[trigger] bucket@[k])@) != demands(marks@),
                !fresh ==> exists|k: int|
                    0 <= k < bucket.len() && demands((#[trigger] bucket@[k])@) == demands(marks@),
            decreases bucket.len() - i,
        {
            if same_marks(&bucket[i], &marks) {
                fresh = false;
            }
            i = i + 1;
        }
        let ghost made = marks;
        if fresh {
            bucket.push(marks);
        }
        let ghost full = bucket@;
        buckets.insert(key, bucket);
        proof {
            assert(kept.len() > 0 ==> was.buckets@.contains_key(key) && was.buckets@[key]@ == kept);
            assert(buckets@[key]@ == full);
            if was.holds(loads) {
                let (k, j) = choose|k: u64, j: int|
                    was.buckets@.contains_key(k) && 0 <= j < was.buckets@[k].len() && demands(
                        (#[trigger] was.buckets@[k]@[j])@,
                    ).to_multiset() == loads;
                let other = was.buckets@[k]@[j];
                lemma_canonical_unique(other@, made@);
                lemma_same_print(other@, made@);
                assert(kept[j] == other);
            }
            if !fresh {
                let j = choose|j: int|
                    0 <= j < kept.len() && demands((#[trigger] kept[j])@) == demands(made@);
                assert(was.buckets@[key]@[j] == kept[j]);
                assert(was.holds(loads));
            }
            assert forall|k: u64, j: int|
                buckets@.contains_key(k) && 0 <= j < buckets@[k].len() implies {
                let marks = #[trigger] buckets@[k]@[j];
                &&& marks_wf(marks@)
                &&& mixed_marks(marks@) == k
                &&& sorted_by(demands(marks@), |a: Shape, b: Shape| upto_mark(a, b))
            } by {
                if k == key {
                    if j < kept.len() {
                        assert(buckets@[k]@[j] == was.buckets@[k]@[j]);
                    } else {
                        assert(buckets@[k]@[j] == made);
                    }
                } else {
                    assert(buckets@[k]@[j] == was.buckets@[k]@[j]);
                }
            }
        }
        self.buckets = buckets;
        proof {
            let level = *self;
            assert forall|other: Multiset<Shape>|
                level.holds(other) <==> was.holds(other) || other == loads by {
                if level.holds(other) {
                    let (k, j) = choose|k: u64, j: int|
                        level.buckets@.contains_key(k) && 0 <= j < level.buckets@[k].len()
                            && demands(
                            (#[trigger] level.buckets@[k]@[j])@,
                        ).to_multiset() == other;
                    if k == key && j >= kept.len() {
                        assert(level.buckets@[k]@[j] == made);
                    } else {
                        assert(was.buckets@[k]@[j] == level.buckets@[k]@[j]);
                    }
                }
                if was.holds(other) {
                    let (k, j) = choose|k: u64, j: int|
                        was.buckets@.contains_key(k) && 0 <= j < was.buckets@[k].len() && demands(
                            (#[trigger] was.buckets@[k]@[j])@,
                        ).to_multiset() == other;
                    if k == key {
                        assert(kept[j] == was.buckets@[k]@[j]);
                        assert(full[j] == kept[j]);
                    }
                    assert(level.buckets@[k]@[j] == was.buckets@[k]@[j]);
                }
                if other == loads && fresh {
                    assert(full[kept.len() as int] == made);
                    assert(level.buckets@[key]@[kept.len() as int] == made);
                }
            }
            assert(level@ =~= was@.insert(loads));
        }
        fresh
    }
}

} // verus!
