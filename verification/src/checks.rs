//! Sets of checks and what running them costs.
use vstd::prelude::*;

use crate::bits::{bits_lt, lemma_bits_asymmetric, lemma_bits_irreflexive, tops};
use crate::shape::{lemma_duration_bound, lemma_work_empty, lemma_work_insert, Rates, Shape};

verus! {

/// Sorted, distinct check indexes. Sparse storage avoids a fixed check limit.
#[derive(Debug)]
pub struct Checks(pub Vec<usize>);

/// Strictly increasing.
pub open spec fn increasing(q: Seq<usize>) -> bool {
    forall|i: int, j: int| 0 <= i < j < q.len() ==> #[trigger] q[i] < #[trigger] q[j]
}

impl View for Checks {
    type V = Set<usize>;

    open spec fn view(&self) -> Set<usize> {
        self.0@.to_set()
    }
}

impl Clone for Checks {
    fn clone(&self) -> (copy: Self)
        ensures
            copy.0@ == self.0@,
    {
        Checks(self.0.clone())
    }
}

impl Default for Checks {
    fn default() -> (none: Self)
        ensures
            none.wf(),
            none@ == Set::<usize>::empty(),
    {
        let none = Checks(Vec::new());
        assert(none@ =~= Set::<usize>::empty());
        none
    }
}

proof fn lemma_tops_by_suffix(a: Seq<usize>, b: Seq<usize>, i: int, j: int)
    requires
        increasing(a),
        increasing(b),
        0 <= i <= a.len(),
        0 < j <= b.len(),
        a.skip(i) == b.skip(j),
        i == 0 || a[i - 1] < b[j - 1],
    ensures
        tops(a.to_set(), b.to_set(), b[j - 1]),
{
    let top = b[j - 1];
    assert(b.to_set().contains(top));
    assert(a.skip(i).len() == a.len() - i);
    assert(b.skip(j).len() == b.len() - j);
    assert forall|k: int| i <= k < a.len() implies #[trigger] a[k] == b[k - i + j] by {
        assert(a.skip(i)[k - i] == a[k]);
        assert(b.skip(j)[k - i] == b[k - i + j]);
    }
    if a.to_set().contains(top) {
        let k = choose|k: int| 0 <= k < a.len() && a[k] == top;
        if k >= i {
            assert(a[k] == b[k - i + j]);
            assert(b[j - 1] < b[k - i + j]);
        } else if k < i - 1 {
            assert(a[k] < a[i - 1]);
        }
    }
    assert forall|x: usize| top < x implies (#[trigger] a.to_set().contains(x)
        <==> b.to_set().contains(x)) by {
        if a.to_set().contains(x) {
            let k = choose|k: int| 0 <= k < a.len() && a[k] == x;
            if k < i {
                if k < i - 1 {
                    assert(a[k] < a[i - 1]);
                }
            } else {
                assert(b[k - i + j] == x);
            }
        }
        if b.to_set().contains(x) {
            let k = choose|k: int| 0 <= k < b.len() && b[k] == x;
            if k < j - 1 {
                assert(b[k] < b[j - 1]);
            } else {
                assert(k >= j);
                assert(b.skip(j)[k - j] == x);
                assert(a[k - j + i] == x);
            }
        }
    }
}

/// Strictly increasing sequences are determined by their elements.
pub proof fn lemma_increasing_same(a: Seq<usize>, b: Seq<usize>)
    requires
        increasing(a),
        increasing(b),
        a.to_set() == b.to_set(),
    ensures
        a == b,
{
    crate::listing::lemma_ascending_unique(a, a.to_set());
    crate::listing::lemma_ascending_unique(b, b.to_set());
}

impl Checks {
    /// The indexes are sorted and distinct.
    pub open spec fn wf(self) -> bool {
        increasing(self.0@)
    }

    /// Whether both are the same set.
    pub fn same(&self, other: &Self) -> (same: bool)
        requires
            self.wf(),
            other.wf(),
        ensures
            same == (self@ == other@),
    {
        if self.0.len() != other.0.len() {
            proof {
                if self@ == other@ {
                    lemma_increasing_same(self.0@, other.0@);
                }
            }
            return false;
        }
        let mut i: usize = 0;
        while i < self.0.len()
            invariant
                self.wf(),
                other.wf(),
                i <= self.0.len(),
                self.0.len() == other.0.len(),
                forall|k: int| 0 <= k < i ==> self.0@[k] == other.0@[k],
            decreases self.0.len() - i,
        {
            if self.0[i] != other.0[i] {
                proof {
                    if self@ == other@ {
                        lemma_increasing_same(self.0@, other.0@);
                    }
                }
                return false;
            }
            i = i + 1;
        }
        assert(self.0@ =~= other.0@);
        true
    }

    /// Whether this set comes before the other in numeric-bitset order,
    /// without allocating a bit for every catalog entry.
    pub fn precedes(&self, other: &Self) -> (less: bool)
        requires
            self.wf(),
            other.wf(),
        ensures
            less == bits_lt(self@, other@),
    {
        let mut i: usize = self.0.len();
        let mut j: usize = other.0.len();
        assert(self.0@.skip(i as int) =~= other.0@.skip(j as int));
        while i > 0 && j > 0
            invariant
                self.wf(),
                other.wf(),
                i <= self.0.len(),
                j <= other.0.len(),
                self.0@.skip(i as int) == other.0@.skip(j as int),
            decreases i,
        {
            let x: usize = self.0[i - 1];
            let y: usize = other.0[j - 1];
            if x < y {
                proof {
                    lemma_tops_by_suffix(self.0@, other.0@, i as int, j as int);
                }
                return true;
            }
            if y < x {
                proof {
                    lemma_tops_by_suffix(other.0@, self.0@, j as int, i as int);
                    lemma_bits_asymmetric(other@, self@);
                }
                return false;
            }
            proof {
                let a = self.0@;
                let b = other.0@;
                assert(a.skip(i - 1) =~= seq![x] + a.skip(i as int));
                assert(b.skip(j - 1) =~= seq![y] + b.skip(j as int));
            }
            i = i - 1;
            j = j - 1;
        }
        proof {
            if j > 0 {
                lemma_tops_by_suffix(self.0@, other.0@, i as int, j as int);
            } else if i > 0 {
                lemma_tops_by_suffix(other.0@, self.0@, j as int, i as int);
                lemma_bits_asymmetric(other@, self@);
            } else {
                assert(self.0@ =~= self.0@.skip(0));
                assert(other.0@ =~= other.0@.skip(0));
                lemma_bits_irreflexive(self@);
            }
        }
        j > 0
    }

    /// The checks of either.
    pub fn union(&self, other: &Self) -> (both: Self)
        requires
            self.wf(),
            other.wf(),
        ensures
            both.wf(),
            both@ == self@.union(other@),
    {
        let mut a: usize = 0;
        let mut b: usize = 0;
        let mut result: Vec<usize> = Vec::new();
        assert(result@.to_set() =~= self.0@.take(0).to_set().union(other.0@.take(0).to_set()));
        while a < self.0.len() || b < other.0.len()
            invariant
                self.wf(),
                other.wf(),
                a <= self.0.len(),
                b <= other.0.len(),
                increasing(result@),
                result@.to_set() == self.0@.take(a as int).to_set().union(
                    other.0@.take(b as int).to_set(),
                ),
                a < self.0.len() ==> forall|k: int|
                    0 <= k < result.len() ==> #[trigger] result@[k] < self.0@[a as int],
                b < other.0.len() ==> forall|k: int|
                    0 <= k < result.len() ==> #[trigger] result@[k] < other.0@[b as int],
            decreases self.0.len() - a + other.0.len() - b,
        {
            let left: bool = a < self.0.len() && (b >= other.0.len() || self.0[a] <= other.0[b]);
            let right: bool = b < other.0.len() && (a >= self.0.len() || other.0[b] <= self.0[a]);
            let next: usize = if left {
                self.0[a]
            } else {
                other.0[b]
            };
            let ghost before = result@;
            result.push(next);
            proof {
                assert(result@.to_set() =~= before.to_set().insert(next)) by {
                    before.lemma_push_to_set_commute(next);
                }
                if left {
                    lemma_take_grows(self.0@, a as int);
                }
                if right {
                    lemma_take_grows(other.0@, b as int);
                }
                assert(forall|k: int| a < k < self.0.len() ==> next < #[trigger] self.0@[k]);
                assert(forall|k: int| b < k < other.0.len() ==> next < #[trigger] other.0@[k]);
            }
            if left {
                a = a + 1;
            }
            if right {
                b = b + 1;
            }
            assert(result@.to_set() =~= self.0@.take(a as int).to_set().union(
                other.0@.take(b as int).to_set(),
            ));
        }
        assert(self.0@.take(a as int) =~= self.0@);
        assert(other.0@.take(b as int) =~= other.0@);
        Checks(result)
    }

    /// Whether every check of this set is in the other.
    pub fn is_subset(&self, other: &Self) -> (inside: bool)
        requires
            self.wf(),
            other.wf(),
        ensures
            inside == self@.subset_of(other@),
    {
        let mut cursor: usize = 0;
        let mut i: usize = 0;
        while i < self.0.len()
            invariant
                self.wf(),
                other.wf(),
                i <= self.0.len(),
                cursor <= other.0.len(),
                forall|k: int| 0 <= k < i ==> other@.contains(#[trigger] self.0@[k]),
                i < self.0.len() ==> forall|k: int|
                    0 <= k < cursor ==> #[trigger] other.0@[k] < self.0@[i as int],
            decreases self.0.len() - i,
        {
            let check: usize = self.0[i];
            while cursor < other.0.len() && other.0[cursor] < check
                invariant
                    cursor <= other.0.len(),
                    forall|k: int| 0 <= k < cursor ==> #[trigger] other.0@[k] < check,
                decreases other.0.len() - cursor,
            {
                cursor = cursor + 1;
            }
            if cursor >= other.0.len() || other.0[cursor] != check {
                proof {
                    assert(self@.contains(check)) by {
                        assert(self.0@[i as int] == check);
                    }
                    if other@.contains(check) {
                        let k = choose|k: int| 0 <= k < other.0.len() && other.0@[k] == check;
                        assert(k >= cursor);
                        if k > cursor {
                            assert(other.0@[cursor as int] < other.0@[k]);
                        }
                    }
                }
                return false;
            }
            proof {
                assert(other.0@[cursor as int] == check);
                if i + 1 < self.0.len() {
                    assert(self.0@[i as int] < self.0@[i + 1]);
                }
            }
            i = i + 1;
        }
        proof {
            assert forall|c: usize| self@.contains(c) implies other@.contains(c) by {
                let k = choose|k: int| 0 <= k < self.0.len() && self.0@[k] == c;
                assert(other@.contains(self.0@[k]));
            }
        }
        true
    }
}

proof fn lemma_take_grows(q: Seq<usize>, i: int)
    requires
        0 <= i < q.len(),
    ensures
        q.take(i + 1).to_set() == q.take(i).to_set().insert(q[i]),
{
    assert(q.take(i + 1) =~= q.take(i).push(q[i]));
    q.take(i).lemma_push_to_set_commute(q[i]);
}

/// Startup and check durations in seconds.
#[derive(Debug)]
pub struct Costs {
    pub boot: u64,
    pub checks: Vec<u64>,
}

impl View for Costs {
    type V = Rates;

    open spec fn view(&self) -> Rates {
        Rates { boot: self.boot, checks: self.checks@ }
    }
}

impl Costs {
    /// The sets of checks that these costs cover.
    pub open spec fn covers(self, checks: Checks) -> bool {
        checks.wf() && forall|i: int|
            0 <= i < checks.0.len() ==> #[trigger] checks.0@[i] < self.checks.len()
    }

    /// The seconds of running each check once.
    pub fn work(&self, checks: &Checks) -> (seconds: u128)
        requires
            self.covers(*checks),
        ensures
            seconds == self@.work(checks@),
    {
        // Individual durations fit u64, but their union need not. Widen before
        // summing so an impossible group is rejected rather than wrapped.
        let mut seconds: u128 = 0;
        let mut i: usize = 0;
        let total: usize = self.checks.len();
        proof {
            lemma_work_empty(self@);
            assert(checks.0@.take(0).to_set() =~= Set::<usize>::empty());
        }
        while i < checks.0.len()
            invariant
                self.covers(*checks),
                total == self.checks.len(),
                i <= checks.0.len(),
                seconds == self@.work(checks.0@.take(i as int).to_set()),
            decreases checks.0.len() - i,
        {
            let c: usize = checks.0[i];
            proof {
                let seen = checks.0@.take(i as int).to_set();
                lemma_take_grows(checks.0@, i as int);
                if seen.contains(c) {
                    let k = choose|k: int| 0 <= k < i && checks.0@.take(i as int)[k] == c;
                    assert(checks.0@[k] < checks.0@[i as int]);
                }
                lemma_work_insert(self@, seen, c);
                lemma_duration_bound(self@, seen.insert(c));
            }
            seconds = seconds + self.checks[c] as u128;
            i = i + 1;
        }
        assert(checks.0@.take(i as int) =~= checks.0@);
        seconds
    }

    /// The seconds that a machine running these checks is up.
    pub fn duration(&self, checks: &Checks) -> (seconds: u128)
        requires
            self.covers(*checks),
        ensures
            seconds == self@.duration(checks@),
    {
        proof {
            assert(self@.checks.len() == self.checks.len());
            lemma_duration_bound(self@, checks@);
        }
        self.boot as u128 + self.work(checks)
    }

    /// The last moment to start in order to finish by the deadline, if there is one.
    pub fn latest(&self, checks: &Checks, deadline: u64) -> (start: Option<u64>)
        requires
            self.covers(*checks),
        ensures
            match start {
                Some(time) => time == self@.latest(Shape { checks: checks@, deadline }),
                None => self@.latest(Shape { checks: checks@, deadline }) < 0,
            },
    {
        let duration: u128 = self.duration(checks);
        // An infeasible union may be larger than u64; never truncate it.
        if duration <= deadline as u128 {
            Some(deadline - duration as u64)
        } else {
            None
        }
    }
}

} // verus!
