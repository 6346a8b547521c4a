//! Waiting jobs, and the batches planned from them.
use std::collections::BTreeMap;

use vstd::prelude::*;
use vstd::std_specs::cmp::OrdSpec;
use vstd::std_specs::iter::IteratorSpec;
use vstd::std_specs::btree::increasing_seq;

use crate::bits::bits_lt;
use crate::checks::{increasing, Checks, Costs};
use crate::listing::{ascending, lemma_ascending_unique};
use crate::partition::inhabited;
use crate::roster::{of_kind, pattern_lists};
use crate::roster_laws::{lemma_of_kind, lemma_of_kind_push};
use crate::shape::{gather, lemma_gather_insert, lemma_gather_one, Shape};
use crate::team::{
    alike, is_patterns, lemma_patterns_unique, merge, patterns as pattern_teams, team_of, Team,
};

verus! {

/// A job that waits to be launched. Its token says which job of the input it is.
#[derive(Debug)]
pub struct Pending {
    pub token: usize,
    pub deadline: u64,
    pub checks: Checks,
}

impl View for Pending {
    type V = Shape;

    open spec fn view(&self) -> Shape {
        Shape { checks: self.checks@, deadline: self.deadline }
    }
}

/// A batch that is planned but not launched.
#[derive(Debug)]
pub struct Group {
    pub checks: Checks,
    pub deadline: u64,
    pub members: Vec<usize>,
}

// The order of the members, which `rosters` tells, decides nothing.
impl View for Group {
    type V = Team;

    open spec fn view(&self) -> Team {
        Team {
            shape: Shape { checks: self.checks@, deadline: self.deadline },
            members: self.members@.to_set(),
        }
    }
}

impl Clone for Group {
    fn clone(&self) -> (copy: Self)
        ensures
            copy.checks.0@ == self.checks.0@,
            copy.deadline == self.deadline,
            copy.members@ == self.members@,
            copy@ == self@,
    {
        Group {
            checks: self.checks.clone(),
            deadline: self.deadline,
            members: self.members.clone(),
        }
    }
}

/// What each waiting job asks for.
pub open spec fn items(pending: Map<usize, Pending>) -> Map<usize, Shape> {
    pending.map_values(|job: Pending| job@)
}

/// The jobs are filed under their tokens.
pub open spec fn filed(pending: Map<usize, Pending>) -> bool {
    &&& pending.dom().finite()
    &&& forall|t: usize| #[trigger]
        pending.contains_key(t) ==> pending[t].token == t && pending[t].checks.wf()
}

/// The jobs ask only for checks with a known cost.
pub open spec fn payable(costs: Costs, pending: Map<usize, Pending>) -> bool {
    forall|t: usize| #[trigger] pending.contains_key(t) ==> costs.covers(pending[t].checks)
}

/// The batches as teams.
pub open spec fn teams(groups: Seq<Group>) -> Seq<Team> {
    groups.map_values(|group: Group| group@)
}

/// The member lists of the batches.
pub open spec fn rosters(groups: Seq<Group>) -> Seq<Seq<usize>> {
    groups.map_values(|group: Group| group.members@)
}

/// The batches hold only checks with a known cost.
pub open spec fn priced(costs: Costs, groups: Seq<Group>) -> bool {
    forall|i: int| 0 <= i < groups.len() ==> costs.covers((#[trigger] groups[i]).checks)
}

/// A known union of known checks.
pub proof fn lemma_covers(costs: Costs, checks: Checks)
    requires
        checks.wf(),
    ensures
        costs.covers(checks) <==> forall|c: usize| #[trigger]
            checks@.contains(c) ==> c < costs.checks.len(),
{
    if costs.covers(checks) {
        assert forall|c: usize| #[trigger] checks@.contains(c) implies c < costs.checks.len() by {
            let i = choose|i: int| 0 <= i < checks.0@.len() && checks.0@[i] == c;
            assert(checks.0@[i] < costs.checks.len());
        }
    }
    if forall|c: usize| #[trigger] checks@.contains(c) ==> c < costs.checks.len() {
        assert forall|i: int| 0 <= i < checks.0@.len() implies #[trigger] checks.0@[i]
            < costs.checks.len() by {
            assert(checks@.contains(checks.0@[i]));
        }
    }
}

pub proof fn lemma_covers_union(costs: Costs, a: Checks, b: Checks, both: Checks)
    requires
        costs.covers(a),
        costs.covers(b),
        both.wf(),
        both@ == a@.union(b@),
    ensures
        costs.covers(both),
{
    lemma_covers(costs, a);
    lemma_covers(costs, b);
    lemma_covers(costs, both);
}

/// Adds `more` at the end of `members`.
pub fn extend_members(members: &mut Vec<usize>, more: &Vec<usize>)
    ensures
        final(members)@ == old(members)@ + more@,
        final(members)@.to_set() == old(members)@.to_set().union(more@.to_set()),
{
    let ghost start = members@;
    let mut i: usize = 0;
    while i < more.len()
        invariant
            i <= more.len(),
            members@ == start + more@.take(i as int),
        decreases more.len() - i,
    {
        members.push(more[i]);
        assert(more@.take(i + 1) =~= more@.take(i as int).push(more@[i as int]));
        i = i + 1;
    }
    assert(more@.take(i as int) =~= more@);
    proof {
        let all = start + more@;
        assert forall|t: usize| all.to_set().contains(t) <==> start.to_set().union(
            more@.to_set(),
        ).contains(t) by {
            if start.contains(t) {
                let k = choose|k: int| 0 <= k < start.len() && start[k] == t;
                assert(all[k] == t);
            }
            if more@.contains(t) {
                let k = choose|k: int| 0 <= k < more@.len() && more@[k] == t;
                assert(all[start.len() + k] == t);
            }
        }
        assert(all.to_set() =~= start.to_set().union(more@.to_set()));
    }
}

impl Group {
    /// The latest start that keeps every member on time.
    pub fn latest(&self, costs: &Costs) -> (start: u64)
        requires
            costs.covers(self.checks),
            costs@.latest(self@.shape) >= 0,
        ensures
            start == costs@.latest(self@.shape),
    {
        match costs.latest(&self.checks, self.deadline) {
            Some(start) => start,
            None => 0,
        }
    }

    /// Both batches run as one.
    pub fn merge(&self, other: &Self) -> (both: Self)
        requires
            self.checks.wf(),
            other.checks.wf(),
        ensures
            both.checks.wf(),
            both@ == merge(self@, other@),
            both.members@ == self.members@ + other.members@,
    {
        let mut members: Vec<usize> = self.members.clone();
        extend_members(&mut members, &other.members);
        let both = Group {
            checks: self.checks.union(&other.checks),
            deadline: if self.deadline <= other.deadline {
                self.deadline
            } else {
                other.deadline
            },
            members,
        };
        both
    }
}

/// The tokens of all waiting jobs, in increasing order.
pub fn tokens(pending: &BTreeMap<usize, Pending>) -> (all: Vec<usize>)
    requires
        filed(pending@),
    ensures
        all@ == ascending(pending@.dom()),
        all@.to_set() == pending@.dom(),
        increasing(all@),
{
    let mut all: Vec<usize> = Vec::new();
    let values = pending.values();
    let ghost keys = choose|keys: Seq<usize>|
        {
            &&& increasing_seq(keys)
            &&& keys.to_set() == pending@.dom()
            &&& keys.no_duplicates()
            &&& values.remaining() == keys.map(|i: int, k: usize| &pending@[k])
        };
    for job in iter: values
        invariant
            filed(pending@),
            keys.to_set() == pending@.dom(),
            iter.seq() == keys.map(|i: int, k: usize| &pending@[k]),
            all@ == keys.take(iter.index()),
    {
        proof {
            let i = iter.index();
            assert(keys.to_set().contains(keys[i]));
            assert(keys.take(i + 1) =~= keys.take(i).push(keys[i]));
        }
        all.push(job.token);
    }
    proof {
        assert(all@ =~= keys);
        assert(increasing(keys)) by {
            assert forall|i: int, j: int| 0 <= i < j < keys.len() implies #[trigger] keys[i]
                < #[trigger] keys[j] by {
                assert(keys[i].cmp_spec(&keys[j]) is Less);
            }
        }
        lemma_ascending_unique(keys, pending@.dom());
    }
    all
}

/// Those of `members` that still wait.
pub open spec fn live(pending: Map<usize, Pending>, members: Set<usize>) -> Set<usize> {
    members.intersect(pending.dom())
}

/// A batch of waiting jobs holds only checks with a known cost.
pub proof fn lemma_team_covered(
    costs: Costs,
    pending: Map<usize, Pending>,
    group: Group,
    members: Set<usize>,
)
    requires
        payable(costs, pending),
        group.checks.wf(),
        members.subset_of(pending.dom()),
        group@.shape == gather(items(pending), members),
    ensures
        costs.covers(group.checks),
{
    assert forall|c: usize| #[trigger] group.checks@.contains(c) implies c
        < costs.checks.len() by {
        let t = choose|t: usize| #[trigger]
            members.contains(t) && items(pending)[t].checks.contains(c);
        assert(pending.contains_key(t));
        lemma_covers(costs, pending[t].checks);
    }
    lemma_covers(costs, group.checks);
}

/// The batch of those members that still wait, if any does.
pub fn summarize(pending: &BTreeMap<usize, Pending>, members: &Vec<usize>) -> (group: Option<Group>)
    requires
        filed(pending@),
    ensures
        match group {
            Some(group) => {
                &&& inhabited(live(pending@, members@.to_set()))
                &&& group@ == team_of(items(pending@), live(pending@, members@.to_set()))
                &&& group.checks.wf()
                &&& group.members@ == members@.filter(|t: usize| pending@.contains_key(t))
            },
            None => !inhabited(live(pending@, members@.to_set())),
        },
{
    let mut group: Option<Group> = None;
    let mut i: usize = 0;
    assert(members@.take(0) =~= Seq::<usize>::empty());
    while i < members.len()
        invariant
            filed(pending@),
            i <= members.len(),
            match group {
                Some(group) => {
                    &&& inhabited(live(pending@, members@.take(i as int).to_set()))
                    &&& group@ == team_of(
                        items(pending@),
                        live(pending@, members@.take(i as int).to_set()),
                    )
                    &&& group.checks.wf()
                    &&& group.members@ == members@.take(i as int).filter(
                        |t: usize| pending@.contains_key(t),
                    )
                },
                None => {
                    &&& !inhabited(live(pending@, members@.take(i as int).to_set()))
                    &&& members@.take(i as int).filter(|t: usize| pending@.contains_key(t)).len()
                        == 0
                },
            },
        decreases members.len() - i,
    {
        let token: usize = members[i];
        let ghost seen = live(pending@, members@.take(i as int).to_set());
        let ghost more = live(pending@, members@.take(i + 1).to_set());
        proof {
            reveal(Seq::filter);
            assert(members@.take(i + 1).drop_last() =~= members@.take(i as int));
            assert(members@.take(i + 1) =~= members@.take(i as int).push(token));
            members@.take(i as int).lemma_push_to_set_commute(token);
            if pending@.contains_key(token) {
                assert(more =~= seen.insert(token));
                assert(more.contains(token));
            } else {
                assert(more =~= seen);
            }
        }
        if let Some(job) = pending.get(&token) {
            proof {
                assert(items(pending@)[token] == job@);
                lemma_gather_insert(items(pending@), seen, token);
                lemma_gather_one(items(pending@), token);
            }
            group = match group {
                Some(old) => {
                    let mut kept: Vec<usize> = old.members;
                    let ghost before = kept@;
                    kept.push(job.token);
                    proof {
                        before.lemma_push_to_set_commute(job.token);
                    }
                    Some(
                        Group {
                            checks: old.checks.union(&job.checks),
                            deadline: if old.deadline <= job.deadline {
                                old.deadline
                            } else {
                                job.deadline
                            },
                            members: kept,
                        },
                    )
                },
                None => {
                    let kept: Vec<usize> = vec![job.token];
                    proof {
                        assert(seen =~= Set::empty()) by {
                            assert forall|t: usize| !seen.contains(t) by {}
                        }
                        assert(kept@ =~= Seq::<usize>::empty().push(token));
                        assert(kept@[0] == token);
                        assert(kept@.to_set() =~= set![token]);
                        assert(more =~= set![token]);
                    }
                    Some(
                        Group {
                            checks: job.checks.clone(),
                            deadline: job.deadline,
                            members: kept,
                        },
                    )
                },
            };
        }
        i = i + 1;
    }
    assert(members@.take(i as int) =~= members@);
    group
}

/// How one more job joins the pattern it matches.
proof fn lemma_patterns_join(
    before: Seq<Team>,
    after: Seq<Team>,
    items: Map<usize, Shape>,
    known: Set<usize>,
    token: usize,
    k: int,
)
    requires
        is_patterns(before, items, known),
        known.finite(),
        !known.contains(token),
        0 <= k < before.len(),
        before[k].shape.checks == items[token].checks,
        after == before.update(
            k,
            merge(before[k], team_of(items, set![token])),
        ),
    ensures
        is_patterns(after, items, known.insert(token)),
{
    let more = known.insert(token);
    let kind = items[token].checks;
    let crew = alike(items, known, kind);
    lemma_gather_one(items, token);
    assert(alike(items, more, kind) =~= crew.insert(token));
    assert(crew.union(set![token]) =~= crew.insert(token));
    vstd::set_lib::lemma_set_subset_finite(known, crew);
    lemma_gather_insert(items, crew, token);
    assert(before[k] == team_of(items, crew));
    assert(after[k].shape.checks =~= kind);
    assert(after[k] == team_of(items, crew.insert(token)));
    assert forall|i: int| 0 <= i < after.len() implies after[i].shape.checks
        == before[i].shape.checks && inhabited((#[trigger] after[i]).members) && after[i]
        == team_of(items, alike(items, more, after[i].shape.checks)) by {
        if i != k {
            crate::bits::lemma_bits_irreflexive(kind);
            if i < k {
                assert(bits_lt(before[i].shape.checks, before[k].shape.checks));
            } else {
                assert(bits_lt(before[k].shape.checks, before[i].shape.checks));
            }
            let other = before[i].shape.checks;
            assert(alike(items, more, other) =~= alike(items, known, other));
            assert(inhabited(before[i].members));
        } else {
            assert(after[k].members.contains(token));
        }
    }
    assert forall|i: int, j: int| 0 <= i < j < after.len() implies bits_lt(
        (#[trigger] after[i]).shape.checks,
        (#[trigger] after[j]).shape.checks,
    ) by {
        assert(bits_lt(before[i].shape.checks, before[j].shape.checks));
    }
    assert forall|t: usize| more.contains(t) implies exists|i: int|
        0 <= i < after.len() && (#[trigger] after[i]).shape.checks == items[t].checks by {
        if t == token {
            assert(after[k].shape.checks == items[t].checks);
        } else {
            let i = choose|i: int|
                0 <= i < before.len() && (#[trigger] before[i]).shape.checks == items[t].checks;
            assert(after[i].shape.checks == items[t].checks);
        }
    }
}

/// How a job that matches no pattern makes a new one.
proof fn lemma_patterns_new(
    before: Seq<Team>,
    after: Seq<Team>,
    items: Map<usize, Shape>,
    known: Set<usize>,
    token: usize,
    k: int,
)
    requires
        is_patterns(before, items, known),
        known.finite(),
        !known.contains(token),
        0 <= k <= before.len(),
        forall|i: int|
            0 <= i < k ==> bits_lt((#[trigger] before[i]).shape.checks, items[token].checks),
        forall|i: int|
            k <= i < before.len() ==> bits_lt(
                items[token].checks,
                (#[trigger] before[i]).shape.checks,
            ),
        after == before.insert(k, team_of(items, set![token])),
    ensures
        is_patterns(after, items, known.insert(token)),
{
    let more = known.insert(token);
    let kind = items[token].checks;
    lemma_gather_one(items, token);
    crate::bits::lemma_bits_irreflexive(kind);
    assert(alike(items, known, kind) =~= Set::empty()) by {
        assert forall|t: usize| !alike(items, known, kind).contains(t) by {
            if known.contains(t) && items[t].checks == kind {
                let i = choose|i: int|
                    0 <= i < before.len() && (#[trigger] before[i]).shape.checks
                        == items[t].checks;
                assert(before[i].shape.checks == kind);
            }
        }
    }
    assert(alike(items, more, kind) =~= set![token]);
    assert(set![token].contains(token));
    assert forall|i: int| 0 <= i < after.len() implies inhabited((#[trigger] after[i]).members)
        && after[i] == team_of(items, alike(items, more, after[i].shape.checks)) by {
        if i != k {
            let b = if i < k {
                i
            } else {
                i - 1
            };
            assert(after[i] == before[b]);
            assert(inhabited(before[b].members));
            let other = before[b].shape.checks;
            assert(other != kind);
            assert(alike(items, more, other) =~= alike(items, known, other));
        }
    }
    assert forall|i: int, j: int| 0 <= i < j < after.len() implies bits_lt(
        (#[trigger] after[i]).shape.checks,
        (#[trigger] after[j]).shape.checks,
    ) by {
        let a = if i < k {
            i
        } else {
            i - 1
        };
        let b = if j < k {
            j
        } else {
            j - 1
        };
        if i != k {
            assert(after[i] == before[a]);
        }
        if j != k {
            assert(after[j] == before[b]);
        }
    }
    assert forall|t: usize| more.contains(t) implies exists|i: int|
        0 <= i < after.len() && (#[trigger] after[i]).shape.checks == items[t].checks by {
        if t == token {
            assert(after[k].shape.checks == items[t].checks);
        } else {
            let i = choose|i: int|
                0 <= i < before.len() && (#[trigger] before[i]).shape.checks == items[t].checks;
            if i < k {
                assert(after[i].shape.checks == items[t].checks);
            } else {
                assert(after[i + 1].shape.checks == items[t].checks);
            }
        }
    }
}

/// How the list of the pattern that a job joins grows.
proof fn lemma_rosters_join(
    before: Seq<Group>,
    after: Seq<Group>,
    items: Map<usize, Shape>,
    tokens: Seq<usize>,
    token: usize,
    k: int,
)
    requires
        is_patterns(teams(before), items, tokens.to_set()),
        0 <= k < before.len(),
        before[k].checks@ == items[token].checks,
        after.len() == before.len(),
        forall|j: int| 0 <= j < before.len() && j != k ==> #[trigger] after[j] == before[j],
        after[k].checks@ == before[k].checks@,
        after[k].members@ == before[k].members@ + seq![token],
        forall|j: int|
            0 <= j < before.len() ==> (#[trigger] before[j]).members@ == of_kind(
                items,
                tokens,
                before[j].checks@,
            ),
    ensures
        forall|j: int|
            0 <= j < after.len() ==> (#[trigger] after[j]).members@ == of_kind(
                items,
                tokens.push(token),
                after[j].checks@,
            ),
{
    assert forall|j: int| 0 <= j < after.len() implies (#[trigger] after[j]).members@ == of_kind(
        items,
        tokens.push(token),
        after[j].checks@,
    ) by {
        lemma_of_kind_push(items, tokens, token, after[j].checks@);
        assert(before[j].members@ == of_kind(items, tokens, before[j].checks@));
        if j != k {
            let all = teams(before);
            assert(all[j].shape.checks == before[j].checks@);
            assert(all[k].shape.checks == before[k].checks@);
            crate::bits::lemma_bits_irreflexive(before[k].checks@);
            if j < k {
                assert(bits_lt(all[j].shape.checks, all[k].shape.checks));
            } else {
                assert(bits_lt(all[k].shape.checks, all[j].shape.checks));
            }
        } else {
            assert(before[k].members@ + seq![token] =~= before[k].members@.push(token));
        }
    }
}

/// A job that matches no pattern starts a list.
proof fn lemma_rosters_new(
    before: Seq<Group>,
    after: Seq<Group>,
    items: Map<usize, Shape>,
    tokens: Seq<usize>,
    token: usize,
    k: int,
)
    requires
        is_patterns(teams(before), items, tokens.to_set()),
        0 <= k <= before.len(),
        forall|j: int|
            0 <= j < before.len() ==> (#[trigger] teams(before)[j]).shape.checks
                != items[token].checks,
        after == before.insert(k, after[k]),
        after[k].checks@ == items[token].checks,
        after[k].members@ == seq![token],
        forall|j: int|
            0 <= j < before.len() ==> (#[trigger] before[j]).members@ == of_kind(
                items,
                tokens,
                before[j].checks@,
            ),
    ensures
        forall|j: int|
            0 <= j < after.len() ==> (#[trigger] after[j]).members@ == of_kind(
                items,
                tokens.push(token),
                after[j].checks@,
            ),
{
    let kind = items[token].checks;
    let none = of_kind(items, tokens, kind);
    lemma_of_kind(items, tokens, kind);
    assert(none =~= Seq::<usize>::empty()) by {
        if none.len() > 0 {
            let t = none[0];
            assert(none.to_set().contains(t));
            assert(alike(items, tokens.to_set(), kind).contains(t));
            let j = choose|j: int|
                0 <= j < teams(before).len() && (#[trigger] teams(before)[j]).shape.checks
                    == items[t].checks;
        }
    }
    assert forall|j: int| 0 <= j < after.len() implies (#[trigger] after[j]).members@ == of_kind(
        items,
        tokens.push(token),
        after[j].checks@,
    ) by {
        lemma_of_kind_push(items, tokens, token, after[j].checks@);
        if j != k {
            let b = if j < k {
                j
            } else {
                j - 1
            };
            assert(after[j] == before[b]);
            assert(teams(before)[b].shape.checks == before[b].checks@);
        } else {
            assert(none.push(token) =~= seq![token]);
        }
    }
}

// For the current queue, identical check sets can travel together for free.
// Put every copy with the earliest-deadline copy: no new work is added there,
// later copies remain on time, and removing copies elsewhere cannot add cost.
/// One batch for each distinct check set among the given jobs.
pub fn patterns(pending: &BTreeMap<usize, Pending>, tokens: &Vec<usize>) -> (groups: Vec<Group>)
    requires
        filed(pending@),
        tokens@.no_duplicates(),
        tokens@.to_set().subset_of(pending@.dom()),
    ensures
        teams(groups@) == pattern_teams(items(pending@), tokens@.to_set()),
        rosters(groups@) == pattern_lists(items(pending@), tokens@),
        forall|i: int| 0 <= i < groups.len() ==> (#[trigger] groups@[i]).checks.wf(),
{
    let mut groups: Vec<Group> = Vec::new();
    let mut i: usize = 0;
    assert(tokens@.take(0).to_set() =~= Set::empty());
    while i < tokens.len()
        invariant
            filed(pending@),
            tokens@.no_duplicates(),
            tokens@.to_set().subset_of(pending@.dom()),
            i <= tokens.len(),
            is_patterns(teams(groups@), items(pending@), tokens@.take(i as int).to_set()),
            forall|k: int| 0 <= k < groups.len() ==> (#[trigger] groups@[k]).checks.wf(),
            forall|k: int|
                0 <= k < groups.len() ==> (#[trigger] groups@[k]).members@ == of_kind(
                    items(pending@),
                    tokens@.take(i as int),
                    groups@[k].checks@,
                ),
        decreases tokens.len() - i,
    {
        let token: usize = tokens[i];
        let ghost known = tokens@.take(i as int).to_set();
        let ghost before = teams(groups@);
        let ghost old_groups = groups@;
        proof {
            assert(tokens@.to_set().contains(token));
            assert(pending@.contains_key(token));
            assert(tokens@.take(i + 1) =~= tokens@.take(i as int).push(token));
            tokens@.take(i as int).lemma_push_to_set_commute(token);
            if known.contains(token) {
                let k = choose|k: int| 0 <= k < i && tokens@.take(i as int)[k] == token;
                assert(tokens@[k] == tokens@[i as int]);
            }
        }
        if let Some(job) = pending.get(&token) {
            let mut k: usize = 0;
            while k < groups.len() && groups[k].checks.precedes(&job.checks)
                invariant
                    k <= groups.len(),
                    job.checks.wf(),
                    forall|j: int| 0 <= j < groups.len() ==> (#[trigger] groups@[j]).checks.wf(),
                    forall|j: int|
                        0 <= j < k ==> bits_lt((#[trigger] groups@[j]).checks@, job.checks@),
                decreases groups.len() - k,
            {
                k = k + 1;
            }
            let one = Group {
                checks: job.checks.clone(),
                deadline: job.deadline,
                members: vec![job.token],
            };
            proof {
                assert(items(pending@)[token] == job@);
                lemma_gather_one(items(pending@), token);
                assert(one.members@[0] == token);
                assert(one.members@ =~= seq![token]);
                assert(one.members@.to_set() =~= set![token]);
                assert(one@ == team_of(items(pending@), set![token]));
                assert forall|j: int| 0 <= j < k implies bits_lt(
                    (#[trigger] before[j]).shape.checks,
                    job.checks@,
                ) by {
                    assert(before[j] == groups@[j]@);
                }
            }
            if k < groups.len() && groups[k].checks.same(&job.checks) {
                let both = groups[k].merge(&one);
                groups.set(k, both);
                proof {
                    let after = teams(groups@);
                    assert(after =~= before.update(k as int, merge(before[k as int], one@)));
                    lemma_patterns_join(
                        before,
                        after,
                        items(pending@),
                        known,
                        token,
                        k as int,
                    );
                    assert(both.checks@ =~= job.checks@);
                    lemma_rosters_join(
                        old_groups,
                        groups@,
                        items(pending@),
                        tokens@.take(i as int),
                        token,
                        k as int,
                    );
                }
            } else {
                proof {
                    assert forall|j: int| k <= j < before.len() implies bits_lt(
                        job.checks@,
                        (#[trigger] before[j]).shape.checks,
                    ) by {
                        assert(before[k as int] == groups@[k as int]@);
                        crate::bits::lemma_bits_total(job.checks@, before[k as int].shape.checks);
                        if k < j {
                            crate::bits::lemma_bits_transitive(
                                job.checks@,
                                before[k as int].shape.checks,
                                before[j].shape.checks,
                            );
                        }
                    }
                }
                groups.insert(k, one);
                proof {
                    let after = teams(groups@);
                    assert(after =~= before.insert(k as int, one@));
                    lemma_patterns_new(
                        before,
                        after,
                        items(pending@),
                        known,
                        token,
                        k as int,
                    );
                    lemma_rosters_new(
                        old_groups,
                        groups@,
                        items(pending@),
                        tokens@.take(i as int),
                        token,
                        k as int,
                    );
                }
            }
        }
        i = i + 1;
    }
    assert(tokens@.take(i as int) =~= tokens@);
    proof {
        lemma_patterns_unique(teams(groups@), items(pending@), tokens@.to_set());
        assert(rosters(groups@) =~= pattern_lists(items(pending@), tokens@)) by {
            assert forall|k: int| 0 <= k < groups.len() implies rosters(groups@)[k]
                == pattern_lists(items(pending@), tokens@)[k] by {
                assert(teams(groups@)[k] == groups@[k]@);
            }
        }
    }
    groups
}

} // verus!
