use std::collections::BTreeMap;

use ci_batch_scheduler::checks::{Checks, Costs};
use ci_batch_scheduler::exact::exact_partition;
use ci_batch_scheduler::group::{patterns, summarize, Group, Pending};
use ci_batch_scheduler::model::Arrival;
use ci_batch_scheduler::planner::{insert, lower_bound, plan, score};
use ci_batch_scheduler::scheduler::Scheduler;
use ci_batch_scheduler::search::improve;
use ci_batch_scheduler::{Batch, CheckCosts, Policy, Schedule, Stats};

fn checks(list: &[usize]) -> Checks {
    Checks(list.to_vec())
}

fn pending(token: usize, deadline: u64, list: &[usize]) -> Pending {
    Pending {
        token,
        deadline,
        checks: checks(list),
    }
}

fn waiting(jobs: Vec<Pending>) -> BTreeMap<usize, Pending> {
    jobs.into_iter().map(|job| (job.token, job)).collect()
}

fn group(list: &[usize], deadline: u64, members: &[usize]) -> Group {
    Group {
        checks: checks(list),
        deadline,
        members: members.to_vec(),
    }
}

/// Checks, deadline and members of each batch, in the order given.
fn shown(groups: &[Group]) -> Vec<(Vec<usize>, u64, Vec<usize>)> {
    groups
        .iter()
        .map(|g| (g.checks.0.clone(), g.deadline, g.members.clone()))
        .collect()
}

/// Startup takes 10 seconds; checks 0, 1 and 2 take 20, 10 and 10.
fn costs() -> Costs {
    Costs {
        boot: 10,
        checks: vec![20, 10, 10],
    }
}

#[test]
fn unions_are_sorted_and_distinct() {
    assert_eq!(checks(&[0, 3]).union(&checks(&[1, 3, 7])).0, vec![0, 1, 3, 7]);
    assert_eq!(checks(&[]).union(&checks(&[2])).0, vec![2]);
    assert_eq!(checks(&[2]).union(&checks(&[])).0, vec![2]);
    assert_eq!(checks(&[5]).union(&checks(&[4])).0, vec![4, 5]);
    assert!(Checks::default().0.is_empty());
}

#[test]
fn subsets_are_told_from_others() {
    assert!(checks(&[]).is_subset(&checks(&[])));
    assert!(checks(&[]).is_subset(&checks(&[1])));
    assert!(checks(&[1, 4]).is_subset(&checks(&[0, 1, 2, 4])));
    assert!(!checks(&[1, 3]).is_subset(&checks(&[0, 1, 2, 4])));
    assert!(!checks(&[1]).is_subset(&checks(&[])));
    assert!(!checks(&[5]).is_subset(&checks(&[4])));
}

#[test]
fn checks_are_ordered_as_numerals() {
    let listed = [
        checks(&[]),
        checks(&[0]),
        checks(&[1]),
        checks(&[0, 1]),
        checks(&[2]),
        checks(&[0, 2]),
        checks(&[1, 2]),
        checks(&[0, 1, 2]),
        checks(&[3]),
    ];
    for (i, a) in listed.iter().enumerate() {
        for (j, b) in listed.iter().enumerate() {
            assert_eq!(a.precedes(b), i < j);
            assert_eq!(a.same(b), i == j);
        }
    }
}

#[test]
fn durations_are_exact_and_never_wrap() {
    let costs = costs();
    assert_eq!(costs.work(&checks(&[])), 0);
    assert_eq!(costs.work(&checks(&[0, 2])), 30);
    assert_eq!(costs.duration(&checks(&[0, 2])), 40);
    assert_eq!(costs.latest(&checks(&[0, 2]), 60), Some(20));
    assert_eq!(costs.latest(&checks(&[0, 2]), 40), Some(0));
    assert_eq!(costs.latest(&checks(&[0, 2]), 39), None);
    let wide = Costs {
        boot: u64::MAX,
        checks: vec![u64::MAX, u64::MAX],
    };
    assert_eq!(wide.duration(&checks(&[0, 1])), 3 * u128::from(u64::MAX));
    assert_eq!(wide.latest(&checks(&[0, 1]), u64::MAX), None);
    assert_eq!(wide.latest(&checks(&[]), u64::MAX), Some(0));
}

#[test]
fn merging_unites_checks_and_takes_the_earlier_deadline() {
    let a = group(&[0], 60, &[4, 1]);
    let b = group(&[1, 2], 50, &[2]);
    let both = a.merge(&b);
    assert_eq!(both.checks.0, vec![0, 1, 2]);
    assert_eq!(both.deadline, 50);
    assert_eq!(both.members, vec![4, 1, 2]);
    assert_eq!(both.latest(&costs()), 0);
    assert_eq!(a.latest(&costs()), 30);
}

#[test]
fn summaries_leave_out_jobs_that_are_gone() {
    let jobs = waiting(vec![pending(1, 60, &[0]), pending(5, 40, &[1])]);
    let both = summarize(&jobs, &vec![5, 3, 1]).unwrap();
    assert_eq!(both.checks.0, vec![0, 1]);
    assert_eq!(both.deadline, 40);
    assert_eq!(both.members, vec![5, 1]);
    assert!(summarize(&jobs, &vec![2, 3]).is_none());
    assert!(summarize(&jobs, &vec![]).is_none());
}

#[test]
fn equal_check_sets_are_one_pattern_with_the_earliest_deadline() {
    let jobs = waiting(vec![
        pending(0, 80, &[1, 2]),
        pending(1, 60, &[0]),
        pending(2, 70, &[1, 2]),
        pending(3, 90, &[0]),
    ]);
    let all = patterns(&jobs, &vec![0, 1, 2, 3]);
    assert_eq!(
        shown(&all),
        vec![(vec![0], 60, vec![1, 3]), (vec![1, 2], 70, vec![0, 2])]
    );
    let some = patterns(&jobs, &vec![0]);
    assert_eq!(shown(&some), vec![(vec![1, 2], 80, vec![0])]);
}

#[test]
fn scores_count_batches_and_machine_seconds() {
    assert_eq!(score(&vec![], &costs()), (0, 0));
    let groups = vec![group(&[0], 60, &[0]), group(&[1, 2], 60, &[1])];
    assert_eq!(score(&groups, &costs()), (2, 60));
}

#[test]
fn insertion_goes_to_the_cheapest_batch_that_has_time() {
    let mut groups = vec![group(&[0], 80, &[0]), group(&[1], 80, &[1])];
    insert(&mut groups, vec![group(&[1, 2], 80, &[2])], &costs(), 0);
    assert_eq!(
        shown(&groups),
        vec![(vec![0], 80, vec![0]), (vec![1, 2], 80, vec![1, 2])]
    );
    // No batch has time left for more work.
    insert(&mut groups, vec![group(&[0, 1], 90, &[3])], &costs(), 45);
    assert_eq!(
        shown(&groups),
        vec![
            (vec![0], 80, vec![0]),
            (vec![1, 2], 80, vec![1, 2]),
            (vec![0, 1], 90, vec![3])
        ]
    );
}

#[test]
fn insertion_ties_go_to_the_more_urgent_batch() {
    let mut groups = vec![group(&[1], 90, &[0]), group(&[2], 80, &[1])];
    insert(&mut groups, vec![group(&[0], 100, &[2])], &costs(), 0);
    assert_eq!(
        shown(&groups),
        vec![(vec![1], 90, vec![0]), (vec![0, 2], 80, vec![1, 2])]
    );
}

#[test]
fn the_bound_counts_work_and_patterns_that_cannot_share() {
    // Any two of these take 70 seconds together, and have 60.
    let big = Costs {
        boot: 10,
        checks: vec![30, 30, 30],
    };
    let apart = vec![
        group(&[0], 60, &[0]),
        group(&[1], 60, &[1]),
        group(&[2], 60, &[2]),
    ];
    assert_eq!(lower_bound(&apart, &big, 0), (3, 120));
    // All can share in pairs, but 90 seconds of work need two machines.
    let small = Costs {
        boot: 10,
        checks: vec![18, 18, 18, 18, 18],
    };
    let many: Vec<Group> = (0..5).map(|i| group(&[i], 60, &[i])).collect();
    assert_eq!(lower_bound(&many, &small, 0), (2, 110));
    // No time is left for any work.
    let idle = vec![group(&[], 10, &[0])];
    assert_eq!(lower_bound(&idle, &costs(), 0), (1, 10));
}

#[test]
fn exact_partitions_are_best_then_latest_to_start() {
    let all = vec![
        group(&[0], 60, &[0]),
        group(&[1], 60, &[1]),
        group(&[1, 2], 80, &[2]),
    ];
    assert_eq!(
        shown(&exact_partition(&all, &costs(), 20)),
        vec![(vec![0], 60, vec![0]), (vec![1, 2], 60, vec![1, 2])]
    );
    // Both ways of pairing cost the same; the one that can wait longer is taken.
    let even = Costs {
        boot: 10,
        checks: vec![10, 10, 30],
    };
    let three = vec![
        group(&[0], 50, &[0]),
        group(&[1], 60, &[1]),
        group(&[2], 60, &[2]),
    ];
    assert_eq!(
        shown(&exact_partition(&three, &even, 10)),
        vec![(vec![0, 1], 50, vec![0, 1]), (vec![2], 60, vec![2])]
    );
}

#[test]
fn improvement_finds_what_greed_misses_and_counts_its_steps() {
    let weights = [50, 30, 30, 25, 25, 15, 15, 10, 10, 10, 10, 10, 10];
    let costs = Costs {
        boot: 10,
        checks: weights.to_vec(),
    };
    let all: Vec<Group> = (0..13).map(|i| group(&[i], 60, &[i])).collect();
    let mut greedy: Vec<Group> = Vec::new();
    insert(
        &mut greedy,
        (0..13).map(|i| group(&[i], 60, &[i])).collect(),
        &costs,
        0,
    );
    let before = score(&greedy, &costs);
    let mut stats = Stats::default();
    let better = improve(&all, &costs, 0, greedy, &mut stats);
    assert!(before > (5, 300));
    assert_eq!(score(&better, &costs), (5, 300));
    assert!(stats.search_nodes > 0 && stats.search_nodes <= 30_000);
    assert_eq!(stats.search_budget_exhaustions, 0);
    assert_eq!(stats.planning_calls, 0);
}

#[test]
fn improvement_returns_an_unbeatable_plan_untouched() {
    let all = vec![group(&[0], 60, &[0]), group(&[1], 60, &[1])];
    let initial = vec![group(&[0, 1], 60, &[1, 0])];
    let mut stats = Stats::default();
    let same = improve(&all, &costs(), 0, initial, &mut stats);
    assert_eq!(same[0].members, vec![1, 0]);
    assert_eq!(stats, Stats::default());
}

#[test]
fn plans_keep_their_batches_unless_rearranging_pays() {
    let jobs = waiting(vec![
        pending(0, 60, &[0]),
        pending(1, 60, &[1]),
        pending(2, 80, &[1, 2]),
    ]);
    let previous = vec![group(&[0, 1], 60, &[0, 1])];
    let mut stats = Stats::default();
    let stable = plan(&jobs, &previous, &costs(), 20, Policy::Count, &mut stats);
    assert_eq!(
        shown(&stable),
        vec![(vec![0, 1], 60, vec![0, 1]), (vec![1, 2], 80, vec![2])]
    );
    assert_eq!(stats.planning_calls, 1);
    assert_eq!(stats.exact_searches, 0);
    assert_eq!(stats.peak_pending_patterns, 3);
    let cheaper = plan(&jobs, &previous, &costs(), 20, Policy::Cost, &mut stats);
    assert_eq!(
        shown(&cheaper),
        vec![(vec![0], 60, vec![0]), (vec![1, 2], 60, vec![1, 2])]
    );
    assert_eq!(stats.planning_calls, 2);
    assert_eq!(stats.exact_searches, 1);
}

#[test]
fn ties_do_not_move_jobs() {
    // Three like jobs, any two of which fit one machine.
    let even = Costs {
        boot: 10,
        checks: vec![20, 20, 20],
    };
    let jobs = waiting(vec![
        pending(0, 60, &[0]),
        pending(1, 60, &[1]),
        pending(2, 60, &[2]),
    ]);
    for policy in [Policy::Cost, Policy::Count] {
        for pair in [[0, 1], [0, 2], [1, 2]] {
            let alone = 3 - pair[0] - pair[1];
            let previous = vec![
                group(&[alone], 60, &[alone]),
                group(&[pair[0], pair[1]], 60, &[pair[0], pair[1]]),
            ];
            let mut stats = Stats::default();
            let made = plan(&jobs, &previous, &even, 0, policy, &mut stats);
            assert_eq!(shown(&made), shown(&previous));
        }
    }
}

fn arrival(at: u64, repo: &str, job: Pending) -> Arrival {
    Arrival {
        at,
        repo: repo.into(),
        job,
    }
}

#[test]
fn timers_follow_the_plan() {
    let mut scheduler = Scheduler::new(costs(), Policy::Cost);
    assert_eq!(scheduler.next_wake(), None);
    scheduler.arrive(
        0,
        vec![
            arrival(0, "r", pending(0, 60, &[0])),
            arrival(0, "r", pending(1, 60, &[1])),
        ],
    );
    assert_eq!(scheduler.next_wake(), Some(20));
    scheduler.advance(20, false);
    assert_eq!(scheduler.next_wake(), Some(20));
    scheduler.arrive(20, vec![arrival(20, "r", pending(2, 80, &[1, 2]))]);
    assert_eq!(scheduler.next_wake(), Some(30));
    scheduler.advance(29, true);
    assert_eq!(scheduler.next_wake(), Some(30));
    scheduler.advance(30, true);
    assert_eq!(scheduler.next_wake(), None);
    let (schedule, stats) = scheduler.output(&vec!["A".into(), "B".into(), "C".into()]);
    assert_eq!(
        schedule,
        Schedule {
            batches: vec![
                Batch {
                    launched_at_s: 30,
                    job_ids: vec!["A".into()]
                },
                Batch {
                    launched_at_s: 30,
                    job_ids: vec!["B".into(), "C".into()]
                },
            ]
        }
    );
    assert_eq!(
        stats,
        Stats {
            planning_calls: 2,
            exact_searches: 1,
            bounded_searches: 0,
            search_nodes: 0,
            search_budget_exhaustions: 0,
            peak_pending_patterns: 3,
        }
    );
}

#[test]
fn simultaneous_timers_ring_in_order_of_name() {
    let mut scheduler = Scheduler::new(costs(), Policy::Cost);
    scheduler.arrive(
        0,
        vec![
            arrival(0, "b", pending(0, 60, &[0])),
            arrival(0, "a", pending(1, 60, &[0])),
        ],
    );
    assert_eq!(scheduler.next_wake(), Some(30));
    scheduler.advance(30, true);
    let (schedule, _) = scheduler.output(&vec!["in b".into(), "in a".into()]);
    let ids: Vec<_> = schedule.batches.iter().map(|b| &b.job_ids[0]).collect();
    assert_eq!(ids, ["in a", "in b"]);
}

#[test]
fn catalogs_replace_and_find() {
    let mut catalog = CheckCosts::new();
    assert_eq!(catalog.get("a"), None);
    catalog.insert("b".into(), 2);
    catalog.insert("a".into(), 1);
    catalog.insert("c".into(), 3);
    catalog.insert("b".into(), 20);
    assert_eq!(catalog.get("a"), Some(1));
    assert_eq!(catalog.get("b"), Some(20));
    assert_eq!(catalog.get("c"), Some(3));
    assert_eq!(catalog.get("d"), None);
    assert_eq!(catalog.get(""), None);
    assert_eq!(catalog.position("a"), Some(0));
    assert_eq!(catalog.position("c"), Some(2));
    assert_eq!(catalog.position("d"), None);
    assert_eq!(catalog.costs(), vec![1, 20, 3]);
    assert_eq!(catalog.clone().costs(), vec![1, 20, 3]);
    assert!(CheckCosts::default().costs().is_empty());
}

#[test]
fn catalog_names_are_in_order_of_their_bytes() {
    let mut catalog = CheckCosts::new();
    let names = ["é", "z", "Z", "zz", "\u{ffff}", "\u{10000}", ""];
    for (i, name) in names.iter().enumerate() {
        catalog.insert(name.to_string(), i as u64);
    }
    let sorted: BTreeMap<String, u64> = names
        .iter()
        .enumerate()
        .map(|(i, name)| (name.to_string(), i as u64))
        .collect();
    assert_eq!(catalog.costs(), sorted.values().copied().collect::<Vec<_>>());
}

// Member lists.

#[test]
fn newcomers_stand_behind_the_members_of_their_host() {
    let mut groups = vec![group(&[0], 60, &[0]), group(&[1, 2], 80, &[2])];
    insert(&mut groups, vec![group(&[1], 60, &[1])], &costs(), 20);
    assert_eq!(
        shown(&groups),
        vec![(vec![0], 60, vec![0]), (vec![1, 2], 60, vec![2, 1])]
    );
}

#[test]
fn exact_ties_go_to_the_later_first_start() {
    let even = Costs {
        boot: 10,
        checks: vec![10, 10, 10],
    };
    let all = vec![
        group(&[0], 60, &[0]),
        group(&[1], 60, &[1]),
        group(&[2], 35, &[2]),
    ];
    assert_eq!(
        shown(&exact_partition(&all, &even, 0)),
        vec![(vec![0, 1], 60, vec![0, 1]), (vec![2], 35, vec![2])]
    );
}

#[test]
fn exact_batches_list_their_patterns_in_turn() {
    let all = vec![
        group(&[0], 60, &[7, 3]),
        group(&[1], 60, &[9]),
        group(&[1, 2], 80, &[5, 1]),
    ];
    assert_eq!(
        shown(&exact_partition(&all, &costs(), 20)),
        vec![(vec![0], 60, vec![7, 3]), (vec![1, 2], 60, vec![9, 5, 1])]
    );
}

#[test]
fn improvement_lists_its_patterns_in_the_order_of_the_search() {
    let all = vec![
        group(&[0], 60, &[0]),
        group(&[1], 60, &[1]),
        group(&[1, 2], 80, &[2]),
    ];
    let initial = vec![group(&[0, 1], 60, &[0, 1]), group(&[1, 2], 80, &[2])];
    let mut stats = Stats::default();
    let better = improve(&all, &costs(), 20, initial, &mut stats);
    assert_eq!(
        shown(&better),
        vec![(vec![0], 60, vec![0]), (vec![1, 2], 60, vec![1, 2])]
    );
    assert_eq!(
        stats,
        Stats {
            search_nodes: 6,
            ..Stats::default()
        }
    );
}

#[test]
fn above_the_pattern_limit_the_initial_plan_comes_back() {
    let wide = Costs {
        boot: 10,
        checks: vec![17; 66],
    };
    let all: Vec<Group> = (0..66).map(|i| group(&[i], 60, &[i])).collect();
    let pairs = || -> Vec<Group> {
        (0..33)
            .map(|i| group(&[2 * i, 2 * i + 1], 60, &[2 * i + 1, 2 * i]))
            .collect()
    };
    let mut stats = Stats::default();
    let same = improve(&all, &wide, 0, pairs(), &mut stats);
    assert_eq!(shown(&same), shown(&pairs()));
    assert_eq!(
        stats,
        Stats {
            search_budget_exhaustions: 1,
            ..Stats::default()
        }
    );
}

#[test]
fn many_equal_jobs_are_one_pattern_in_input_order() {
    let jobs = waiting((0..10_000).map(|i| pending(i, 60, &[0])).collect());
    let order: Vec<usize> = (0..10_000).collect();
    let all = patterns(&jobs, &order);
    assert_eq!(shown(&all), vec![(vec![0], 60, order)]);
}

#[test]
fn a_kept_batch_keeps_its_list_without_those_who_are_gone() {
    let jobs = waiting(vec![
        pending(1, 60, &[0]),
        pending(4, 60, &[1]),
        pending(6, 60, &[1]),
    ]);
    let previous = vec![group(&[0, 1], 60, &[4, 2, 1])];
    for policy in [Policy::Cost, Policy::Count] {
        let mut stats = Stats::default();
        let made = plan(&jobs, &previous, &costs(), 0, policy, &mut stats);
        assert_eq!(shown(&made), vec![(vec![0, 1], 60, vec![4, 1, 6])]);
    }
}

#[test]
fn planning_again_changes_nothing() {
    let jobs = waiting(vec![
        pending(0, 60, &[0]),
        pending(1, 60, &[1]),
        pending(2, 80, &[1, 2]),
        pending(3, 80, &[2]),
    ]);
    let previous = vec![group(&[0, 1], 60, &[1, 0])];
    for policy in [Policy::Cost, Policy::Count] {
        let mut stats = Stats::default();
        let once = plan(&jobs, &previous, &costs(), 20, policy, &mut stats);
        let twice = plan(&jobs, &once, &costs(), 20, policy, &mut stats);
        assert_eq!(shown(&twice), shown(&once));
    }
}
