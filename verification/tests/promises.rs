use ci_batch_scheduler::cli::{options, Options};
use ci_batch_scheduler::{simulate, CheckCosts, Fault, Job, Policy, Schedule, Stats, Workload};

fn catalog(costs: &[(&str, u64)]) -> CheckCosts {
    let mut catalog = CheckCosts::new();
    for (name, cost) in costs {
        catalog.insert(name.to_string(), *cost);
    }
    catalog
}

fn job(id: &str, repo: &str, at: u64, checks: &[&str]) -> Job {
    Job {
        job_id: id.into(),
        repo: repo.into(),
        arrived_at_s: at,
        checks: checks.iter().map(|c| c.to_string()).collect(),
    }
}

fn workload(jobs: Vec<Job>) -> Workload {
    Workload {
        boot_s: 10,
        sla_s: 60,
        check_costs_s: catalog(&[("x", 20), ("y", 10), ("z", 10)]),
        jobs,
    }
}

fn shown(schedule: &Schedule) -> Vec<(u64, Vec<&str>)> {
    schedule
        .batches
        .iter()
        .map(|b| {
            (
                b.launched_at_s,
                b.job_ids.iter().map(String::as_str).collect(),
            )
        })
        .collect()
}

fn refusal(w: Workload) -> String {
    simulate(w, Policy::Cost).unwrap_err().message()
}

// The example of the two policies.

fn example() -> Workload {
    workload(vec![
        job("A", "r", 0, &["x"]),
        job("B", "r", 0, &["y"]),
        job("C", "r", 20, &["y", "z"]),
    ])
}

#[test]
fn the_cost_policy_regroups_to_save_time() {
    let (schedule, stats) = simulate(example(), Policy::Cost).unwrap();
    assert_eq!(
        shown(&schedule),
        vec![(30, vec!["A"]), (30, vec!["B", "C"])]
    );
    assert_eq!(
        stats,
        Stats {
            planning_calls: 2,
            exact_searches: 1,
            bounded_searches: 0,
            search_nodes: 0,
            search_budget_exhaustions: 0,
            peak_pending_patterns: 3,
        }
    );
}

#[test]
fn the_count_policy_keeps_its_batches() {
    let (schedule, stats) = simulate(example(), Policy::Count).unwrap();
    assert_eq!(
        shown(&schedule),
        vec![(20, vec!["A", "B"]), (50, vec!["C"])]
    );
    assert_eq!(stats.exact_searches, 0);
    assert_eq!(Policy::default(), Policy::Cost);
}

#[test]
fn without_later_jobs_the_first_batch_is_as_planned() {
    let mut w = example();
    w.jobs.pop();
    let (schedule, _) = simulate(w, Policy::Cost).unwrap();
    assert_eq!(shown(&schedule), vec![(20, vec!["A", "B"])]);
}

#[test]
fn jobs_after_a_launch_do_not_change_it() {
    let mut w = example();
    w.jobs[2].arrived_at_s = 21;
    let (schedule, _) = simulate(w, Policy::Cost).unwrap();
    assert_eq!(
        shown(&schedule),
        vec![(20, vec!["A", "B"]), (51, vec!["C"])]
    );
}

#[test]
fn a_batch_starts_just_in_time_for_its_most_urgent_job() {
    let w = workload(vec![job("A", "r", 7, &["x"]), job("B", "r", 9, &["x"])]);
    let (schedule, _) = simulate(w, Policy::Cost).unwrap();
    assert_eq!(shown(&schedule), vec![(37, vec!["A", "B"])]);
}

#[test]
fn a_launch_takes_along_what_it_satisfies_for_free() {
    // When A and B start together, C's checks are covered, and C is on time.
    let w = Workload {
        boot_s: 10,
        sla_s: 60,
        check_costs_s: catalog(&[("x", 20), ("y", 20), ("z", 30)]),
        jobs: vec![
            job("A", "r", 0, &["x", "y"]),
            job("B", "r", 5, &["y", "z"]),
            job("C", "r", 6, &["y"]),
        ],
    };
    let (schedule, _) = simulate(w, Policy::Cost).unwrap();
    assert_eq!(
        shown(&schedule),
        vec![(5, vec!["B"]), (10, vec!["A", "C"])]
    );
}

#[test]
fn names_and_order_of_jobs_and_checks_do_not_matter() {
    let (first, one) = simulate(example(), Policy::Cost).unwrap();
    let w = workload(vec![
        job("3", "r", 20, &["z", "y", "z"]),
        job("2", "r", 0, &["y", "y"]),
        job("1", "r", 0, &["x"]),
    ]);
    let (second, other) = simulate(w, Policy::Cost).unwrap();
    assert_eq!(shown(&first), vec![(30, vec!["A"]), (30, vec!["B", "C"])]);
    assert_eq!(shown(&second), vec![(30, vec!["1"]), (30, vec!["3", "2"])]);
    assert_eq!(one, other);
}

#[test]
fn each_repository_is_served_as_if_alone() {
    let mut w = example();
    for i in 0..3 {
        let mut copy = w.jobs[i].clone();
        copy.job_id = format!("{}2", copy.job_id);
        copy.repo = "a".into();
        copy.arrived_at_s += 5;
        w.jobs.push(copy);
    }
    let (schedule, _) = simulate(w, Policy::Cost).unwrap();
    assert_eq!(
        shown(&schedule),
        vec![
            (30, vec!["A"]),
            (30, vec!["B", "C"]),
            (35, vec!["A2"]),
            (35, vec!["B2", "C2"])
        ]
    );
}

#[test]
fn jobs_known_at_once_get_the_fewest_machines_in_the_least_time() {
    // Two machines are needed; sharing y saves ten seconds.
    let w = workload(vec![
        job("A", "r", 0, &["x", "y"]),
        job("B", "r", 0, &["z"]),
        job("C", "r", 0, &["x"]),
        job("D", "r", 0, &["y", "z"]),
    ]);
    let (schedule, _) = simulate(w, Policy::Cost).unwrap();
    assert_eq!(shown(&schedule), vec![(10, vec!["A", "B", "C", "D"])]);
    let mut w = example();
    w.sla_s = 45;
    w.jobs[2].arrived_at_s = 0;
    let (schedule, _) = simulate(w, Policy::Cost).unwrap();
    assert_eq!(
        shown(&schedule),
        vec![(15, vec!["A"]), (15, vec!["B", "C"])]
    );
}

#[test]
fn few_patterns_are_searched_in_full_and_many_not_at_all() {
    let mut few = workload(Vec::new());
    let mut many = workload(Vec::new());
    for i in 0..70 {
        let name = format!("c{i:02}");
        few.check_costs_s.insert(name.clone(), 26);
        many.check_costs_s.insert(name.clone(), 17);
        let one = job(&name, "r", 0, &[name.as_str()]);
        if i < 12 {
            few.jobs.push(one.clone());
        }
        many.jobs.push(one);
    }
    // No two share a machine, which the bound shows.
    let (schedule, stats) = simulate(few, Policy::Cost).unwrap();
    assert_eq!(schedule.batches.len(), 12);
    assert_eq!(stats.exact_searches, 0);
    assert_eq!(stats.peak_pending_patterns, 12);
    // Two share a machine and three do not; the bound does not show it.
    let (schedule, stats) = simulate(many, Policy::Cost).unwrap();
    assert_eq!(schedule.batches.len(), 35);
    assert_eq!(stats.peak_pending_patterns, 70);
    assert_eq!(stats.bounded_searches, 1);
    assert_eq!(stats.search_nodes, 0);
    assert_eq!(stats.search_budget_exhaustions, 1);
}

// What is refused.

#[test]
fn refusals_say_which_job_and_why() {
    let mut w = example();
    w.jobs[2].job_id = "A".into();
    assert_eq!(refusal(w), "duplicate job ID: \"A\"");
    let mut w = example();
    w.jobs[1].checks = vec!["y".into(), "no".into(), "never".into()];
    assert_eq!(refusal(w), "job \"B\" references unknown check \"no\"");
    let mut w = example();
    w.sla_s = 29;
    assert_eq!(
        refusal(w),
        "job \"A\" cannot meet its deadline even when launched immediately"
    );
    let mut w = example();
    w.jobs[1].arrived_at_s = u64::MAX - 59;
    assert_eq!(refusal(w), "deadline overflows u64 for job \"B\"");
    let mut w = example();
    w.jobs[1].arrived_at_s = u64::MAX - 60;
    assert!(simulate(w, Policy::Cost).is_ok());
}

#[test]
fn names_in_refusals_are_quoted_and_escaped() {
    let w = workload(vec![job("a\"b\n", "r", 0, &["\t\\"])]);
    assert_eq!(
        refusal(w),
        "job \"a\\\"b\\n\" references unknown check \"\\t\\\\\""
    );
}

#[test]
fn the_first_job_with_something_wrong_is_refused() {
    let mut w = example();
    w.jobs[1].checks = vec!["no".into()];
    w.jobs[2].job_id = "A".into();
    let error = simulate(w, Policy::Cost).unwrap_err();
    match error.0 {
        Fault::UnknownCheck { job, check } => assert_eq!((job.as_str(), check.as_str()), ("B", "no")),
        other => panic!("{other:?}"),
    }
    // A repeated ID comes before anything else wrong with the same job.
    let mut w = example();
    w.jobs[1] = job("A", "r", u64::MAX, &["no"]);
    match simulate(w, Policy::Cost).unwrap_err().0 {
        Fault::DuplicateJob { job } => assert_eq!(job, "A"),
        other => panic!("{other:?}"),
    }
    // Too much work comes before a deadline beyond the end of time.
    let mut w = example();
    w.sla_s = 29;
    w.jobs[0].arrived_at_s = u64::MAX;
    match simulate(w, Policy::Cost).unwrap_err().0 {
        Fault::TooLong { job } => assert_eq!(job, "A"),
        other => panic!("{other:?}"),
    }
    let mut w = example();
    w.jobs[0].arrived_at_s = u64::MAX;
    match simulate(w, Policy::Cost).unwrap_err().0 {
        Fault::DeadlineOverflow { job } => assert_eq!(job, "A"),
        other => panic!("{other:?}"),
    }
}

#[test]
fn a_job_that_just_fits_is_accepted() {
    let mut w = example();
    w.jobs.truncate(1);
    w.sla_s = 30;
    let (schedule, _) = simulate(w, Policy::Cost).unwrap();
    assert_eq!(shown(&schedule), vec![(0, vec!["A"])]);
}

// The command line.

fn given(args: &[&str]) -> Result<Option<Options>, String> {
    options(&args.iter().map(|a| Some(a.to_string())).collect())
}

fn chosen(input: usize, policy: Policy, stats: bool) -> Result<Option<Options>, String> {
    Ok(Some(Options {
        input,
        policy,
        stats,
    }))
}

#[test]
fn arguments_choose_input_policy_and_diagnostics() {
    assert_eq!(given(&["in.json"]), chosen(0, Policy::Cost, false));
    assert_eq!(given(&["-"]), chosen(0, Policy::Cost, false));
    assert_eq!(given(&[""]), chosen(0, Policy::Cost, false));
    assert_eq!(
        given(&["--policy", "count", "in.json", "--stats"]),
        chosen(2, Policy::Count, true)
    );
    assert_eq!(
        given(&["--policy", "count", "--policy", "cost", "in.json"]),
        chosen(4, Policy::Cost, false)
    );
    assert_eq!(given(&["--", "--stats"]), chosen(1, Policy::Cost, false));
    assert_eq!(
        options(&vec![Some("--stats".into()), None]),
        chosen(1, Policy::Cost, true)
    );
}

#[test]
fn help_is_given_when_asked_for() {
    assert_eq!(given(&["-h"]), Ok(None));
    assert_eq!(given(&["in.json", "--help", "--unknown"]), Ok(None));
    assert_eq!(given(&["--", "-h"]), chosen(1, Policy::Cost, false));
}

#[test]
fn bad_arguments_are_refused() {
    let refused = |text: &str| Err(text.to_string());
    assert_eq!(given(&[]), refused("missing input path"));
    assert_eq!(given(&["--stats"]), refused("missing input path"));
    assert_eq!(given(&["--"]), refused("missing input path"));
    assert_eq!(given(&["--unknown"]), refused("unknown option: --unknown"));
    assert_eq!(given(&["-x", "in"]), refused("unknown option: -x"));
    assert_eq!(
        given(&["--policy", "invalid"]),
        refused("--policy requires cost or count")
    );
    assert_eq!(
        given(&["in", "--policy"]),
        refused("--policy requires cost or count")
    );
    assert_eq!(
        options(&vec![Some("--policy".into()), None]),
        refused("--policy requires cost or count")
    );
    assert_eq!(
        given(&["one", "two"]),
        refused("expected exactly one input path")
    );
    assert_eq!(
        given(&["--", "one", "--policy"]),
        refused("expected exactly one input path")
    );
}
