use z3_sched::{build_schedule, is_well_formed, AllOf, Commit, Outcome, Schedule};

fn plan(calls: &[(&str, bool)], cost_ceil: i64) -> AllOf {
    AllOf {
        service_instances: calls.iter().map(|(id, req)| (id.to_string(), *req)).collect(),
        cost_ceil,
    }
}

fn one_plan(calls: &[(&str, bool)], cost_ceil: i64) -> Commit {
    Commit { allofs: vec![plan(calls, cost_ceil)] }
}

fn scheduled(commits: Vec<Commit>) -> Schedule {
    assert!(is_well_formed(&commits));
    match build_schedule(commits) {
        Ok(Outcome::Scheduled(s)) => s,
        other => panic!("no schedule: {:?}", other),
    }
}

fn unsatisfiable(commits: Vec<Commit>) -> bool {
    assert!(is_well_formed(&commits));
    matches!(build_schedule(commits), Ok(Outcome::Unsatisfiable))
}

fn accepted(s: &Schedule) -> usize {
    s.commits.iter().filter(|c| **c).count()
}

fn price(s: &Schedule, key: &str) -> i64 {
    s.prices.iter().find(|(k, _)| k == key).unwrap().1
}

#[test]
fn single_demand_without_supply_is_unsatisfiable() {
    assert!(unsatisfiable(vec![one_plan(&[("abcde-0", true)], 10)]));
}

#[test]
fn single_supply_without_demand_is_unsatisfiable() {
    assert!(unsatisfiable(vec![one_plan(&[("abcde-0", false)], 10)]));
}

#[test]
fn demand_is_matched_by_supply_of_another_commitment() {
    let s = scheduled(vec![
        one_plan(&[("abcde-0", true)], 100),
        one_plan(&[("abcde-0", false)], -50),
    ]);
    assert_eq!(s.commits, vec![true, true]);
    assert_eq!(s.allofs, vec![vec![true], vec![true]]);
    assert_eq!(s.s_calls, vec![vec![vec![true]], vec![vec![true]]]);
    assert_eq!(s.prices.len(), 1);
    assert_eq!(s.prices[0].0, "abcde");
    assert!(50 <= s.prices[0].1 && s.prices[0].1 <= 100);
}

#[test]
fn budgets_that_contradict_each_other_leave_no_schedule() {
    assert!(unsatisfiable(vec![
        one_plan(&[("abcde-0", true)], 10),
        one_plan(&[("abcde-0", false)], -50),
    ]));
}

#[test]
fn budget_binds_a_plan_that_is_not_chosen() {
    // The second plan of the first commitment can never be chosen, for
    // nothing supplies "zz-0"; its ceiling still bounds the price of "zz".
    let s = scheduled(vec![
        Commit { allofs: vec![plan(&[("abcde-0", true)], 100), plan(&[("zz-0", true)], -7)] },
        one_plan(&[("abcde-0", false)], -50),
    ]);
    assert_eq!(s.commits, vec![true, true]);
    assert_eq!(s.allofs[0], vec![true, false]);
    assert!(price(&s, "zz") <= -7);
}

#[test]
fn one_plan_of_two_is_chosen() {
    let s = scheduled(vec![
        Commit { allofs: vec![plan(&[("abcde-0", true)], 100), plan(&[("efgh-0", true)], 100)] },
        one_plan(&[("abcde-0", false)], -50),
        one_plan(&[("efgh-0", false)], -50),
    ]);
    assert!(s.commits[0]);
    assert_eq!(s.allofs[0].iter().filter(|b| **b).count(), 1);
    // The supply of the plan that was not chosen has no demand to answer.
    assert_eq!(accepted(&s), 2);
    assert_eq!(s.commits[1], s.allofs[0][0]);
    assert_eq!(s.commits[2], s.allofs[0][1]);
}

#[test]
fn of_two_offers_for_one_demand_exactly_one_is_taken() {
    let s = scheduled(vec![
        one_plan(&[("abcde-0", true)], 100),
        one_plan(&[("abcde-0", false)], -50),
        one_plan(&[("abcde-0", false)], -50),
    ]);
    assert!(s.commits[0]);
    assert!(s.s_calls[0][0][0]);
    assert_ne!(s.s_calls[1][0][0], s.s_calls[2][0][0]);
    assert_eq!(accepted(&s), 2);
}

fn build_unsat1() -> Vec<Commit> {
    let allof0 = plan(&[("abcde-0", true), ("abcde-1", true)], 10);
    let allof1 = plan(&[("abcde-0", false)], 20);
    let allof2 = plan(&[("abcde-0", false)], 20);
    let commit1 = Commit { allofs: vec![allof0] };
    let commit2 = Commit { allofs: vec![allof1] };
    let commit3 = Commit { allofs: vec![allof2] };
    vec![commit1, commit2, commit3]
}

fn build_sat1() -> Vec<Commit> {
    let allof0 = plan(&[("abcde-0", true)], 100);
    let allof1 = plan(&[("efgh-0", true)], 100);
    let commit1 = Commit { allofs: vec![allof0, allof1] };
    let allof2 = plan(&[("abcde-0", false)], -50);
    let commit2 = Commit { allofs: vec![allof2] };
    let allof3 = plan(&[("abcde-0", false)], -50);
    let commit3 = Commit { allofs: vec![allof3] };
    vec![commit1, commit2, commit3]
}

#[test]
fn three_commitments_with_an_unmet_demand_are_unsatisfiable() {
    assert!(unsatisfiable(build_unsat1()));
}

#[test]
fn two_plans_and_two_offers_of_one_call() {
    let s = scheduled(build_sat1());
    assert_eq!(s.allofs[0], vec![true, false]);
    assert_eq!(s.s_calls[0], vec![vec![true], vec![false]]);
    assert_ne!(s.commits[1], s.commits[2]);
    assert_eq!(accepted(&s), 2);
}

#[test]
fn as_many_commitments_as_possible_are_accepted() {
    // Either pair alone would do; both together is the most.
    let s = scheduled(vec![
        one_plan(&[("abcde-0", true)], 100),
        one_plan(&[("abcde-0", false)], 100),
        one_plan(&[("efgh-0", true)], 100),
        one_plan(&[("efgh-0", false)], 100),
    ]);
    assert_eq!(s.commits, vec![true, true, true, true]);
}

#[test]
fn several_demands_share_one_supply() {
    let s = scheduled(vec![
        one_plan(&[("abcde-0", true)], 100),
        one_plan(&[("abcde-0", true)], 100),
        one_plan(&[("abcde-0", false)], 100),
    ]);
    assert_eq!(s.commits, vec![true, true, true]);
}

#[test]
fn a_plan_takes_all_of_its_calls_or_none() {
    // The first commitment needs both calls; only one is supplied.
    let commits = vec![
        one_plan(&[("abcde-0", true), ("efgh-0", true)], 100),
        one_plan(&[("abcde-0", false)], 100),
    ];
    assert!(unsatisfiable(commits));
    let s = scheduled(vec![
        one_plan(&[("abcde-0", true), ("efgh-0", true)], 100),
        one_plan(&[("abcde-0", false), ("efgh-0", false)], 100),
    ]);
    assert_eq!(s.s_calls, vec![vec![vec![true, true]], vec![vec![true, true]]]);
}

#[test]
fn instances_of_one_service_share_a_price() {
    let s = scheduled(vec![
        one_plan(&[("abcde-0", true), ("abcde-1", true)], 30),
        one_plan(&[("abcde-0", false)], -10),
        one_plan(&[("abcde-1", false)], -15),
    ]);
    assert_eq!(s.commits, vec![true, true, true]);
    assert_eq!(s.prices.len(), 1);
    // twice the price is at most 30, and the price is at least 15
    assert_eq!(price(&s, "abcde"), 15);
}

#[test]
fn no_commitments_no_schedule() {
    assert!(matches!(build_schedule(Vec::new()), Ok(Outcome::Unsatisfiable)));
}

#[test]
fn identity_with_several_separators() {
    let s = scheduled(vec![
        one_plan(&[("a-b-c-7", true)], 5),
        one_plan(&[("a-b-c-7", false)], -5),
    ]);
    assert_eq!(s.prices.len(), 1);
    assert_eq!(s.prices[0], ("a-b-c".to_string(), 5));
}
