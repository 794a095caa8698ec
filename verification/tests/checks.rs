use z3_sched::certify::{
    has_calls_follow_plans, has_one_plan_each, is_all_balanced, is_balanced, is_fitting,
    is_non_trivial, is_within_budgets,
};
use z3_sched::model::plan_is_ok;
use z3_sched::{check_schedule, is_well_formed, AllOf, Commit, Schedule};

fn plan(calls: &[(&str, bool)], cost_ceil: i64) -> AllOf {
    AllOf {
        service_instances: calls.iter().map(|(id, req)| (id.to_string(), *req)).collect(),
        cost_ceil,
    }
}

fn one_plan(calls: &[(&str, bool)], cost_ceil: i64) -> Commit {
    Commit { allofs: vec![plan(calls, cost_ceil)] }
}

/// A demand in a commitment of two plans, and two offers for it.
fn problem() -> Vec<Commit> {
    vec![
        Commit { allofs: vec![plan(&[("abcde-0", true)], 100), plan(&[("efgh-0", true)], 100)] },
        one_plan(&[("abcde-0", false)], -50),
        one_plan(&[("abcde-0", false)], -50),
    ]
}

fn schedule(commits: &[bool], allofs: &[&[bool]], abcde: i64, efgh: i64) -> Schedule {
    Schedule {
        commits: commits.to_vec(),
        allofs: allofs.iter().map(|a| a.to_vec()).collect(),
        s_calls: allofs.iter().map(|a| a.iter().map(|b| vec![*b]).collect()).collect(),
        prices: vec![("abcde".to_string(), abcde), ("efgh".to_string(), efgh)],
    }
}

fn good() -> Schedule {
    schedule(&[true, true, false], &[&[true, false], &[true], &[false]], 60, 0)
}

#[test]
fn a_schedule_passes_every_check() {
    let p = problem();
    let s = good();
    assert!(is_fitting(&p, &s));
    assert!(has_one_plan_each(&p, &s));
    assert!(has_calls_follow_plans(&p, &s));
    assert!(is_all_balanced(&p, &s));
    assert!(is_within_budgets(&p, &s));
    assert!(is_non_trivial(&p, &s));
    assert!(check_schedule(&p, &s));
    let other = schedule(&[true, false, true], &[&[true, false], &[false], &[true]], 50, -3);
    assert!(check_schedule(&p, &other));
}

#[test]
fn an_assignment_of_another_shape_does_not_fit() {
    let p = problem();
    let mut s = good();
    s.commits.pop();
    assert!(!is_fitting(&p, &s));
    assert!(!check_schedule(&p, &s));
    let mut s = good();
    s.allofs[0].push(false);
    assert!(!is_fitting(&p, &s));
    let mut s = good();
    s.s_calls[1][0].push(true);
    assert!(!is_fitting(&p, &s));
    let mut s = good();
    s.s_calls[0].pop();
    assert!(!is_fitting(&p, &s));
    let mut s = good();
    s.prices.swap(0, 1);
    assert!(!is_fitting(&p, &s));
    let mut s = good();
    s.prices.pop();
    assert!(!is_fitting(&p, &s));
    let mut s = good();
    s.prices[1].0 = "efg".to_string();
    assert!(!check_schedule(&p, &s));
}

#[test]
fn an_accepted_commitment_has_exactly_one_plan() {
    let p = problem();
    let mut s = good();
    s.allofs[0] = vec![true, true];
    assert!(!has_one_plan_each(&p, &s));
    assert!(!check_schedule(&p, &s));
    s.allofs[0] = vec![false, false];
    assert!(!has_one_plan_each(&p, &s));
    // a commitment that is not accepted has no plan
    let mut s = good();
    s.allofs[2] = vec![true];
    assert!(!has_one_plan_each(&p, &s));
    s.commits[2] = true;
    assert!(has_one_plan_each(&p, &s));
}

#[test]
fn calls_take_place_exactly_where_their_plan_is_chosen() {
    let p = problem();
    let mut s = good();
    s.s_calls[0][0][0] = false;
    assert!(!has_calls_follow_plans(&p, &s));
    assert!(!check_schedule(&p, &s));
    let mut s = good();
    s.s_calls[0][1][0] = true;
    assert!(!has_calls_follow_plans(&p, &s));
    assert!(!check_schedule(&p, &s));
}

#[test]
fn a_demand_takes_exactly_one_supply() {
    let p = problem();
    // both offers taken
    let s = schedule(&[true, true, true], &[&[true, false], &[true], &[true]], 60, 0);
    assert!(has_one_plan_each(&p, &s) && has_calls_follow_plans(&p, &s));
    assert!(!is_balanced(&p, &s, &"abcde-0".to_string()));
    assert!(is_balanced(&p, &s, &"efgh-0".to_string()));
    assert!(!is_all_balanced(&p, &s));
    assert!(!check_schedule(&p, &s));
    // no offer taken
    let s = schedule(&[true, false, false], &[&[true, false], &[false], &[false]], 60, 0);
    assert!(!is_balanced(&p, &s, &"abcde-0".to_string()));
    assert!(!check_schedule(&p, &s));
}

#[test]
fn a_supply_needs_a_demand() {
    let p = problem();
    let s = schedule(&[false, true, false], &[&[false, false], &[true], &[false]], 60, 0);
    assert!(!is_balanced(&p, &s, &"abcde-0".to_string()));
    assert!(!is_all_balanced(&p, &s));
    assert!(!check_schedule(&p, &s));
    // a demand without any offer anywhere
    let s = schedule(&[true, false, false], &[&[false, true], &[false], &[false]], 60, 0);
    assert!(!is_balanced(&p, &s, &"efgh-0".to_string()));
    assert!(is_balanced(&p, &s, &"abcde-0".to_string()));
    assert!(is_balanced(&p, &s, &"nothing-0".to_string()));
    assert!(!check_schedule(&p, &s));
}

#[test]
fn every_plan_stays_within_its_ceiling() {
    let p = problem();
    for (abcde, efgh, within) in [
        (50, 100, true),
        (100, -7, true),
        (49, 0, false),
        (101, 0, false),
        (60, 101, false),
        (i64::MAX, 0, false),
        (i64::MIN, 0, false),
    ] {
        let mut s = good();
        s.prices[0].1 = abcde;
        s.prices[1].1 = efgh;
        assert_eq!(is_within_budgets(&p, &s), within);
        assert_eq!(check_schedule(&p, &s), within);
    }
}

#[test]
fn costs_add_up_beyond_sixty_four_bits() {
    // twice the largest price less the smallest is far above any ceiling
    let p = vec![one_plan(&[("a-0", true), ("a-1", true), ("b-0", false)], i64::MAX)];
    let s = Schedule {
        commits: vec![false],
        allofs: vec![vec![false]],
        s_calls: vec![vec![vec![false, false, false]]],
        prices: vec![("a".to_string(), i64::MAX), ("b".to_string(), i64::MIN)],
    };
    assert!(is_fitting(&p, &s));
    assert!(!is_within_budgets(&p, &s));
    let s = Schedule { prices: vec![("a".to_string(), i64::MIN), ("b".to_string(), i64::MAX)], ..s };
    assert!(is_within_budgets(&p, &s));
}

#[test]
fn a_schedule_accepts_a_commitment() {
    let p = problem();
    let s = schedule(&[false, false, false], &[&[false, false], &[false], &[false]], 60, 0);
    assert!(is_fitting(&p, &s));
    assert!(has_one_plan_each(&p, &s));
    assert!(has_calls_follow_plans(&p, &s));
    assert!(is_all_balanced(&p, &s));
    assert!(is_within_budgets(&p, &s));
    assert!(!is_non_trivial(&p, &s));
    assert!(!check_schedule(&p, &s));
}

#[test]
fn commitments_in_order_are_well_formed() {
    assert!(is_well_formed(&problem()));
    assert!(is_well_formed(&Vec::new()));
    assert!(plan_is_ok(&plan(&[("abcde-0", true), ("abcde-1", false)], -3)));
}

#[test]
fn a_commitment_without_plans_is_malformed() {
    assert!(!is_well_formed(&vec![Commit { allofs: Vec::new() }]));
    let mut p = problem();
    p.push(Commit { allofs: Vec::new() });
    assert!(!is_well_formed(&p));
}

#[test]
fn a_plan_without_calls_is_malformed() {
    assert!(!plan_is_ok(&plan(&[], 10)));
    assert!(!is_well_formed(&vec![one_plan(&[], 10)]));
    let mut p = problem();
    p[0].allofs.push(plan(&[], 10));
    assert!(!is_well_formed(&p));
}

#[test]
fn an_identity_without_an_instance_is_malformed() {
    assert!(!plan_is_ok(&plan(&[("abcde", true)], 10)));
    assert!(!is_well_formed(&vec![one_plan(&[("abcde-0", true), ("efgh", false)], 10)]));
    assert!(plan_is_ok(&plan(&[("abcde-", true)], 10)));
}

#[test]
fn an_identity_that_occurs_twice_in_a_plan_is_malformed() {
    assert!(!plan_is_ok(&plan(&[("abcde-0", true), ("efgh-0", true), ("abcde-0", false)], 10)));
    assert!(!is_well_formed(&vec![one_plan(&[("abcde-0", true), ("abcde-0", true)], 10)]));
}

#[test]
fn an_identity_with_a_nul_is_malformed() {
    assert!(!plan_is_ok(&plan(&[("ab\0cde-0", true)], 10)));
}
