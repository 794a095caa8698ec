use z3_sched::outcome::settle;
use z3_sched::{interpret, AllOf, Commit, Outcome, Reading, SolveError, Verdict};

fn one_plan(calls: &[(&str, bool)], cost_ceil: i64) -> Commit {
    Commit {
        allofs: vec![AllOf {
            service_instances: calls.iter().map(|(id, req)| (id.to_string(), *req)).collect(),
            cost_ceil,
        }],
    }
}

fn problem() -> Vec<Commit> {
    vec![one_plan(&[("abcde-0", true)], 100), one_plan(&[("abcde-0", false)], -50)]
}

fn reading(first: bool, second: bool, price: Option<i64>) -> Reading {
    Reading {
        commits: vec![Some(first), Some(second)],
        allofs: vec![vec![Some(first)], vec![Some(second)]],
        s_calls: vec![vec![vec![Some(first)]], vec![vec![Some(second)]]],
        prices: vec![("abcde".to_string(), price)],
    }
}

#[test]
fn a_reading_that_is_a_schedule_is_the_answer() {
    match interpret(&problem(), Verdict::Sat, Some(reading(true, true, Some(70)))) {
        Ok(Outcome::Scheduled(s)) => {
            assert_eq!(s.commits, vec![true, true]);
            assert_eq!(s.allofs, vec![vec![true], vec![true]]);
            assert_eq!(s.s_calls, vec![vec![vec![true]], vec![vec![true]]]);
            assert_eq!(s.prices, vec![("abcde".to_string(), 70)]);
        }
        other => panic!("{:?}", other),
    }
}

#[test]
fn no_schedule_where_the_solver_finds_none() {
    assert!(matches!(interpret(&problem(), Verdict::Unsat, None), Ok(Outcome::Unsatisfiable)));
    assert!(matches!(
        interpret(&problem(), Verdict::Unsat, Some(reading(true, true, Some(70)))),
        Ok(Outcome::Unsatisfiable)
    ));
}

#[test]
fn a_solver_that_gives_up_is_a_failure() {
    assert!(matches!(interpret(&problem(), Verdict::Unknown, None), Err(SolveError::Unknown)));
    assert!(matches!(
        interpret(&problem(), Verdict::Unknown, Some(reading(true, true, Some(70)))),
        Err(SolveError::Unknown)
    ));
}

#[test]
fn a_verdict_without_an_assignment_is_a_failure() {
    assert!(matches!(interpret(&problem(), Verdict::Sat, None), Err(SolveError::NoModel)));
}

#[test]
fn a_reading_with_a_gap_is_a_failure() {
    let r = reading(true, true, None);
    assert!(settle(&r).is_none());
    assert!(matches!(interpret(&problem(), Verdict::Sat, Some(r)), Err(SolveError::Unreadable)));
    let mut r = reading(true, true, Some(70));
    r.commits[1] = None;
    assert!(matches!(interpret(&problem(), Verdict::Sat, Some(r)), Err(SolveError::Unreadable)));
    let mut r = reading(true, true, Some(70));
    r.allofs[0][0] = None;
    assert!(matches!(interpret(&problem(), Verdict::Sat, Some(r)), Err(SolveError::Unreadable)));
    let mut r = reading(true, true, Some(70));
    r.s_calls[1][0][0] = None;
    assert!(matches!(interpret(&problem(), Verdict::Sat, Some(r)), Err(SolveError::Unreadable)));
}

#[test]
fn a_reading_that_breaks_a_rule_is_a_failure() {
    for r in [
        reading(true, false, Some(70)),
        reading(false, true, Some(70)),
        reading(false, false, Some(70)),
        reading(true, true, Some(49)),
        reading(true, true, Some(101)),
    ] {
        assert!(matches!(
            interpret(&problem(), Verdict::Sat, Some(r)),
            Err(SolveError::Inconsistent)
        ));
    }
    let mut r = reading(true, true, Some(70));
    r.commits.push(Some(true));
    assert!(matches!(interpret(&problem(), Verdict::Sat, Some(r)), Err(SolveError::Inconsistent)));
}

#[test]
fn a_complete_reading_settles_to_its_values() {
    let s = settle(&reading(true, false, Some(-4))).unwrap();
    assert_eq!(s.commits, vec![true, false]);
    assert_eq!(s.allofs, vec![vec![true], vec![false]]);
    assert_eq!(s.s_calls, vec![vec![vec![true]], vec![vec![false]]]);
    assert_eq!(s.prices, vec![("abcde".to_string(), -4)]);
}
