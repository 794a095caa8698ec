//! The whole run: from the commitments to the answer.

use crate::encode::{constraints, encode, fits, variables_of, Variables};
use crate::ident::{commit_key, occurrence_key, plan_key};
use crate::laws::lemma_satisfiable_means_schedulable;
use crate::layout::{call_at, lemma_call_at, lemma_plan_at, plan_at};
use crate::model::{problem, well_formed, Commit, Plan};
use crate::outcome::{interpret, Outcome, Reading, ReadingView, SolveError};
use crate::schedule::{non_trivial, valid, Valuation};
use crate::solver::{
    bool_home, bool_term, bool_value, int_home, int_term, int_value, model_eval_bool,
    model_eval_int, model_home, new_config, new_context, number_in, solver_check, solver_model,
    truth_in, Verdict,
};
use crate::term::{all_hold, BoolTerm, Interp, IntTerm};
use crate::vars::{commit_calls, names, occurrences, plan_rows, price_names};
use vstd::prelude::*;
use z3::Model;
use z3::ast::{Bool, Int};

verus! {

/// The truth value of a variable in the solver's assignment.
fn read_bool<'ctx>(model: &Model<'ctx>, var: &Bool<'ctx>) -> (r: Option<bool>)
    requires
        bool_home(*var) == model_home(*model),
    ensures
        r == truth_in(*model, bool_term(*var)),
{
    match model_eval_bool(model, var) {
        Some(value) => bool_value(&value),
        None => None,
    }
}

/// The number that a variable has in the solver's assignment.
fn read_int<'ctx>(model: &Model<'ctx>, var: &Int<'ctx>) -> (r: Option<i64>)
    requires
        int_home(*var) == model_home(*model),
    ensures
        r == number_in(*model, int_term(*var)),
{
    match model_eval_int(model, var) {
        Some(value) => int_value(&value),
        None => None,
    }
}

/// What the model gives the variable of commitment `i`.
pub open spec fn commit_read(model: Model, i: int) -> Option<bool> {
    truth_in(model, BoolTerm::Const(commit_key(i as nat)))
}

/// What the model gives the variable of plan `j` of commitment `i`.
pub open spec fn plan_read(model: Model, i: int, j: int) -> Option<bool> {
    truth_in(model, BoolTerm::Const(plan_key(i as nat, j as nat)))
}

/// What the model gives the variable of the occurrence of `id` in plan `j`
/// of commitment `i`.
pub open spec fn call_read(model: Model, i: int, j: int, id: Seq<char>) -> Option<bool> {
    truth_in(model, BoolTerm::Const(occurrence_key(i as nat, j as nat, id)))
}

/// What the model gives the price variable of the key `key`.
pub open spec fn price_read(model: Model, key: Seq<char>) -> Option<int> {
    match number_in(model, IntTerm::Const(key)) {
        Some(n) => Some(n as int),
        None => None,
    }
}

/// What is read of the model for the problem `p`: for each decision
/// variable what the model gives the constant of its name.
pub open spec fn reading_of(p: Seq<Seq<Plan>>, model: Model) -> ReadingView {
    ReadingView {
        commits: Seq::new(p.len(), |i: int| commit_read(model, i)),
        plans: Seq::new(p.len(), |i: int| Seq::new(p[i].len(), |j: int| plan_read(model, i, j))),
        calls: Seq::new(
            p.len(),
            |i: int|
                Seq::new(
                    p[i].len(),
                    |j: int|
                        Seq::new(
                            p[i][j].calls.len(),
                            |k: int| call_read(model, i, j, p[i][j].calls[k].0),
                        ),
                ),
        ),
        prices: Seq::new(
            price_names(p).len(),
            |y: int| (price_names(p)[y], price_read(model, price_names(p)[y])),
        ),
    }
}

/// Reads the value of every variable from the solver's assignment.
pub fn read_model<'ctx>(model: &Model<'ctx>, commits: &Vec<Commit>, vars: &Variables<'ctx>) -> (r:
    Reading)
    requires
        variables_of(*vars, problem(commits@), model_home(*model)),
    ensures
        r@ == reading_of(problem(commits@), *model),
{
    let ghost p = problem(commits@);
    let ghost home = model_home(*model);
    let mut commit_values: Vec<Option<bool>> = Vec::new();
    let mut plan_values: Vec<Vec<Option<bool>>> = Vec::new();
    let mut call_values: Vec<Vec<Vec<Option<bool>>>> = Vec::new();
    let mut at_plan: usize = 0;
    let mut at_call: usize = 0;
    let mut i: usize = 0;
    assert(vars.commit_bools.len() == names(vars.commit_bools@).len());
    assert(vars.allof_bools.len() == names(vars.allof_bools@).len());
    assert(vars.s_call_bools.len() == names(vars.s_call_bools@).len());
    assert(vars.s_call_prices.len() == names(vars.s_call_prices@).len());
    while i < commits.len()
        invariant
            i <= commits.len(),
            p == problem(commits@),
            home == model_home(*model),
            variables_of(*vars, p, home),
            vars.commit_bools.len() == p.len(),
            vars.allof_bools.len() == plan_rows(p, p.len()).len(),
            vars.s_call_bools.len() == occurrences(p, p.len()).len(),
            at_plan == plan_rows(p, i as nat).len(),
            at_call == occurrences(p, i as nat).len(),
            commit_values.len() == i,
            plan_values.len() == i,
            call_values.len() == i,
            forall|a: int| 0 <= a < i ==> #[trigger] commit_values[a] == commit_read(*model, a),
            forall|a: int| 0 <= a < i ==> (#[trigger] plan_values[a]).len() == p[a].len(),
            forall|a: int, b: int|
                0 <= a < i && 0 <= b < p[a].len() ==> #[trigger] plan_values[a][b] == plan_read(
                    *model,
                    a,
                    b,
                ),
            forall|a: int| 0 <= a < i ==> (#[trigger] call_values[a]).len() == p[a].len(),
            forall|a: int, b: int|
                0 <= a < i && 0 <= b < p[a].len() ==> (#[trigger] call_values[a][b]).len()
                    == p[a][b].calls.len(),
            forall|a: int, b: int, c: int|
                0 <= a < i && 0 <= b < p[a].len() && 0 <= c < p[a][b].calls.len()
                    ==> #[trigger] call_values[a][b][c] == call_read(
                    *model,
                    a,
                    b,
                    p[a][b].calls[c].0,
                ),
        decreases commits.len() - i,
    {
        let plans = &commits[i].allofs;
        assert(p[i as int].len() == plans.len());
        assert(names(vars.commit_bools@)[i as int] == commit_key(i as nat));
        commit_values.push(read_bool(model, &vars.commit_bools[i].1));
        let mut row: Vec<Option<bool>> = Vec::new();
        let mut rows: Vec<Vec<Option<bool>>> = Vec::new();
        let mut j: usize = 0;
        while j < plans.len()
            invariant
                j <= plans.len(),
                i < commits.len(),
                plans == &commits[i as int].allofs,
                p == problem(commits@),
                home == model_home(*model),
                variables_of(*vars, p, home),
                p[i as int].len() == plans.len(),
                vars.allof_bools.len() == plan_rows(p, p.len()).len(),
                vars.s_call_bools.len() == occurrences(p, p.len()).len(),
                at_plan == plan_rows(p, i as nat).len() + j,
                at_call == occurrences(p, i as nat).len() + commit_calls(
                    i as nat,
                    p[i as int],
                    j as nat,
                ).len(),
                row.len() == j,
                rows.len() == j,
                forall|b: int| 0 <= b < j ==> #[trigger] row[b] == plan_read(*model, i as int, b),
                forall|b: int|
                    0 <= b < j ==> (#[trigger] rows[b]).len() == p[i as int][b].calls.len(),
                forall|b: int, c: int|
                    0 <= b < j && 0 <= c < p[i as int][b].calls.len() ==> #[trigger] rows[b][c]
                        == call_read(*model, i as int, b, p[i as int][b].calls[c].0),
            decreases plans.len() - j,
        {
            let calls = &plans[j].service_instances;
            assert(p[i as int][j as int] == plans[j as int]@);
            proof {
                lemma_plan_at(p, i as nat, j as nat);
                assert(at_plan == plan_at(p, i as nat, j as nat));
                assert(names(vars.allof_bools@)[at_plan as int] == plan_key(i as nat, j as nat));
            }
            row.push(read_bool(model, &vars.allof_bools[at_plan].1));
            at_plan = at_plan + 1;
            let mut values: Vec<Option<bool>> = Vec::new();
            let ghost start = at_call;
            let mut k: usize = 0;
            while k < calls.len()
                invariant
                    k <= calls.len(),
                    i < commits.len(),
                    j < plans.len(),
                    p == problem(commits@),
                    calls.len() == p[i as int][j as int].calls.len(),
                    p[i as int].len() == plans.len(),
                    home == model_home(*model),
                    variables_of(*vars, p, home),
                    vars.s_call_bools.len() == occurrences(p, p.len()).len(),
                    start == call_at(p, i as nat, j as nat, 0),
                    at_call == start + k,
                    values.len() == k,
                    forall|c: int|
                        0 <= c < k ==> #[trigger] values[c] == call_read(
                            *model,
                            i as int,
                            j as int,
                            p[i as int][j as int].calls[c].0,
                        ),
                decreases calls.len() - k,
            {
                proof {
                    lemma_call_at(p, i as nat, j as nat, k as nat);
                    assert(at_call == call_at(p, i as nat, j as nat, k as nat));
                    assert(names(vars.s_call_bools@)[at_call as int] == occurrence_key(
                        i as nat,
                        j as nat,
                        p[i as int][j as int].calls[k as int].0,
                    ));
                }
                values.push(read_bool(model, &vars.s_call_bools[at_call].1.0));
                at_call = at_call + 1;
                k = k + 1;
            }
            rows.push(values);
            j = j + 1;
        }
        plan_values.push(row);
        call_values.push(rows);
        i = i + 1;
    }
    let mut prices: Vec<(String, Option<i64>)> = Vec::new();
    let mut y: usize = 0;
    while y < vars.s_call_prices.len()
        invariant
            y <= vars.s_call_prices.len(),
            home == model_home(*model),
            variables_of(*vars, p, home),
            vars.s_call_prices.len() == price_names(p).len(),
            prices.len() == y,
            forall|z: int|
                0 <= z < y ==> (#[trigger] prices[z]).0@ == price_names(p)[z] && prices[z].1
                    == number_in(*model, IntTerm::Const(price_names(p)[z])),
        decreases vars.s_call_prices.len() - y,
    {
        let entry = &vars.s_call_prices[y];
        assert(names(vars.s_call_prices@)[y as int] == entry.0@);
        prices.push((entry.0.clone(), read_int(model, &entry.1)));
        y = y + 1;
    }
    let reading = Reading {
        commits: commit_values,
        allofs: plan_values,
        s_calls: call_values,
        prices,
    };
    proof {
        let got = reading@;
        let want = reading_of(p, *model);
        assert(got.commits =~= want.commits);
        assert forall|a: int| 0 <= a < p.len() implies #[trigger] got.plans[a] == want.plans[a] by {
            assert(got.plans[a] =~= want.plans[a]);
        }
        assert(got.plans =~= want.plans);
        assert forall|a: int| 0 <= a < p.len() implies #[trigger] got.calls[a] == want.calls[a] by {
            assert forall|b: int| 0 <= b < p[a].len() implies #[trigger] got.calls[a][b]
                == want.calls[a][b] by {
                assert(got.calls[a][b] =~= want.calls[a][b]);
            }
            assert(got.calls[a] =~= want.calls[a]);
        }
        assert(got.calls =~= want.calls);
        assert(got.prices =~= want.prices);
    }
    reading
}

/// Schedules the commitments: accepts as many of them as the rules allow,
/// each through one of its plans, and prices the service calls.
///
/// The answer is a schedule that meets every rule, or the finding that
/// none does, or a failure of the solver. With no commitment there is
/// nothing to accept, and the answer is that no schedule exists. Where the
/// solver finds a schedule and fails to show it, one exists all the same.
pub fn build_schedule(commits: Vec<Commit>) -> (r: Result<Outcome, SolveError>)
    requires
        well_formed(problem(commits@)),
    ensures
        r matches Ok(Outcome::Scheduled(s)) ==> valid(problem(commits@), s@),
        r matches Ok(Outcome::Unsatisfiable) ==> forall|v: Valuation|
            !#[trigger] valid(problem(commits@), v),
        r matches Err(e) && (e == SolveError::NoModel || e == SolveError::Unreadable || e
            == SolveError::Inconsistent) ==> exists|v: Valuation|
            #[trigger] valid(problem(commits@), v),
        commits.len() == 0 ==> r matches Ok(Outcome::Unsatisfiable),
        r == Err::<Outcome, SolveError>(SolveError::TooLarge) <==> commits.len() > 0 && !fits(
            problem(commits@),
        ),
{
    let ghost p = problem(commits@);
    if commits.len() == 0 {
        assert forall|v: Valuation| !#[trigger] valid(p, v) by {
            assert(!non_trivial(p, v));
        }
        return Ok(Outcome::Unsatisfiable);
    }
    let cfg = new_config();
    let ctx = new_context(&cfg);
    let (mut solver, vars) = match encode(&ctx, &commits) {
        Some(session) => session,
        None => {
            return Err(SolveError::TooLarge);
        },
    };
    let verdict = solver_check(&mut solver);
    proof {
        lemma_satisfiable_means_schedulable(p);
        if verdict == Verdict::Unsat {
            assert forall|v: Valuation| !#[trigger] valid(p, v) by {
                assert(forall|m: Interp| !#[trigger] all_hold(constraints(p), m));
            }
        }
        if verdict == Verdict::Sat {
            assert(exists|m: Interp| #[trigger] all_hold(constraints(p), m));
            assert(exists|v: Valuation| #[trigger] valid(p, v));
        }
    }
    let reading = match verdict {
        Verdict::Sat => match solver_model(&solver) {
            Some(model) => Some(read_model(&model, &commits, &vars)),
            None => None,
        },
        _ => None,
    };
    interpret(&commits, verdict, reading)
}

} // verus!
