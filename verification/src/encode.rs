//! From a problem to the solver's session: the variables, the constraints
//! in their order, and the objective.

use crate::compile::{
    assert_balance, assert_budgets, assert_non_trivial, assert_rule, balance_terms, budget_terms,
    count_term, groups_within, index_bools, index_calls, lemma_groups_within, maximize_commitments,
    priced, rule_terms, MAX_TERMS, Rule,
};
use crate::group::{
    commit_prefixes, group_allofs, group_by_match_key, group_s_calls, groups,
    lemma_first_occurrences, match_keys, pick, plan_prefixes,
};
use crate::ident::{
    commit_key, has_sep, lemma_occurrence_key_decodes, lemma_plan_key_decodes, match_key, nameable,
    plan_key, price_key,
};
use crate::layout::{lemma_occurrences, lemma_plan_rows};
use crate::model::{plan_ok, problem, well_formed, Commit, Plan};
use crate::solver::{asserted, context_id, new_solver, objectives, solver_home};
use crate::term::{at_least_one, consts, BoolTerm, IntTerm};
use crate::vars::{
    bools_named, build_allof_level_bools, build_commit_level_vars, build_count_vars,
    build_scall_level_bools, calls_named, commit_names, flags, identities_nameable, names,
    occurrence_flags, occurrence_name, occurrence_names, occurrences, plan_names, plan_rows,
    price_keys, price_names, prices_named, Occurrence, PlanRow,
};
use vstd::prelude::*;
use z3::{Context, Optimize};
use z3::ast::{Bool, Int};

verus! {

/// The decision variables of one problem.
pub struct Variables<'ctx> {
    /// For each commitment, whether it is accepted.
    pub commit_bools: Vec<(String, Bool<'ctx>)>,
    /// For each plan, whether it is the one chosen.
    pub allof_bools: Vec<(String, Bool<'ctx>)>,
    /// For each occurrence of a service call, whether it takes place, and
    /// whether its plan demands the call.
    pub s_call_bools: Vec<(String, (Bool<'ctx>, bool))>,
    /// For each price key, the price.
    pub s_call_prices: Vec<(String, Int<'ctx>)>,
}

/// The variables are those of the problem `p`, in the context `home`.
pub open spec fn variables_of(vars: Variables, p: Seq<Seq<Plan>>, home: int) -> bool {
    &&& names(vars.commit_bools@) == commit_names(p)
    &&& names(vars.allof_bools@) == plan_names(p)
    &&& names(vars.s_call_bools@) == occurrence_names(p)
    &&& flags(vars.s_call_bools@) == occurrence_flags(p)
    &&& names(vars.s_call_prices@) == price_names(p)
    &&& bools_named(vars.commit_bools@, home)
    &&& bools_named(vars.allof_bools@, home)
    &&& calls_named(vars.s_call_bools@, home)
    &&& prices_named(vars.s_call_prices@, home)
}

/// The demands of each service call, or its supplies: the occurrences
/// with the flag `requests`, by match key.
pub open spec fn pooled(p: Seq<Seq<Plan>>, requests: bool) -> Seq<(Seq<char>, Seq<Seq<char>>)> {
    let side = pick(occurrence_names(p), occurrence_flags(p), requests);
    groups(match_keys(side), side)
}

/// The constraints that make a schedule of `p`, in the order in which the
/// solver gets them: a commitment has exactly one of its plans, and none
/// unless it is accepted; a plan has all of its occurrences, and none
/// unless it is chosen; demands are met by exactly one supply, supplies by
/// a demand; a commitment is accepted; every plan stays within its budget.
pub open spec fn constraints(p: Seq<Seq<Plan>>) -> Seq<BoolTerm> {
    let cn = commit_names(p);
    let pn = plan_names(p);
    let on = occurrence_names(p);
    let fl = occurrence_flags(p);
    rule_terms(Rule::ExactlyOne, cn, commit_prefixes(pn), pn) + rule_terms(
        Rule::NoneUnless,
        cn,
        commit_prefixes(pn),
        pn,
    ) + rule_terms(Rule::All, pn, plan_prefixes(on), on) + rule_terms(
        Rule::NoneUnless,
        pn,
        plan_prefixes(on),
        on,
    ) + balance_terms(pooled(p, true), pooled(p, false), true, pooled(p, true).len())
        + balance_terms(pooled(p, false), pooled(p, true), false, pooled(p, false).len())
        + seq![at_least_one(consts(cn))] + budget_terms(p, on, fl, plan_rows(p, p.len()))
}

/// What the solver is to make as large as it can: the number of accepted
/// commitments.
pub open spec fn objective(p: Seq<Seq<Plan>>) -> IntTerm {
    count_term(commit_names(p), p.len())
}

/// The problem is small enough for the solver: no table of variables is
/// longer than a constraint can be.
pub open spec fn fits(p: Seq<Seq<Plan>>) -> bool {
    &&& p.len() <= MAX_TERMS
    &&& plan_rows(p, p.len()).len() <= MAX_TERMS
    &&& occurrences(p, p.len()).len() <= MAX_TERMS
}

/// In a problem that is in order, every identity can be part of a name.
pub proof fn lemma_well_formed_nameable(p: Seq<Seq<Plan>>)
    requires
        well_formed(p),
    ensures
        identities_nameable(p),
{
    assert forall|i: int, j: int, k: int|
        0 <= i < p.len() && 0 <= j < p[i].len() && 0 <= k < p[i][j].calls.len() implies nameable(
        (#[trigger] p[i][j].calls[k]).0,
    ) by {
        assert(plan_ok(p[i][j]));
    }
}

/// Every commitment's name is what the name of one of its plans begins
/// with.
pub proof fn lemma_commitments_have_plans(p: Seq<Seq<Plan>>)
    requires
        well_formed(p),
    ensures
        forall|h: int|
            0 <= h < p.len() ==> commit_prefixes(plan_names(p)).contains(
                #[trigger] commit_names(p)[h],
            ),
{
    let pn = plan_names(p);
    let rows = plan_rows(p, p.len());
    assert forall|h: int| 0 <= h < p.len() implies commit_prefixes(pn).contains(
        #[trigger] commit_names(p)[h],
    ) by {
        let r = PlanRow { commit: h as nat, plan: 0 };
        assert(p[h].len() >= 1);
        lemma_plan_rows(p, p.len(), r);
        let x = choose|x: int| 0 <= x < rows.len() && rows[x] == r;
        lemma_plan_key_decodes(h as nat, 0);
        assert(pn[x] == plan_key(h as nat, 0));
        assert(commit_prefixes(pn)[x] == commit_key(h as nat));
    }
}

/// Every plan's name is what the name of one of its occurrences begins
/// with.
pub proof fn lemma_plans_have_occurrences(p: Seq<Seq<Plan>>)
    requires
        well_formed(p),
    ensures
        forall|h: int|
            0 <= h < plan_names(p).len() ==> plan_prefixes(occurrence_names(p)).contains(
                #[trigger] plan_names(p)[h],
            ),
{
    let pn = plan_names(p);
    let on = occurrence_names(p);
    let rows = plan_rows(p, p.len());
    let os = occurrences(p, p.len());
    assert forall|h: int| 0 <= h < pn.len() implies plan_prefixes(on).contains(
        #[trigger] pn[h],
    ) by {
        let r = rows[h];
        assert(rows.contains(r));
        lemma_plan_rows(p, p.len(), r);
        let plan = p[r.commit as int][r.plan as int];
        assert(plan_ok(plan));
        let o = Occurrence {
            commit: r.commit,
            plan: r.plan,
            identity: plan.calls[0].0,
            is_request: plan.calls[0].1,
        };
        assert(plan.calls[0] == (o.identity, o.is_request));
        assert(plan.calls.contains((o.identity, o.is_request)));
        lemma_occurrences(p, p.len(), o);
        let x = choose|x: int| 0 <= x < os.len() && os[x] == o;
        lemma_occurrence_key_decodes(o.commit, o.plan, o.identity);
        assert(on[x] == occurrence_name(o));
        assert(plan_prefixes(on)[x] == plan_key(r.commit, r.plan));
    }
}

/// Every occurrence's name has a separator, and its price key names one
/// of the price variables.
pub proof fn lemma_occurrence_names(p: Seq<Seq<Plan>>)
    ensures
        forall|x: int|
            0 <= x < occurrence_names(p).len() ==> has_sep(#[trigger] occurrence_names(p)[x]),
        priced(occurrence_names(p), occurrence_names(p), price_names(p)),
{
    let on = occurrence_names(p);
    let os = occurrences(p, p.len());
    let keys = price_keys(os);
    lemma_first_occurrences(keys);
    assert forall|x: int| 0 <= x < on.len() implies has_sep(#[trigger] on[x]) && on.contains(
        on[x],
    ) && price_names(p).contains(price_key(match_key(on[x]))) by {
        let o = os[x];
        lemma_occurrence_key_decodes(o.commit, o.plan, o.identity);
        assert(keys[x] == price_key(o.identity));
        assert(keys.contains(price_key(o.identity)));
    }
}

/// What `pick` returns holds items only, no more than there are.
pub proof fn lemma_pick_within(items: Seq<Seq<char>>, marks: Seq<bool>, want: bool)
    requires
        items.len() == marks.len(),
    ensures
        pick(items, marks, want).len() <= items.len(),
        forall|a: int|
            0 <= a < pick(items, marks, want).len() ==> items.contains(
                #[trigger] pick(items, marks, want)[a],
            ),
    decreases items.len(),
{
    if items.len() > 0 {
        let rest = pick(items.drop_last(), marks.drop_last(), want);
        let all = pick(items, marks, want);
        lemma_pick_within(items.drop_last(), marks.drop_last(), want);
        assert forall|a: int| 0 <= a < all.len() implies items.contains(#[trigger] all[a]) by {
            if a < rest.len() {
                assert(items.drop_last().contains(rest[a]));
                let b = choose|b: int|
                    0 <= b < items.drop_last().len() && items.drop_last()[b] == rest[a];
                assert(items[b] == all[a]);
            } else {
                assert(items[items.len() - 1] == all[a]);
            }
        }
    }
}

/// The pooled demands and supplies of a problem that the solver can take
/// lie within the table of occurrences.
pub proof fn lemma_pooled_within(p: Seq<Seq<Plan>>, requests: bool)
    requires
        occurrences(p, p.len()).len() <= MAX_TERMS,
    ensures
        groups_within(pooled(p, requests), occurrence_names(p)),
{
    let on = occurrence_names(p);
    let side = pick(on, occurrence_flags(p), requests);
    lemma_pick_within(on, occurrence_flags(p), requests);
    lemma_groups_within(match_keys(side), side);
    let gs = pooled(p, requests);
    assert forall|g: int| 0 <= g < gs.len() implies 1 <= (#[trigger] gs[g]).1.len() <= MAX_TERMS
        && forall|a: int| 0 <= a < gs[g].1.len() ==> on.contains(#[trigger] gs[g].1[a]) by {
        assert forall|a: int| 0 <= a < gs[g].1.len() implies on.contains(
            #[trigger] gs[g].1[a],
        ) by {
            assert(side.contains(gs[g].1[a]));
            let b = choose|b: int| 0 <= b < side.len() && side[b] == gs[g].1[a];
            assert(on.contains(side[b]));
        }
    }
}

/// Opens a session of the solver for the problem: makes the variables,
/// gives the solver every constraint, and asks it to accept as many
/// commitments as it can. Nothing is made where the problem has more
/// variables of one kind than a constraint can hold.
pub fn encode<'ctx>(ctx: &'ctx Context, commits: &Vec<Commit>) -> (r: Option<
    (Optimize<'ctx>, Variables<'ctx>),
>)
    requires
        well_formed(problem(commits@)),
        commits.len() >= 1,
    ensures
        r is Some <==> fits(problem(commits@)),
        r matches Some((solver, vars)) ==> {
            &&& asserted(solver) == constraints(problem(commits@))
            &&& objectives(solver) == seq![objective(problem(commits@))]
            &&& solver_home(solver) == context_id(*ctx)
            &&& variables_of(vars, problem(commits@), context_id(*ctx))
        },
{
    let ghost p = problem(commits@);
    proof {
        lemma_well_formed_nameable(p);
        lemma_commitments_have_plans(p);
        lemma_plans_have_occurrences(p);
        lemma_occurrence_names(p);
    }
    let commit_bools = build_commit_level_vars(ctx, commits);
    let allof_bools = build_allof_level_bools(ctx, commits);
    let s_call_bools = build_scall_level_bools(ctx, commits);
    if commit_bools.len() > MAX_TERMS || allof_bools.len() > MAX_TERMS || s_call_bools.len()
        > MAX_TERMS {
        return None;
    }
    let s_call_prices = build_count_vars(ctx, commits);
    assert forall|x: int| 0 <= x < s_call_bools.len() implies has_sep(
        (#[trigger] s_call_bools[x]).0@,
    ) by {
        assert(names(s_call_bools@)[x] == s_call_bools[x].0@);
    }
    let s_calls_grouped = group_s_calls(&s_call_bools);
    let allofs_grouped = group_allofs(&allof_bools);
    let request_s_calls = group_by_match_key(&s_call_bools, true);
    let offer_s_calls = group_by_match_key(&s_call_bools, false);
    let mut solver = new_solver(ctx);
    let ghost cn = commit_names(p);
    let ghost pn = plan_names(p);
    let ghost on = occurrence_names(p);
    let ghost fl = occurrence_flags(p);
    {
        let allof_dir = index_bools(ctx, &allof_bools);
        let s_call_dir = index_calls(ctx, &s_call_bools);
        assert forall|h: int| 0 <= h < commit_bools.len() implies commit_prefixes(pn).contains(
            (#[trigger] commit_bools[h]).0@,
        ) by {
            assert(commit_bools[h].0@ == cn[h]);
        }
        assert forall|h: int| 0 <= h < allof_bools.len() implies plan_prefixes(on).contains(
            (#[trigger] allof_bools[h]).0@,
        ) by {
            assert(allof_bools[h].0@ == pn[h]);
        }
        assert_rule(
            ctx,
            &mut solver,
            Rule::ExactlyOne,
            &commit_bools,
            &allof_dir,
            &allofs_grouped,
            Ghost(commit_prefixes(pn)),
        );
        assert_rule(
            ctx,
            &mut solver,
            Rule::NoneUnless,
            &commit_bools,
            &allof_dir,
            &allofs_grouped,
            Ghost(commit_prefixes(pn)),
        );
        assert_rule(
            ctx,
            &mut solver,
            Rule::All,
            &allof_bools,
            &s_call_dir,
            &s_calls_grouped,
            Ghost(plan_prefixes(on)),
        );
        assert_rule(
            ctx,
            &mut solver,
            Rule::NoneUnless,
            &allof_bools,
            &s_call_dir,
            &s_calls_grouped,
            Ghost(plan_prefixes(on)),
        );
        proof {
            lemma_pooled_within(p, true);
            lemma_pooled_within(p, false);
        }
        assert_balance(ctx, &mut solver, &s_call_dir, &request_s_calls, &offer_s_calls, true);
        assert_balance(ctx, &mut solver, &s_call_dir, &offer_s_calls, &request_s_calls, false);
    }
    assert_non_trivial(ctx, &mut solver, &commit_bools);
    assert_budgets(ctx, &mut solver, commits, &s_call_bools, &s_calls_grouped, &s_call_prices);
    maximize_commitments(ctx, &mut solver, &commit_bools);
    proof {
        assert(asserted(solver) =~= constraints(p));
        assert(objectives(solver) =~= seq![objective(p)]);
    }
    Some((solver, Variables { commit_bools, allof_bools, s_call_bools, s_call_prices }))
}

} // verus!
