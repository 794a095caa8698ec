//! What the constraints mean: an assignment to the named constants meets
//! all of them exactly if it is a schedule.

use crate::certify::lemma_price_key_present;
use crate::compile::{
    balance_term, balance_terms, budget_term, budget_terms, cost_term, count_term, group_balance,
    rule_term, rule_terms, signed_price, Rule,
};
use crate::encode::{constraints, objective, pooled};
use crate::group::{
    commit_prefixes, groups, lemma_first_occurrences, lemma_item_in_its_group,
    lemma_item_in_one_group, lemma_members, lemma_pick_parts, lemma_select, lemma_select_absent,
    match_keys, members, pick, plan_prefixes, select,
};
use crate::ident::{
    commit_key, commit_prefix, lemma_commit_key_injective, lemma_key_kinds_disjoint,
    lemma_occurrence_key_decodes, lemma_occurrence_key_injective, lemma_plan_key_injective,
    match_key, occurrence_key, plan_key, plan_prefix, price_key,
};
use crate::layout::{
    call_keys, flags_of, lemma_calls_of_plan, lemma_occurrence_names_distinct, lemma_occurrences,
    lemma_plan_names_distinct, lemma_plan_rows, lemma_plans_of_commit, occurrence_names_of, plan_in,
    plan_names_of, row_keys,
};
use crate::model::{plan_ok, well_formed, Plan};
use crate::schedule::{
    accepted, active, active_in_commit, active_in_plan, all_balanced, balanced, calls_follow_plans,
    fitting, non_trivial, one_plan_each, plan_cost, price_of, priced_keys, valid, within_budgets,
    Valuation,
};
use crate::term::{
    all_hold, at_least_one, consts, count_true, holds, lemma_all_hold_concat, lemma_count_consts,
    lemma_count_true_bounds, lemma_count_true_concat, lemma_count_true_prefix, lemma_group_terms,
    product, sum, truths, value, BoolTerm, Interp, IntTerm,
};
use crate::vars::{
    call_row, commit_calls, commit_names, first_occurrences, lemma_position_found, occurrence_flags,
    occurrence_name, occurrence_names, occurrences, plan_name, plan_names, plan_rows, position,
    price_keys, price_names, Occurrence, PlanRow,
};
use vstd::prelude::*;

verus! {

/// The assignment to the decision variables of `p` that `m` makes through
/// their names.
pub open spec fn valuation_of(p: Seq<Seq<Plan>>, m: Interp) -> Valuation {
    Valuation {
        commits: Seq::new(p.len(), |i: int| (m.truth)(commit_key(i as nat))),
        plans: Seq::new(
            p.len(),
            |i: int| Seq::new(p[i].len(), |j: int| (m.truth)(plan_key(i as nat, j as nat))),
        ),
        calls: Seq::new(
            p.len(),
            |i: int|
                Seq::new(
                    p[i].len(),
                    |j: int|
                        Seq::new(
                            p[i][j].calls.len(),
                            |k: int|
                                (m.truth)(occurrence_key(i as nat, j as nat, p[i][j].calls[k].0)),
                        ),
                ),
        ),
        prices: Seq::new(
            price_names(p).len(),
            |y: int| (price_names(p)[y], (m.number)(price_names(p)[y])),
        ),
    }
}

/// The assignment that `m` makes has a value for each variable.
pub proof fn lemma_valuation_fits(p: Seq<Seq<Plan>>, m: Interp)
    ensures
        fitting(p, valuation_of(p, m)),
{
    let v = valuation_of(p, m);
    assert(priced_keys(v.prices) =~= price_names(p));
}

/// What a rule's constraint means for a group that is not empty.
pub proof fn lemma_rule_term_holds(rule: Rule, head: Seq<char>, ms: Seq<Seq<char>>, m: Interp)
    requires
        ms.len() >= 1,
    ensures
        holds(rule_term(rule, head, ms), m) <==> match rule {
            Rule::ExactlyOne => (m.truth)(head) ==> count_true(truths(ms, m), ms.len()) == 1,
            Rule::All => (m.truth)(head) ==> count_true(truths(ms, m), ms.len()) == ms.len(),
            Rule::NoneUnless => !(m.truth)(head) ==> count_true(truths(ms, m), ms.len()) == 0,
        },
{
    reveal_with_fuel(holds, 3);
    lemma_group_terms(consts(ms), m);
    lemma_count_consts(ms, m, ms.len());
}

/// The two rules of plan selection hold for every commitment exactly if
/// every accepted commitment has one chosen plan and every other none.
pub proof fn lemma_plan_selection(p: Seq<Seq<Plan>>, m: Interp)
    requires
        well_formed(p),
    ensures
        all_hold(
            rule_terms(Rule::ExactlyOne, commit_names(p), commit_prefixes(plan_names(p)), plan_names(p)),
            m,
        ) && all_hold(
            rule_terms(Rule::NoneUnless, commit_names(p), commit_prefixes(plan_names(p)), plan_names(p)),
            m,
        ) <==> one_plan_each(p, valuation_of(p, m)),
{
    let v = valuation_of(p, m);
    let cn = commit_names(p);
    let pn = plan_names(p);
    let one = rule_terms(Rule::ExactlyOne, cn, commit_prefixes(pn), pn);
    let none = rule_terms(Rule::NoneUnless, cn, commit_prefixes(pn), pn);
    assert(pn =~= plan_names_of(plan_rows(p, p.len())));
    assert forall|i: int| 0 <= i < p.len() implies (holds(#[trigger] one[i], m) && holds(
        none[i],
        m,
    ) <==> count_true(v.plans[i], v.plans[i].len()) == if v.commits[i] {
        1nat
    } else {
        0nat
    }) by {
        let row = row_keys(i as nat, p[i].len());
        lemma_plans_of_commit(p, p.len(), i as nat);
        assert(select(commit_prefixes(pn), pn, commit_key(i as nat)) == row);
        assert(p[i].len() >= 1);
        lemma_rule_term_holds(Rule::ExactlyOne, commit_key(i as nat), row, m);
        lemma_rule_term_holds(Rule::NoneUnless, commit_key(i as nat), row, m);
        assert(truths(row, m) =~= v.plans[i]);
        assert(one[i] == rule_term(Rule::ExactlyOne, commit_key(i as nat), row));
        assert(none[i] == rule_term(Rule::NoneUnless, commit_key(i as nat), row));
    }
    if all_hold(one, m) && all_hold(none, m) {
        assert forall|i: int| 0 <= i < p.len() implies count_true(
            #[trigger] v.plans[i],
            v.plans[i].len(),
        ) == if v.commits[i] {
            1nat
        } else {
            0nat
        } by {
            assert(holds(one[i], m) && holds(none[i], m));
        }
    }
    if one_plan_each(p, v) {
        assert forall|i: int| 0 <= i < one.len() implies holds(#[trigger] one[i], m) by {
            assert(count_true(v.plans[i], v.plans[i].len()) == if v.commits[i] {
                1nat
            } else {
                0nat
            });
        }
        assert forall|i: int| 0 <= i < none.len() implies holds(#[trigger] none[i], m) by {
            let other = one[i];
            assert(count_true(v.plans[i], v.plans[i].len()) == if v.commits[i] {
                1nat
            } else {
                0nat
            });
        }
    }
}

/// The two rules of occurrence activation hold for every plan exactly if
/// every service call takes place exactly where its plan is chosen.
pub proof fn lemma_activation(p: Seq<Seq<Plan>>, m: Interp)
    requires
        well_formed(p),
    ensures
        all_hold(
            rule_terms(
                Rule::All,
                plan_names(p),
                plan_prefixes(occurrence_names(p)),
                occurrence_names(p),
            ),
            m,
        ) && all_hold(
            rule_terms(
                Rule::NoneUnless,
                plan_names(p),
                plan_prefixes(occurrence_names(p)),
                occurrence_names(p),
            ),
            m,
        ) <==> calls_follow_plans(p, valuation_of(p, m)),
{
    let v = valuation_of(p, m);
    let pn = plan_names(p);
    let on = occurrence_names(p);
    let rows = plan_rows(p, p.len());
    let all = rule_terms(Rule::All, pn, plan_prefixes(on), on);
    let none = rule_terms(Rule::NoneUnless, pn, plan_prefixes(on), on);
    assert(on =~= occurrence_names_of(occurrences(p, p.len())));
    assert forall|x: int| 0 <= x < rows.len() implies plan_in(p, p.len(), #[trigger] rows[x]) && (
    holds(all[x], m) && holds(none[x], m) <==> forall|k: int|
        0 <= k < p[rows[x].commit as int][rows[x].plan as int].calls.len()
            ==> #[trigger] v.calls[rows[x].commit as int][rows[x].plan as int][k]
            == v.plans[rows[x].commit as int][rows[x].plan as int]) by {
        let r = rows[x];
        assert(rows.contains(r));
        lemma_plan_rows(p, p.len(), r);
        let i = r.commit;
        let j = r.plan;
        let calls = p[i as int][j as int].calls;
        let ms = call_keys(i, j, calls);
        assert(plan_ok(p[i as int][j as int]));
        lemma_calls_of_plan(p, p.len(), i, j);
        assert(pn[x] == plan_key(i, j));
        assert(select(plan_prefixes(on), on, plan_key(i, j)) == ms);
        lemma_rule_term_holds(Rule::All, plan_key(i, j), ms, m);
        lemma_rule_term_holds(Rule::NoneUnless, plan_key(i, j), ms, m);
        assert(truths(ms, m) =~= v.calls[i as int][j as int]);
        lemma_count_true_bounds(v.calls[i as int][j as int], calls.len());
        assert(all[x] == rule_term(Rule::All, plan_key(i, j), ms));
        assert(none[x] == rule_term(Rule::NoneUnless, plan_key(i, j), ms));
    }
    if all_hold(all, m) && all_hold(none, m) {
        assert forall|i: int, j: int, k: int|
            0 <= i < p.len() && 0 <= j < p[i].len() && 0 <= k < p[i][j].calls.len()
                implies #[trigger] v.calls[i][j][k] == v.plans[i][j] by {
            let r = PlanRow { commit: i as nat, plan: j as nat };
            lemma_plan_rows(p, p.len(), r);
            let x = choose|x: int| 0 <= x < rows.len() && rows[x] == r;
            assert(holds(all[x], m) && holds(none[x], m));
        }
    }
    if calls_follow_plans(p, v) {
        assert forall|x: int| 0 <= x < all.len() implies holds(#[trigger] all[x], m) by {
            assert(plan_in(p, p.len(), rows[x]));
        }
        assert forall|x: int| 0 <= x < none.len() implies holds(#[trigger] none[x], m) by {
            assert(plan_in(p, p.len(), rows[x]));
        }
    }
}

/// The constraint of non-triviality holds exactly if a commitment is
/// accepted.
pub proof fn lemma_non_triviality(p: Seq<Seq<Plan>>, m: Interp)
    ensures
        holds(at_least_one(consts(commit_names(p))), m) <==> non_trivial(p, valuation_of(p, m)),
{
    let v = valuation_of(p, m);
    let cn = commit_names(p);
    assert(truths(cn, m) =~= v.commits);
    lemma_count_true_bounds(v.commits, p.len());
    if p.len() >= 1 {
        lemma_group_terms(consts(cn), m);
        lemma_count_consts(cn, m, cn.len());
    } else {
        reveal_with_fuel(holds, 2);
    }
}

/// The flag that the table of occurrences holds under an occurrence's
/// name is the flag of that occurrence.
pub proof fn lemma_flag_of(p: Seq<Seq<Plan>>, i: int, j: int, k: int)
    requires
        well_formed(p),
        0 <= i < p.len(),
        0 <= j < p[i].len(),
        0 <= k < p[i][j].calls.len(),
    ensures
        occurrence_names(p).contains(occurrence_key(i as nat, j as nat, p[i][j].calls[k].0)),
        occurrence_flags(p)[position(
            occurrence_names(p),
            occurrence_key(i as nat, j as nat, p[i][j].calls[k].0),
        ) as int] == p[i][j].calls[k].1,
{
    let on = occurrence_names(p);
    let os = occurrences(p, p.len());
    let call = p[i][j].calls[k];
    let name = occurrence_key(i as nat, j as nat, call.0);
    let o = Occurrence { commit: i as nat, plan: j as nat, identity: call.0, is_request: call.1 };
    assert(p[i][j].calls.contains((o.identity, o.is_request)));
    lemma_occurrences(p, p.len(), o);
    let x = choose|x: int| 0 <= x < os.len() && os[x] == o;
    assert(on[x] == name);
    lemma_position_found(on, name);
    let y = position(on, name) as int;
    let found = os[y];
    assert(on[y] == occurrence_name(found));
    lemma_occurrence_key_injective(
        found.commit,
        found.plan,
        found.identity,
        i as nat,
        j as nat,
        call.0,
    );
    assert(os.contains(found));
    lemma_occurrences(p, p.len(), found);
    let calls = p[i][j].calls;
    let k2 = choose|k2: int|
        0 <= k2 < calls.len() && calls[k2] == (found.identity, found.is_request);
    assert(plan_ok(p[i][j]));
    if k2 != k {
        if k2 < k {
            assert(calls[k2].0 != calls[k].0);
        } else {
            assert(calls[k].0 != calls[k2].0);
        }
    }
}

/// The price that the assignment of `m` holds under a price key is the
/// number that `m` gives the key.
pub proof fn lemma_price_of(p: Seq<Seq<Plan>>, m: Interp, key: Seq<char>)
    requires
        price_names(p).contains(key),
    ensures
        price_of(valuation_of(p, m).prices, key) == (m.number)(key),
{
    let v = valuation_of(p, m);
    assert(priced_keys(v.prices) =~= price_names(p));
    lemma_position_found(price_names(p), key);
}

/// The sum of two terms is worth the sum of what they are worth.
pub proof fn lemma_pair_sum(a: IntTerm, b: IntTerm, m: Interp)
    ensures
        value(IntTerm::Add(seq![a, b]), m) == value(a, m) + value(b, m),
{
    let both = seq![a, b];
    assert(both.len() == 2);
    assert(both[0] == a);
    assert(both[1] == b);
    assert(IntTerm::Add(both)->Add_0 == both);
    assert(value(IntTerm::Add(both), m) == sum(both, m, 2));
    assert(sum(both, m, 2) == sum(both, m, 1) + value(both[1], m));
    assert(sum(both, m, 1) == sum(both, m, 0) + value(both[0], m));
    assert(sum(both, m, 0) == 0);
}

/// A price with a sign is worth the number of the price constant, or what
/// is left when it is taken off nothing.
pub proof fn lemma_signed_value(key: Seq<char>, plus: bool, m: Interp)
    ensures
        value(
            IntTerm::Mul(
                seq![
                    IntTerm::Const(key),
                    IntTerm::Num(
                        if plus {
                            1
                        } else {
                            -1
                        },
                    ),
                ],
            ),
            m,
        ) == if plus {
            (m.number)(key)
        } else {
            -(m.number)(key)
        },
{
    let sign: int = if plus {
        1
    } else {
        -1
    };
    let factors = seq![IntTerm::Const(key), IntTerm::Num(sign)];
    assert(factors.len() == 2);
    assert(factors[0] == IntTerm::Const(key));
    assert(factors[1] == IntTerm::Num(sign));
    assert(value(factors[0], m) == (m.number)(key));
    assert(value(factors[1], m) == sign);
    assert(IntTerm::Mul(factors)->Mul_0 == factors);
    assert(value(IntTerm::Mul(factors), m) == product(factors, m, 2));
    assert(product(factors, m, 2) == product(factors, m, 1) * value(factors[1], m));
    assert(product(factors, m, 1) == product(factors, m, 0) * value(factors[0], m));
    assert(product(factors, m, 0) == 1);
    let number = (m.number)(key);
    assert(product(factors, m, 1) == 1 * number);
    assert(product(factors, m, 1) == number);
    assert(product(factors, m, 2) == number * sign);
    assert(number * 1 == number && number * (-1) == -number) by (nonlinear_arith);
    assert(seq![
        IntTerm::Const(key),
        IntTerm::Num(
            if plus {
                1
            } else {
                -1
            },
        ),
    ] =~= factors);
}

/// What one occurrence adds to the cost of its plan is the price of its
/// service call, with the sign of its side.
pub proof fn lemma_entry_value(p: Seq<Seq<Plan>>, m: Interp, i: int, j: int, k: int)
    requires
        well_formed(p),
        0 <= i < p.len(),
        0 <= j < p[i].len(),
        0 <= k < p[i][j].calls.len(),
    ensures
        value(
            signed_price(
                occurrence_key(i as nat, j as nat, p[i][j].calls[k].0),
                occurrence_names(p),
                occurrence_flags(p),
            ),
            m,
        ) == if p[i][j].calls[k].1 {
            price_of(valuation_of(p, m).prices, price_key(p[i][j].calls[k].0))
        } else {
            -price_of(valuation_of(p, m).prices, price_key(p[i][j].calls[k].0))
        },
{
    let id = p[i][j].calls[k].0;
    lemma_flag_of(p, i, j, k);
    lemma_occurrence_key_decodes(i as nat, j as nat, id);
    lemma_price_key_present(p, i, j, k);
    lemma_price_of(p, m, price_key(id));
    lemma_signed_value(price_key(id), p[i][j].calls[k].1, m);
}

/// What the term for the cost of a plan is worth is what the plan costs.
pub proof fn lemma_cost_value(p: Seq<Seq<Plan>>, m: Interp, i: int, j: int, c: nat)
    requires
        well_formed(p),
        0 <= i < p.len(),
        0 <= j < p[i].len(),
        c <= p[i][j].calls.len(),
    ensures
        value(
            cost_term(
                call_keys(i as nat, j as nat, p[i][j].calls),
                occurrence_names(p),
                occurrence_flags(p),
                c,
            ),
            m,
        ) == plan_cost(p[i][j].calls, valuation_of(p, m).prices, c),
    decreases c,
{
    if c > 0 {
        let ms = call_keys(i as nat, j as nat, p[i][j].calls);
        let on = occurrence_names(p);
        let fl = occurrence_flags(p);
        let before = cost_term(ms, on, fl, (c - 1) as nat);
        let entry = signed_price(ms[c - 1], on, fl);
        lemma_cost_value(p, m, i, j, (c - 1) as nat);
        lemma_entry_value(p, m, i, j, c - 1);
        lemma_pair_sum(before, entry, m);
        assert(cost_term(ms, on, fl, c) == IntTerm::Add(seq![before, entry]));
    }
}

/// The budget constraints hold exactly if every plan stays within its cost
/// ceiling at the prices that the assignment gives.
pub proof fn lemma_budgets(p: Seq<Seq<Plan>>, m: Interp)
    requires
        well_formed(p),
    ensures
        all_hold(
            budget_terms(p, occurrence_names(p), occurrence_flags(p), plan_rows(p, p.len())),
            m,
        ) <==> within_budgets(p, valuation_of(p, m)),
{
    let v = valuation_of(p, m);
    let on = occurrence_names(p);
    let fl = occurrence_flags(p);
    let rows = plan_rows(p, p.len());
    let terms = budget_terms(p, on, fl, rows);
    assert(on =~= occurrence_names_of(occurrences(p, p.len())));
    assert forall|x: int| 0 <= x < rows.len() implies plan_in(p, p.len(), #[trigger] rows[x]) && (
    holds(terms[x], m) <==> plan_cost(
        p[rows[x].commit as int][rows[x].plan as int].calls,
        v.prices,
        p[rows[x].commit as int][rows[x].plan as int].calls.len(),
    ) <= p[rows[x].commit as int][rows[x].plan as int].cost_ceil) by {
        let r = rows[x];
        assert(rows.contains(r));
        lemma_plan_rows(p, p.len(), r);
        let i = r.commit;
        let j = r.plan;
        let plan = p[i as int][j as int];
        let ms = call_keys(i, j, plan.calls);
        lemma_calls_of_plan(p, p.len(), i, j);
        assert(select(plan_prefixes(on), on, plan_name(r)) == ms);
        lemma_cost_value(p, m, i as int, j as int, plan.calls.len());
        assert(terms[x] == budget_term(ms, on, fl, plan.cost_ceil));
        reveal_with_fuel(holds, 2);
        reveal_with_fuel(value, 2);
    }
    if all_hold(terms, m) {
        assert forall|i: int, j: int| 0 <= i < p.len() && 0 <= j < p[i].len() implies plan_cost(
            (#[trigger] p[i][j]).calls,
            v.prices,
            p[i][j].calls.len(),
        ) <= p[i][j].cost_ceil by {
            let r = PlanRow { commit: i as nat, plan: j as nat };
            lemma_plan_rows(p, p.len(), r);
            let x = choose|x: int| 0 <= x < rows.len() && rows[x] == r;
            assert(holds(terms[x], m));
        }
    }
    if within_budgets(p, v) {
        assert forall|x: int| 0 <= x < terms.len() implies holds(#[trigger] terms[x], m) by {
            assert(plan_in(p, p.len(), rows[x]));
            let plan = p[rows[x].commit as int][rows[x].plan as int];
            assert(plan_cost(plan.calls, v.prices, plan.calls.len()) <= plan.cost_ceil);
        }
    }
}

/// For each of the occurrences `os`, whether it is an occurrence of `id`
/// on the side `requests` that takes place.
pub open spec fn marks(os: Seq<Occurrence>, m: Interp, id: Seq<char>, requests: bool) -> Seq<bool> {
    Seq::new(
        os.len(),
        |x: int|
            os[x].identity == id && os[x].is_request == requests && (m.truth)(
                occurrence_name(os[x]),
            ),
    )
}

/// Counting the occurrences of a service call that take place plan by
/// plan gives what counting them along the table gives.
pub proof fn lemma_active_in_plan_flat(
    p: Seq<Seq<Plan>>,
    m: Interp,
    i: int,
    j: int,
    id: Seq<char>,
    requests: bool,
    c: nat,
)
    requires
        0 <= i < p.len(),
        0 <= j < p[i].len(),
        c <= p[i][j].calls.len(),
    ensures
        active_in_plan(p[i][j].calls, valuation_of(p, m).calls[i][j], id, requests, c)
            == count_true(
            marks(
                call_row(i as nat, j as nat, p[i][j].calls, p[i][j].calls.len()),
                m,
                id,
                requests,
            ),
            c,
        ),
    decreases c,
{
    if c > 0 {
        lemma_active_in_plan_flat(p, m, i, j, id, requests, (c - 1) as nat);
    }
}

pub proof fn lemma_active_in_commit_flat(
    p: Seq<Seq<Plan>>,
    m: Interp,
    i: int,
    id: Seq<char>,
    requests: bool,
    n: nat,
)
    requires
        0 <= i < p.len(),
        n <= p[i].len(),
    ensures
        active_in_commit(p[i], valuation_of(p, m).calls[i], id, requests, n) == count_true(
            marks(commit_calls(i as nat, p[i], n), m, id, requests),
            commit_calls(i as nat, p[i], n).len(),
        ),
    decreases n,
{
    if n > 0 {
        let before = commit_calls(i as nat, p[i], (n - 1) as nat);
        let calls = p[i][n - 1].calls;
        let last = call_row(i as nat, (n - 1) as nat, calls, calls.len());
        lemma_active_in_commit_flat(p, m, i, id, requests, (n - 1) as nat);
        lemma_active_in_plan_flat(p, m, i, n - 1, id, requests, calls.len());
        assert(marks(before + last, m, id, requests) =~= marks(before, m, id, requests) + marks(
            last,
            m,
            id,
            requests,
        ));
        lemma_count_true_concat(
            marks(before, m, id, requests),
            marks(last, m, id, requests),
            last.len(),
        );
    }
}

pub proof fn lemma_active_flat(p: Seq<Seq<Plan>>, m: Interp, id: Seq<char>, requests: bool, n: nat)
    requires
        n <= p.len(),
    ensures
        active(p, valuation_of(p, m).calls, id, requests, n) == count_true(
            marks(occurrences(p, n), m, id, requests),
            occurrences(p, n).len(),
        ),
    decreases n,
{
    if n > 0 {
        let before = occurrences(p, (n - 1) as nat);
        let last = commit_calls((n - 1) as nat, p[n - 1], p[n - 1].len());
        lemma_active_flat(p, m, id, requests, (n - 1) as nat);
        lemma_active_in_commit_flat(p, m, n - 1, id, requests, p[n - 1].len());
        assert(marks(before + last, m, id, requests) =~= marks(before, m, id, requests) + marks(
            last,
            m,
            id,
            requests,
        ));
        lemma_count_true_concat(
            marks(before, m, id, requests),
            marks(last, m, id, requests),
            last.len(),
        );
    }
}

/// The occurrences of one side that the grouping files under a match key.
pub open spec fn pool(os: Seq<Occurrence>, id: Seq<char>, requests: bool) -> Seq<Seq<char>> {
    let side = pick(occurrence_names_of(os), flags_of(os), requests);
    select(match_keys(side), side, id)
}

/// As many of the variables that the grouping files under a match key
/// hold as occurrences of that service call take place on that side.
pub proof fn lemma_pool_count(os: Seq<Occurrence>, m: Interp, id: Seq<char>, requests: bool)
    ensures
        count_true(truths(pool(os, id, requests), m), pool(os, id, requests).len()) == count_true(
            marks(os, m, id, requests),
            os.len(),
        ),
    decreases os.len(),
{
    let names = occurrence_names_of(os);
    let fls = flags_of(os);
    let side = pick(names, fls, requests);
    let sel = pool(os, id, requests);
    if os.len() > 0 {
        let o = os.last();
        let rest = os.drop_last();
        let side0 = pick(occurrence_names_of(rest), flags_of(rest), requests);
        let sel0 = pool(rest, id, requests);
        lemma_pool_count(rest, m, id, requests);
        assert(names.drop_last() =~= occurrence_names_of(rest));
        assert(fls.drop_last() =~= flags_of(rest));
        assert(names.last() == occurrence_name(o));
        assert(fls.last() == o.is_request);
        lemma_count_true_prefix(
            marks(os, m, id, requests),
            marks(rest, m, id, requests),
            rest.len(),
        );
        lemma_occurrence_key_decodes(o.commit, o.plan, o.identity);
        if o.is_request == requests {
            assert(side == side0.push(occurrence_name(o)));
            assert(match_keys(side).drop_last() =~= match_keys(side0));
            assert(side.drop_last() =~= side0);
            assert(match_keys(side).last() == o.identity);
            if o.identity == id {
                assert(sel == sel0.push(occurrence_name(o)));
                lemma_count_true_prefix(truths(sel, m), truths(sel0, m), sel0.len());
            } else {
                assert(sel == sel0);
            }
        } else {
            assert(side == side0);
        }
    } else {
        assert(side =~= Seq::<Seq<char>>::empty());
    }
}

/// What one side owes the other for the service call `id`: a demand that
/// takes place is to find exactly one supply, a supply one demand at
/// least.
pub open spec fn answered(p: Seq<Seq<Plan>>, v: Valuation, id: Seq<char>, demands: bool) -> bool {
    let own = active(p, v.calls, id, demands, p.len());
    let other = active(p, v.calls, id, !demands, p.len());
    own >= 1 ==> if demands {
        other == 1
    } else {
        other >= 1
    }
}

/// What the constraints for one match key mean.
pub proof fn lemma_group_balance(
    own: Seq<Seq<char>>,
    other: Seq<Seq<char>>,
    demands: bool,
    m: Interp,
)
    requires
        own.len() >= 1,
    ensures
        all_hold(group_balance(own, other, demands), m) <==> (count_true(
            truths(own, m),
            own.len(),
        ) >= 1 ==> if demands {
            count_true(truths(other, m), other.len()) == 1
        } else {
            count_true(truths(other, m), other.len()) >= 1
        }),
{
    let terms = group_balance(own, other, demands);
    lemma_count_true_bounds(truths(own, m), own.len());
    if other.len() == 0 {
        reveal_with_fuel(holds, 2);
        assert forall|a: int| 0 <= a < own.len() implies (holds(#[trigger] terms[a], m)
            <==> !truths(own, m)[a]) by {}
        if all_hold(terms, m) {
            assert forall|a: int| 0 <= a < own.len() implies !#[trigger] truths(own, m)[a] by {
                assert(holds(terms[a], m));
            }
        }
    } else {
        reveal_with_fuel(holds, 2);
        lemma_group_terms(consts(own), m);
        lemma_group_terms(consts(other), m);
        lemma_count_consts(own, m, own.len());
        lemma_count_consts(other, m, other.len());
        assert(terms[0] == balance_term(own, other, demands));
        if all_hold(terms, m) {
            assert(holds(terms[0], m));
        }
    }
}

/// The constraints for the first `n` match keys hold exactly if those of
/// each do.
pub proof fn lemma_balance_terms(
    own: Seq<(Seq<char>, Seq<Seq<char>>)>,
    others: Seq<(Seq<char>, Seq<Seq<char>>)>,
    demands: bool,
    n: nat,
    m: Interp,
)
    requires
        n <= own.len(),
    ensures
        all_hold(balance_terms(own, others, demands, n), m) <==> forall|g: int|
            0 <= g < n ==> all_hold(
                group_balance((#[trigger] own[g]).1, members(others, own[g].0), demands),
                m,
            ),
    decreases n,
{
    if n > 0 {
        lemma_balance_terms(own, others, demands, (n - 1) as nat, m);
        lemma_all_hold_concat(
            balance_terms(own, others, demands, (n - 1) as nat),
            group_balance(own[n - 1].1, members(others, own[n - 1].0), demands),
            m,
        );
    }
}

/// The balance constraints of one side hold exactly if that side is
/// answered for every service call.
pub proof fn lemma_balance_side(p: Seq<Seq<Plan>>, m: Interp, demands: bool)
    ensures
        all_hold(
            balance_terms(
                pooled(p, demands),
                pooled(p, !demands),
                demands,
                pooled(p, demands).len(),
            ),
            m,
        ) <==> forall|id: Seq<char>| #[trigger] answered(p, valuation_of(p, m), id, demands),
{
    let v = valuation_of(p, m);
    let os = occurrences(p, p.len());
    let on = occurrence_names(p);
    let fl = occurrence_flags(p);
    assert(on =~= occurrence_names_of(os));
    assert(fl =~= flags_of(os));
    let mine = pick(on, fl, demands);
    let theirs = pick(on, fl, !demands);
    let own = pooled(p, demands);
    let others = pooled(p, !demands);
    let keys = first_occurrences(match_keys(mine));
    lemma_first_occurrences(match_keys(mine));
    lemma_balance_terms(own, others, demands, own.len(), m);
    assert forall|id: Seq<char>|
        active(p, v.calls, id, demands, p.len()) == count_true(
            truths(pool(os, id, demands), m),
            pool(os, id, demands).len(),
        ) && active(p, v.calls, id, !demands, p.len()) == count_true(
            truths(pool(os, id, !demands), m),
            pool(os, id, !demands).len(),
        ) by {
        lemma_active_flat(p, m, id, demands, p.len());
        lemma_active_flat(p, m, id, !demands, p.len());
        lemma_pool_count(os, m, id, demands);
        lemma_pool_count(os, m, id, !demands);
    }
    assert forall|g: int| 0 <= g < own.len() implies (all_hold(
        group_balance((#[trigger] own[g]).1, members(others, own[g].0), demands),
        m,
    ) <==> answered(p, v, own[g].0, demands)) by {
        let id = keys[g];
        assert(own[g].0 == id);
        assert(own[g].1 == pool(os, id, demands));
        lemma_members(match_keys(theirs), theirs, id);
        assert(members(others, id) == pool(os, id, !demands));
        assert(keys.contains(id));
        lemma_select(match_keys(mine), mine, id);
        lemma_group_balance(own[g].1, members(others, id), demands, m);
        assert(active(p, v.calls, id, demands, p.len()) == count_true(
            truths(pool(os, id, demands), m),
            pool(os, id, demands).len(),
        ));
    }
    let all = all_hold(balance_terms(own, others, demands, own.len()), m);
    if all {
        assert forall|id: Seq<char>| #[trigger] answered(p, v, id, demands) by {
            let count = active(p, v.calls, id, demands, p.len());
            assert(count == count_true(
                truths(pool(os, id, demands), m),
                pool(os, id, demands).len(),
            ));
            if count >= 1 {
                lemma_count_true_bounds(truths(pool(os, id, demands), m), pool(os, id, demands).len());
                if !match_keys(mine).contains(id) {
                    lemma_select_absent(match_keys(mine), mine, id);
                }
                assert(keys.contains(id));
                let g = choose|g: int| 0 <= g < keys.len() && keys[g] == id;
                assert(own[g].0 == id);
                assert(all_hold(group_balance(own[g].1, members(others, own[g].0), demands), m));
            }
        }
    }
    if forall|id: Seq<char>| #[trigger] answered(p, v, id, demands) {
        assert forall|g: int| 0 <= g < own.len() implies all_hold(
            group_balance((#[trigger] own[g]).1, members(others, own[g].0), demands),
            m,
        ) by {
            assert(answered(p, v, own[g].0, demands));
        }
    }
}

/// The balance constraints hold exactly if demand and supply are balanced
/// for every service call.
pub proof fn lemma_balance(p: Seq<Seq<Plan>>, m: Interp)
    ensures
        all_hold(
            balance_terms(pooled(p, true), pooled(p, false), true, pooled(p, true).len()),
            m,
        ) && all_hold(
            balance_terms(pooled(p, false), pooled(p, true), false, pooled(p, false).len()),
            m,
        ) <==> all_balanced(p, valuation_of(p, m)),
{
    let v = valuation_of(p, m);
    lemma_balance_side(p, m, true);
    lemma_balance_side(p, m, false);
    if all_balanced(p, v) {
        assert forall|id: Seq<char>| #[trigger] answered(p, v, id, true) by {
            assert(balanced(p, v, id));
        }
        assert forall|id: Seq<char>| #[trigger] answered(p, v, id, false) by {
            assert(balanced(p, v, id));
        }
    }
    if (forall|id: Seq<char>| #[trigger] answered(p, v, id, true)) && (forall|id: Seq<char>| #[trigger]
        answered(p, v, id, false)) {
        assert forall|id: Seq<char>| #[trigger] balanced(p, v, id) by {
            assert(answered(p, v, id, true));
            assert(answered(p, v, id, false));
        }
    }
}

/// An assignment to the named constants meets every constraint of a
/// problem exactly if the assignment that it makes to the decision
/// variables is a schedule of the problem.
pub proof fn lemma_constraints_mean_schedules(p: Seq<Seq<Plan>>, m: Interp)
    requires
        well_formed(p),
    ensures
        all_hold(constraints(p), m) <==> valid(p, valuation_of(p, m)),
{
    let cn = commit_names(p);
    let pn = plan_names(p);
    let on = occurrence_names(p);
    let fl = occurrence_flags(p);
    let t1 = rule_terms(Rule::ExactlyOne, cn, commit_prefixes(pn), pn);
    let t2 = rule_terms(Rule::NoneUnless, cn, commit_prefixes(pn), pn);
    let t3 = rule_terms(Rule::All, pn, plan_prefixes(on), on);
    let t4 = rule_terms(Rule::NoneUnless, pn, plan_prefixes(on), on);
    let t5 = balance_terms(pooled(p, true), pooled(p, false), true, pooled(p, true).len());
    let t6 = balance_terms(pooled(p, false), pooled(p, true), false, pooled(p, false).len());
    let t7 = seq![at_least_one(consts(cn))];
    let t8 = budget_terms(p, on, fl, plan_rows(p, p.len()));
    assert(constraints(p) == t1 + t2 + t3 + t4 + t5 + t6 + t7 + t8);
    lemma_all_hold_concat(t1 + t2 + t3 + t4 + t5 + t6 + t7, t8, m);
    lemma_all_hold_concat(t1 + t2 + t3 + t4 + t5 + t6, t7, m);
    lemma_all_hold_concat(t1 + t2 + t3 + t4 + t5, t6, m);
    lemma_all_hold_concat(t1 + t2 + t3 + t4, t5, m);
    lemma_all_hold_concat(t1 + t2 + t3, t4, m);
    lemma_all_hold_concat(t1 + t2, t3, m);
    lemma_all_hold_concat(t1, t2, m);
    assert(all_hold(t7, m) <==> holds(at_least_one(consts(cn)), m)) by {
        assert(t7[0] == at_least_one(consts(cn)));
        if all_hold(t7, m) {
            assert(holds(t7[0], m));
        }
    }
    lemma_valuation_fits(p, m);
    lemma_plan_selection(p, m);
    lemma_activation(p, m);
    lemma_balance(p, m);
    lemma_non_triviality(p, m);
    lemma_budgets(p, m);
}

/// A commitment counts one where it is accepted, nothing where it is
/// not.
pub proof fn lemma_counted_value(name: Seq<char>, m: Interp)
    ensures
        value(
            IntTerm::Ite(
                Box::new(BoolTerm::Const(name)),
                Box::new(IntTerm::Num(1)),
                Box::new(IntTerm::Num(0)),
            ),
            m,
        ) == if (m.truth)(name) {
            1int
        } else {
            0int
        },
{
    reveal_with_fuel(value, 2);
    reveal_with_fuel(holds, 2);
}

/// What the term that counts the first `n` commitments is worth: the
/// number of those among them that are accepted.
pub proof fn lemma_count_value(p: Seq<Seq<Plan>>, m: Interp, n: nat)
    requires
        n <= p.len(),
    ensures
        value(count_term(commit_names(p), n), m) == count_true(valuation_of(p, m).commits, n),
    decreases n,
{
    if n > 0 {
        let cn = commit_names(p);
        let before = count_term(cn, (n - 1) as nat);
        let entry = IntTerm::Ite(
            Box::new(BoolTerm::Const(cn[n - 1])),
            Box::new(IntTerm::Num(1)),
            Box::new(IntTerm::Num(0)),
        );
        lemma_count_value(p, m, (n - 1) as nat);
        lemma_counted_value(cn[n - 1], m);
        lemma_pair_sum(before, entry, m);
        assert(count_term(cn, n) == IntTerm::Add(seq![before, entry]));
    }
}

/// What the solver is asked to make as large as it can is the number of
/// accepted commitments.
pub proof fn lemma_objective_counts_accepted(p: Seq<Seq<Plan>>, m: Interp)
    ensures
        value(objective(p), m) == accepted(valuation_of(p, m)),
{
    lemma_count_value(p, m, p.len());
}

/// `name` is the name of commitment `i` of `p`.
pub open spec fn names_commit(p: Seq<Seq<Plan>>, name: Seq<char>, i: int) -> bool {
    0 <= i < p.len() && commit_key(i as nat) == name
}

/// `name` is the name of plan `j` of commitment `i` of `p`.
pub open spec fn names_plan(p: Seq<Seq<Plan>>, name: Seq<char>, i: int, j: int) -> bool {
    0 <= i < p.len() && 0 <= j < p[i].len() && plan_key(i as nat, j as nat) == name
}

/// `name` is the name of the occurrence of call `k` of plan `j` of
/// commitment `i` of `p`.
pub open spec fn names_call(p: Seq<Seq<Plan>>, name: Seq<char>, i: int, j: int, k: int) -> bool {
    0 <= i < p.len() && 0 <= j < p[i].len() && 0 <= k < p[i][j].calls.len() && occurrence_key(
        i as nat,
        j as nat,
        p[i][j].calls[k].0,
    ) == name
}

/// The truth value that the assignment `v` gives the variable of that
/// name.
pub open spec fn truth_under(p: Seq<Seq<Plan>>, v: Valuation, name: Seq<char>) -> bool {
    if exists|i: int| names_commit(p, name, i) {
        let i = choose|i: int| names_commit(p, name, i);
        v.commits[i]
    } else if exists|i: int, j: int| names_plan(p, name, i, j) {
        let (i, j) = choose|i: int, j: int| names_plan(p, name, i, j);
        v.plans[i][j]
    } else if exists|i: int, j: int, k: int| names_call(p, name, i, j, k) {
        let (i, j, k) = choose|i: int, j: int, k: int| names_call(p, name, i, j, k);
        v.calls[i][j][k]
    } else {
        false
    }
}

/// The assignment to the named constants that `v` makes through the names
/// of the decision variables.
pub open spec fn interp_of(p: Seq<Seq<Plan>>, v: Valuation) -> Interp {
    Interp {
        truth: |name: Seq<char>| truth_under(p, v, name),
        number: |name: Seq<char>| price_of(v.prices, name),
    }
}

/// The variable that a commitment's name names is that commitment's.
pub proof fn lemma_truth_of_commit(p: Seq<Seq<Plan>>, v: Valuation, i: int)
    requires
        0 <= i < p.len(),
    ensures
        truth_under(p, v, commit_key(i as nat)) == v.commits[i],
{
    let name = commit_key(i as nat);
    assert(names_commit(p, name, i));
    let c = choose|c: int| names_commit(p, name, c);
    lemma_commit_key_injective(c as nat, i as nat);
}

/// The variable that a plan's name names is that plan's.
pub proof fn lemma_truth_of_plan(p: Seq<Seq<Plan>>, v: Valuation, i: int, j: int)
    requires
        0 <= i < p.len(),
        0 <= j < p[i].len(),
    ensures
        truth_under(p, v, plan_key(i as nat, j as nat)) == v.plans[i][j],
{
    let name = plan_key(i as nat, j as nat);
    assert forall|c: int| !names_commit(p, name, c) by {
        lemma_key_kinds_disjoint(c as nat, i as nat, j as nat, 0, 0, Seq::empty());
    }
    assert(names_plan(p, name, i, j));
    let (a, b) = choose|a: int, b: int| names_plan(p, name, a, b);
    lemma_plan_key_injective(a as nat, b as nat, i as nat, j as nat);
}

/// The variable that an occurrence's name names is that occurrence's.
pub proof fn lemma_truth_of_call(p: Seq<Seq<Plan>>, v: Valuation, i: int, j: int, k: int)
    requires
        well_formed(p),
        0 <= i < p.len(),
        0 <= j < p[i].len(),
        0 <= k < p[i][j].calls.len(),
    ensures
        truth_under(p, v, occurrence_key(i as nat, j as nat, p[i][j].calls[k].0))
            == v.calls[i][j][k],
{
    let id = p[i][j].calls[k].0;
    let name = occurrence_key(i as nat, j as nat, id);
    assert forall|c: int| !names_commit(p, name, c) by {
        lemma_key_kinds_disjoint(c as nat, 0, 0, i as nat, j as nat, id);
    }
    assert forall|a: int, b: int| !names_plan(p, name, a, b) by {
        lemma_key_kinds_disjoint(0, a as nat, b as nat, i as nat, j as nat, id);
    }
    assert(names_call(p, name, i, j, k));
    let (a, b, c) = choose|a: int, b: int, c: int| names_call(p, name, a, b, c);
    lemma_occurrence_key_injective(a as nat, b as nat, p[a][b].calls[c].0, i as nat, j as nat, id);
    assert(plan_ok(p[i][j]));
    if c != k {
        if c < k {
            assert(p[i][j].calls[c].0 != p[i][j].calls[k].0);
        } else {
            assert(p[i][j].calls[k].0 != p[i][j].calls[c].0);
        }
    }
}

/// No two decision variables share a name: every assignment to the
/// decision variables of a problem is the one that some assignment to
/// the named constants makes.
pub proof fn lemma_schedules_are_assignments(p: Seq<Seq<Plan>>, v: Valuation)
    requires
        well_formed(p),
        fitting(p, v),
    ensures
        valuation_of(p, interp_of(p, v)) == v,
{
    let m = interp_of(p, v);
    let w = valuation_of(p, m);
    assert forall|i: int| 0 <= i < p.len() implies w.commits[i] == v.commits[i] by {
        lemma_truth_of_commit(p, v, i);
    }
    assert(w.commits =~= v.commits);
    assert forall|i: int| 0 <= i < p.len() implies #[trigger] w.plans[i] == v.plans[i] by {
        assert forall|j: int| 0 <= j < p[i].len() implies w.plans[i][j] == v.plans[i][j] by {
            lemma_truth_of_plan(p, v, i, j);
        }
        assert(w.plans[i] =~= v.plans[i]);
    }
    assert(w.plans =~= v.plans);
    assert forall|i: int| 0 <= i < p.len() implies #[trigger] w.calls[i] == v.calls[i] by {
        assert forall|j: int| 0 <= j < p[i].len() implies #[trigger] w.calls[i][j]
            == v.calls[i][j] by {
            assert forall|k: int| 0 <= k < p[i][j].calls.len() implies w.calls[i][j][k]
                == v.calls[i][j][k] by {
                lemma_truth_of_call(p, v, i, j, k);
            }
            assert(w.calls[i][j] =~= v.calls[i][j]);
        }
        assert(w.calls[i] =~= v.calls[i]);
    }
    assert(w.calls =~= v.calls);
    let keys = price_names(p);
    lemma_first_occurrences(price_keys(occurrences(p, p.len())));
    assert forall|y: int| 0 <= y < keys.len() implies w.prices[y] == v.prices[y] by {
        assert(priced_keys(v.prices)[y] == v.prices[y].0);
        assert(keys.contains(keys[y]));
        lemma_position_found(keys, keys[y]);
        assert(position(keys, keys[y]) == y);
    }
    assert(w.prices =~= v.prices);
}

/// A problem has a schedule exactly if its constraints can be met.
pub proof fn lemma_satisfiable_means_schedulable(p: Seq<Seq<Plan>>)
    requires
        well_formed(p),
    ensures
        (exists|m: Interp| all_hold(constraints(p), m)) <==> (exists|v: Valuation| valid(p, v)),
{
    if exists|m: Interp| all_hold(constraints(p), m) {
        let m = choose|m: Interp| all_hold(constraints(p), m);
        lemma_constraints_mean_schedules(p, m);
        assert(valid(p, valuation_of(p, m)));
    }
    if exists|v: Valuation| valid(p, v) {
        let v = choose|v: Valuation| valid(p, v);
        lemma_schedules_are_assignments(p, v);
        lemma_constraints_mean_schedules(p, interp_of(p, v));
        assert(all_hold(constraints(p), interp_of(p, v)));
    }
}

/// Every plan is filed under the name of its commitment, and under no
/// other name.
pub proof fn lemma_every_plan_is_grouped_once(p: Seq<Seq<Plan>>, x: int, k: Seq<char>)
    requires
        0 <= x < plan_names(p).len(),
    ensures
        members(
            groups(commit_prefixes(plan_names(p)), plan_names(p)),
            commit_prefix(plan_names(p)[x]),
        ).contains(plan_names(p)[x]),
        members(groups(commit_prefixes(plan_names(p)), plan_names(p)), k).contains(
            plan_names(p)[x],
        ) ==> k == commit_prefix(plan_names(p)[x]),
{
    let pn = plan_names(p);
    let keys = commit_prefixes(pn);
    lemma_plan_names_distinct(p);
    lemma_members(keys, pn, keys[x]);
    lemma_members(keys, pn, k);
    lemma_item_in_its_group(keys, pn, x);
    if select(keys, pn, k).contains(pn[x]) {
        lemma_item_in_one_group(keys, pn, k, x);
    }
}

/// Every occurrence is filed under the name of its plan, and under no
/// other name.
pub proof fn lemma_every_occurrence_is_grouped_once(p: Seq<Seq<Plan>>, x: int, k: Seq<char>)
    requires
        well_formed(p),
        0 <= x < occurrence_names(p).len(),
    ensures
        members(
            groups(plan_prefixes(occurrence_names(p)), occurrence_names(p)),
            plan_prefix(occurrence_names(p)[x]),
        ).contains(occurrence_names(p)[x]),
        members(groups(plan_prefixes(occurrence_names(p)), occurrence_names(p)), k).contains(
            occurrence_names(p)[x],
        ) ==> k == plan_prefix(occurrence_names(p)[x]),
{
    let on = occurrence_names(p);
    let keys = plan_prefixes(on);
    lemma_occurrence_names_distinct(p);
    lemma_members(keys, on, keys[x]);
    lemma_members(keys, on, k);
    lemma_item_in_its_group(keys, on, x);
    if select(keys, on, k).contains(on[x]) {
        lemma_item_in_one_group(keys, on, k, x);
    }
}

/// Every occurrence is pooled once: among the demands or among the
/// supplies, as its flag says, under its match key, and nowhere else.
pub proof fn lemma_every_occurrence_is_pooled_once(
    p: Seq<Seq<Plan>>,
    x: int,
    requests: bool,
    k: Seq<char>,
)
    requires
        well_formed(p),
        0 <= x < occurrence_names(p).len(),
    ensures
        members(pooled(p, occurrence_flags(p)[x]), match_key(occurrence_names(p)[x])).contains(
            occurrence_names(p)[x],
        ),
        members(pooled(p, requests), k).contains(occurrence_names(p)[x]) ==> requests
            == occurrence_flags(p)[x] && k == match_key(occurrence_names(p)[x]),
{
    let on = occurrence_names(p);
    let fl = occurrence_flags(p);
    lemma_occurrence_names_distinct(p);
    let mine = pick(on, fl, fl[x]);
    lemma_pick_parts(on, fl, fl[x], x);
    let y = choose|y: int| 0 <= y < mine.len() && mine[y] == on[x];
    lemma_item_in_its_group(match_keys(mine), mine, y);
    lemma_members(match_keys(mine), mine, match_key(on[x]));
    let side = pick(on, fl, requests);
    lemma_pick_parts(on, fl, requests, x);
    lemma_members(match_keys(side), side, k);
    if select(match_keys(side), side, k).contains(on[x]) {
        lemma_select(match_keys(side), side, k);
        assert(side.contains(on[x]));
        let z = choose|z: int| 0 <= z < side.len() && side[z] == on[x];
        lemma_item_in_one_group(match_keys(side), side, k, z);
    }
}

} // verus!
