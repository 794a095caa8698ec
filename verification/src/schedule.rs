//! Schedules: which commitments are accepted, through which plans, at what
//! prices, and the rules that make such an assignment a schedule.

use crate::ident::price_key;
use crate::model::{problem, Plan};
use crate::term::{count_true, lemma_count_true_bounds};
use crate::vars::{position, price_names};
use vstd::prelude::*;

verus! {

/// An assignment to the decision variables of a problem.
#[derive(Debug)]
pub struct Schedule {
    /// For each commitment, whether it is accepted.
    pub commits: Vec<bool>,
    /// For each commitment, for each of its plans, whether it is chosen.
    pub allofs: Vec<Vec<bool>>,
    /// For each plan, for each of its service calls, whether it takes
    /// place.
    pub s_calls: Vec<Vec<Vec<bool>>>,
    /// For each price key, the price.
    pub prices: Vec<(String, i64)>,
}

/// An assignment as a mathematical value.
pub struct Valuation {
    pub commits: Seq<bool>,
    pub plans: Seq<Seq<bool>>,
    pub calls: Seq<Seq<Seq<bool>>>,
    pub prices: Seq<(Seq<char>, int)>,
}

/// The values of the plans' variables.
pub open spec fn plan_values(v: Seq<Vec<bool>>) -> Seq<Seq<bool>> {
    Seq::new(v.len(), |i: int| v[i]@)
}

/// The values of the occurrences' variables.
pub open spec fn call_values(v: Seq<Vec<Vec<bool>>>) -> Seq<Seq<Seq<bool>>> {
    Seq::new(v.len(), |i: int| plan_values(v[i]@))
}

/// The prices with their keys.
pub open spec fn price_values(v: Seq<(String, i64)>) -> Seq<(Seq<char>, int)> {
    Seq::new(v.len(), |y: int| (v[y].0@, v[y].1 as int))
}

impl View for Schedule {
    type V = Valuation;

    open spec fn view(&self) -> Valuation {
        Valuation {
            commits: self.commits@,
            plans: plan_values(self.allofs@),
            calls: call_values(self.s_calls@),
            prices: price_values(self.prices@),
        }
    }
}

/// The keys of a list of prices.
pub open spec fn priced_keys(prices: Seq<(Seq<char>, int)>) -> Seq<Seq<char>> {
    Seq::new(prices.len(), |y: int| prices[y].0)
}

/// The price that stands under `key`.
pub open spec fn price_of(prices: Seq<(Seq<char>, int)>, key: Seq<char>) -> int {
    prices[position(priced_keys(prices), key) as int].1
}

/// The assignment has a value for each variable of the problem, and for
/// nothing else.
pub open spec fn fitting(p: Seq<Seq<Plan>>, v: Valuation) -> bool {
    &&& v.commits.len() == p.len()
    &&& v.plans.len() == p.len()
    &&& v.calls.len() == p.len()
    &&& forall|i: int| 0 <= i < p.len() ==> (#[trigger] v.plans[i]).len() == p[i].len()
    &&& forall|i: int| 0 <= i < p.len() ==> (#[trigger] v.calls[i]).len() == p[i].len()
    &&& forall|i: int, j: int|
        0 <= i < p.len() && 0 <= j < p[i].len() ==> (#[trigger] v.calls[i][j]).len()
            == p[i][j].calls.len()
    &&& priced_keys(v.prices) == price_names(p)
}

/// An accepted commitment has exactly one chosen plan, and a commitment
/// that is not accepted has none.
pub open spec fn one_plan_each(p: Seq<Seq<Plan>>, v: Valuation) -> bool {
    forall|i: int|
        0 <= i < p.len() ==> count_true(#[trigger] v.plans[i], v.plans[i].len()) == if v.commits[i] {
            1nat
        } else {
            0nat
        }
}

/// Every service call of a chosen plan takes place, and none of a plan
/// that is not chosen.
pub open spec fn calls_follow_plans(p: Seq<Seq<Plan>>, v: Valuation) -> bool {
    forall|i: int, j: int, k: int|
        0 <= i < p.len() && 0 <= j < p[i].len() && 0 <= k < p[i][j].calls.len()
            ==> #[trigger] v.calls[i][j][k] == v.plans[i][j]
}

/// How many of the first `c` calls of a plan are occurrences of `id` on
/// the side `requests` that take place.
pub open spec fn active_in_plan(
    calls: Seq<(Seq<char>, bool)>,
    vals: Seq<bool>,
    id: Seq<char>,
    requests: bool,
    c: nat,
) -> nat
    decreases c,
{
    if c == 0 || c > calls.len() {
        0
    } else {
        active_in_plan(calls, vals, id, requests, (c - 1) as nat) + if calls[c - 1] == (
            id,
            requests,
        ) && vals[c - 1] {
            1nat
        } else {
            0nat
        }
    }
}

/// The same count over the first `m` plans of a commitment.
pub open spec fn active_in_commit(
    plans: Seq<Plan>,
    vals: Seq<Seq<bool>>,
    id: Seq<char>,
    requests: bool,
    m: nat,
) -> nat
    decreases m,
{
    if m == 0 || m > plans.len() {
        0
    } else {
        active_in_commit(plans, vals, id, requests, (m - 1) as nat) + active_in_plan(
            plans[m - 1].calls,
            vals[m - 1],
            id,
            requests,
            plans[m - 1].calls.len(),
        )
    }
}

/// How many occurrences of `id` on the side `requests` take place, in the
/// first `n` commitments.
pub open spec fn active(
    p: Seq<Seq<Plan>>,
    vals: Seq<Seq<Seq<bool>>>,
    id: Seq<char>,
    requests: bool,
    n: nat,
) -> nat
    decreases n,
{
    if n == 0 || n > p.len() {
        0
    } else {
        active(p, vals, id, requests, (n - 1) as nat) + active_in_commit(
            p[n - 1],
            vals[n - 1],
            id,
            requests,
            p[n - 1].len(),
        )
    }
}

/// Where a demand for `id` takes place, exactly one supply of it does,
/// and where a supply of it takes place, so does a demand for it.
pub open spec fn balanced(p: Seq<Seq<Plan>>, v: Valuation, id: Seq<char>) -> bool {
    let demands = active(p, v.calls, id, true, p.len());
    let supplies = active(p, v.calls, id, false, p.len());
    (demands >= 1 ==> supplies == 1) && (supplies >= 1 ==> demands >= 1)
}

/// Demand and supply are balanced for every service call.
pub open spec fn all_balanced(p: Seq<Seq<Plan>>, v: Valuation) -> bool {
    forall|id: Seq<char>| #[trigger] balanced(p, v, id)
}

/// What the first `c` calls of a plan cost: the prices of what it
/// demands less the prices of what it supplies.
pub open spec fn plan_cost(calls: Seq<(Seq<char>, bool)>, prices: Seq<(Seq<char>, int)>, c: nat) -> int
    decreases c,
{
    if c == 0 || c > calls.len() {
        0
    } else {
        plan_cost(calls, prices, (c - 1) as nat) + if calls[c - 1].1 {
            price_of(prices, price_key(calls[c - 1].0))
        } else {
            -price_of(prices, price_key(calls[c - 1].0))
        }
    }
}

/// Every plan stays within its cost ceiling, chosen or not.
pub open spec fn within_budgets(p: Seq<Seq<Plan>>, v: Valuation) -> bool {
    forall|i: int, j: int|
        0 <= i < p.len() && 0 <= j < p[i].len() ==> plan_cost(
            (#[trigger] p[i][j]).calls,
            v.prices,
            p[i][j].calls.len(),
        ) <= p[i][j].cost_ceil
}

/// One commitment at least is accepted.
pub open spec fn non_trivial(p: Seq<Seq<Plan>>, v: Valuation) -> bool {
    exists|i: int| 0 <= i < p.len() && #[trigger] v.commits[i]
}

/// The assignment is a schedule of the problem.
pub open spec fn valid(p: Seq<Seq<Plan>>, v: Valuation) -> bool {
    &&& fitting(p, v)
    &&& one_plan_each(p, v)
    &&& calls_follow_plans(p, v)
    &&& all_balanced(p, v)
    &&& within_budgets(p, v)
    &&& non_trivial(p, v)
}

/// The number of accepted commitments.
pub open spec fn accepted(v: Valuation) -> nat {
    count_true(v.commits, v.commits.len())
}

/// Exactly one of the first `n` values is true: one is, and no other.
pub open spec fn one_true(s: Seq<bool>, n: nat) -> bool {
    exists|j: int| 0 <= j < n && #[trigger] s[j] && forall|other: int|
        0 <= other < n && other != j ==> !#[trigger] s[other]
}

/// The count is one exactly if one value is true and no other.
pub proof fn lemma_count_one(s: Seq<bool>, n: nat)
    requires
        n <= s.len(),
    ensures
        count_true(s, n) == 1 <==> one_true(s, n),
    decreases n,
{
    if n > 0 {
        lemma_count_one(s, (n - 1) as nat);
        lemma_count_true_bounds(s, (n - 1) as nat);
        lemma_count_true_bounds(s, n);
        if count_true(s, n) == 1 {
            if s[n - 1] {
                assert(forall|other: int| 0 <= other < n && other != n - 1 ==> !#[trigger] s[other]);
            } else {
                let j = choose|j: int|
                    0 <= j < n - 1 && #[trigger] s[j] && forall|other: int|
                        0 <= other < n - 1 && other != j ==> !#[trigger] s[other];
                assert(forall|other: int| 0 <= other < n && other != j ==> !#[trigger] s[other]);
            }
        }
        if one_true(s, n) {
            let j = choose|j: int|
                0 <= j < n && #[trigger] s[j] && forall|other: int|
                    0 <= other < n && other != j ==> !#[trigger] s[other];
            if j == n - 1 {
                assert(forall|other: int| 0 <= other < n - 1 ==> !#[trigger] s[other]);
            } else {
                assert(!s[n - 1]);
                assert(forall|other: int|
                    0 <= other < n - 1 && other != j ==> !#[trigger] s[other]);
                assert(one_true(s, (n - 1) as nat));
            }
        }
    }
}

/// In a schedule, an accepted commitment has one plan that is chosen, and
/// no other of its plans is.
pub proof fn lemma_accepted_has_one_plan(p: Seq<Seq<Plan>>, v: Valuation, i: int)
    requires
        valid(p, v),
        0 <= i < p.len(),
        v.commits[i],
    ensures
        one_true(v.plans[i], p[i].len()),
{
    assert(count_true(v.plans[i], v.plans[i].len()) == 1);
    lemma_count_one(v.plans[i], p[i].len());
}

/// In a schedule, no plan of a commitment that is not accepted is chosen.
pub proof fn lemma_rejected_has_no_plan(p: Seq<Seq<Plan>>, v: Valuation, i: int, j: int)
    requires
        valid(p, v),
        0 <= i < p.len(),
        0 <= j < p[i].len(),
        !v.commits[i],
    ensures
        !v.plans[i][j],
{
    assert(count_true(v.plans[i], v.plans[i].len()) == 0);
    lemma_count_true_bounds(v.plans[i], p[i].len());
}

/// An occurrence that takes place is counted.
pub proof fn lemma_active_counts(p: Seq<Seq<Plan>>, vals: Seq<Seq<Seq<bool>>>, i: int, j: int, k: int)
    requires
        0 <= i < p.len(),
        0 <= j < p[i].len(),
        0 <= k < p[i][j].calls.len(),
        vals[i][j][k],
    ensures
        active(p, vals, p[i][j].calls[k].0, p[i][j].calls[k].1, p.len()) >= 1,
{
    let id = p[i][j].calls[k].0;
    let side = p[i][j].calls[k].1;
    lemma_active_in_plan_grows(p[i][j].calls, vals[i][j], id, side, (k + 1) as nat, p[i][j].calls.len());
    lemma_active_in_commit_grows(p[i], vals[i], id, side, (j + 1) as nat, p[i].len());
    lemma_active_grows(p, vals, id, side, (i + 1) as nat, p.len());
}

proof fn lemma_active_in_plan_grows(
    calls: Seq<(Seq<char>, bool)>,
    vals: Seq<bool>,
    id: Seq<char>,
    requests: bool,
    a: nat,
    b: nat,
)
    requires
        a <= b <= calls.len(),
    ensures
        active_in_plan(calls, vals, id, requests, a) <= active_in_plan(calls, vals, id, requests, b),
    decreases b - a,
{
    if a < b {
        lemma_active_in_plan_grows(calls, vals, id, requests, a, (b - 1) as nat);
    }
}

proof fn lemma_active_in_commit_grows(
    plans: Seq<Plan>,
    vals: Seq<Seq<bool>>,
    id: Seq<char>,
    requests: bool,
    a: nat,
    b: nat,
)
    requires
        a <= b <= plans.len(),
    ensures
        active_in_commit(plans, vals, id, requests, a) <= active_in_commit(
            plans,
            vals,
            id,
            requests,
            b,
        ),
    decreases b - a,
{
    if a < b {
        lemma_active_in_commit_grows(plans, vals, id, requests, a, (b - 1) as nat);
    }
}

proof fn lemma_active_grows(
    p: Seq<Seq<Plan>>,
    vals: Seq<Seq<Seq<bool>>>,
    id: Seq<char>,
    requests: bool,
    a: nat,
    b: nat,
)
    requires
        a <= b <= p.len(),
    ensures
        active(p, vals, id, requests, a) <= active(p, vals, id, requests, b),
    decreases b - a,
{
    if a < b {
        lemma_active_grows(p, vals, id, requests, a, (b - 1) as nat);
    }
}

/// A count that is not zero has counted an occurrence.
pub proof fn lemma_active_in_plan_occurs(
    calls: Seq<(Seq<char>, bool)>,
    vals: Seq<bool>,
    id: Seq<char>,
    requests: bool,
    c: nat,
) -> (k: int)
    requires
        active_in_plan(calls, vals, id, requests, c) >= 1,
    ensures
        0 <= k < c <= calls.len(),
        calls[k] == (id, requests),
        vals[k],
    decreases c,
{
    if calls[c - 1] == (id, requests) && vals[c - 1] {
        c - 1
    } else {
        lemma_active_in_plan_occurs(calls, vals, id, requests, (c - 1) as nat)
    }
}

pub proof fn lemma_active_in_commit_occurs(
    plans: Seq<Plan>,
    vals: Seq<Seq<bool>>,
    id: Seq<char>,
    requests: bool,
    m: nat,
) -> (w: (int, int))
    requires
        active_in_commit(plans, vals, id, requests, m) >= 1,
    ensures
        0 <= w.0 < m <= plans.len(),
        0 <= w.1 < plans[w.0].calls.len(),
        plans[w.0].calls[w.1] == (id, requests),
        vals[w.0][w.1],
    decreases m,
{
    let calls = plans[m - 1].calls;
    if active_in_plan(calls, vals[m - 1], id, requests, calls.len()) >= 1 {
        let k = lemma_active_in_plan_occurs(calls, vals[m - 1], id, requests, calls.len());
        (m - 1, k)
    } else {
        lemma_active_in_commit_occurs(plans, vals, id, requests, (m - 1) as nat)
    }
}

/// A service call of which an occurrence is counted has an occurrence in
/// the problem that takes place.
pub proof fn lemma_active_occurs(
    p: Seq<Seq<Plan>>,
    vals: Seq<Seq<Seq<bool>>>,
    id: Seq<char>,
    requests: bool,
    n: nat,
) -> (w: (int, int, int))
    requires
        active(p, vals, id, requests, n) >= 1,
    ensures
        0 <= w.0 < n <= p.len(),
        0 <= w.1 < p[w.0].len(),
        0 <= w.2 < p[w.0][w.1].calls.len(),
        p[w.0][w.1].calls[w.2] == (id, requests),
        vals[w.0][w.1][w.2],
    decreases n,
{
    if active_in_commit(p[n - 1], vals[n - 1], id, requests, p[n - 1].len()) >= 1 {
        let w = lemma_active_in_commit_occurs(p[n - 1], vals[n - 1], id, requests, p[n - 1].len());
        (n - 1, w.0, w.1)
    } else {
        lemma_active_occurs(p, vals, id, requests, (n - 1) as nat)
    }
}

/// The service call `id` occurs in `p` on the side `requests`.
pub open spec fn occurs(p: Seq<Seq<Plan>>, id: Seq<char>, requests: bool) -> bool {
    exists|i: int, j: int, k: int|
        0 <= i < p.len() && 0 <= j < p[i].len() && 0 <= k < p[i][j].calls.len()
            && #[trigger] p[i][j].calls[k] == (id, requests)
}

/// In a schedule, a demand that nothing supplies does not take place, nor
/// does a supply that nothing demands.
pub proof fn lemma_unanswered_call_is_idle(p: Seq<Seq<Plan>>, v: Valuation, i: int, j: int, k: int)
    requires
        valid(p, v),
        0 <= i < p.len(),
        0 <= j < p[i].len(),
        0 <= k < p[i][j].calls.len(),
        !occurs(p, p[i][j].calls[k].0, !p[i][j].calls[k].1),
    ensures
        !v.calls[i][j][k],
{
    let id = p[i][j].calls[k].0;
    let side = p[i][j].calls[k].1;
    if v.calls[i][j][k] {
        lemma_active_counts(p, v.calls, i, j, k);
        assert(balanced(p, v, id));
        assert(active(p, v.calls, id, !side, p.len()) >= 1);
        let w = lemma_active_occurs(p, v.calls, id, !side, p.len());
        assert(p[w.0][w.1].calls[w.2] == (id, !side));
    }
}

/// In a schedule, where a demand for a service call takes place, one
/// supply of that call takes place, and where a supply takes place, so does
/// a demand.
pub proof fn lemma_active_call_is_answered(p: Seq<Seq<Plan>>, v: Valuation, i: int, j: int, k: int) -> (w:
    (int, int, int))
    requires
        valid(p, v),
        0 <= i < p.len(),
        0 <= j < p[i].len(),
        0 <= k < p[i][j].calls.len(),
        v.calls[i][j][k],
    ensures
        0 <= w.0 < p.len(),
        0 <= w.1 < p[w.0].len(),
        0 <= w.2 < p[w.0][w.1].calls.len(),
        p[w.0][w.1].calls[w.2] == (p[i][j].calls[k].0, !p[i][j].calls[k].1),
        v.calls[w.0][w.1][w.2],
        p[i][j].calls[k].1 ==> active(p, v.calls, p[i][j].calls[k].0, false, p.len()) == 1,
{
    let id = p[i][j].calls[k].0;
    let side = p[i][j].calls[k].1;
    lemma_active_counts(p, v.calls, i, j, k);
    assert(balanced(p, v, id));
    lemma_active_occurs(p, v.calls, id, !side, p.len())
}

} // verus!
