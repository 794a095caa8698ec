//! The check of an assignment against the rules of a schedule.

use crate::group::lemma_first_occurrences;
use crate::ident::{decode_price_key, price_key};
use crate::layout::lemma_occurrences;
use crate::model::{calls_view, problem, Commit, Plan};
use crate::schedule::{
    active, active_in_commit, active_in_plan, all_balanced, balanced, calls_follow_plans, fitting,
    lemma_active_occurs, non_trivial, one_plan_each, plan_cost, plan_values, price_of, price_values,
    priced_keys, valid, within_budgets, Schedule,
};
use crate::term::count_true;
use crate::vars::{
    find_entry, names, occurrences, price_key_names, price_keys, price_names, Occurrence,
};
use vstd::prelude::*;

verus! {

/// Whether the assignment has a value for each variable of the problem,
/// and for nothing else.
pub fn is_fitting(commits: &Vec<Commit>, s: &Schedule) -> (r: bool)
    ensures
        r == fitting(problem(commits@), s@),
{
    let ghost p = problem(commits@);
    let ghost v = s@;
    let n = commits.len();
    if s.commits.len() != n || s.allofs.len() != n || s.s_calls.len() != n {
        return false;
    }
    let mut i: usize = 0;
    while i < n
        invariant
            i <= n,
            n == commits.len(),
            p == problem(commits@),
            v == s@,
            s.allofs.len() == n,
            s.s_calls.len() == n,
            forall|a: int| 0 <= a < i ==> (#[trigger] v.plans[a]).len() == p[a].len(),
            forall|a: int| 0 <= a < i ==> (#[trigger] v.calls[a]).len() == p[a].len(),
            forall|a: int, b: int|
                0 <= a < i && 0 <= b < p[a].len() ==> (#[trigger] v.calls[a][b]).len()
                    == p[a][b].calls.len(),
        decreases n - i,
    {
        let plans = &commits[i].allofs;
        assert(p[i as int].len() == plans.len());
        assert(v.plans[i as int] == s.allofs[i as int]@);
        assert(v.calls[i as int] == plan_values(s.s_calls[i as int]@));
        if s.allofs[i].len() != plans.len() || s.s_calls[i].len() != plans.len() {
            return false;
        }
        let mut j: usize = 0;
        while j < plans.len()
            invariant
                j <= plans.len(),
                i < n,
                n == commits.len(),
                plans == &commits[i as int].allofs,
                p == problem(commits@),
                v == s@,
                s.s_calls.len() == n,
                s.s_calls[i as int].len() == plans.len(),
                v.calls[i as int] == plan_values(s.s_calls[i as int]@),
                forall|b: int|
                    0 <= b < j ==> (#[trigger] v.calls[i as int][b]).len() == p[i as int][b].calls.len(),
            decreases plans.len() - j,
        {
            assert(p[i as int][j as int] == plans[j as int]@);
            assert(v.calls[i as int][j as int] == s.s_calls[i as int][j as int]@);
            if s.s_calls[i][j].len() != plans[j].service_instances.len() {
                return false;
            }
            j = j + 1;
        }
        i = i + 1;
    }
    let keys = price_key_names(commits);
    assert(priced_keys(v.prices) =~= names(s.prices@));
    if keys.len() != s.prices.len() {
        return false;
    }
    let mut y: usize = 0;
    while y < keys.len()
        invariant
            y <= keys.len(),
            p == problem(commits@),
            v == s@,
            keys.len() == s.prices.len(),
            keys.len() == price_names(p).len(),
            forall|z: int| 0 <= z < keys.len() ==> (#[trigger] keys[z])@ == price_names(p)[z],
            priced_keys(v.prices) == names(s.prices@),
            forall|z: int| 0 <= z < y ==> (#[trigger] s.prices[z]).0@ == price_names(p)[z],
        decreases keys.len() - y,
    {
        if !(s.prices[y].0 == keys[y]) {
            assert(priced_keys(v.prices)[y as int] != price_names(p)[y as int]);
            assert(priced_keys(v.prices) != price_names(p));
            return false;
        }
        y = y + 1;
    }
    assert(priced_keys(v.prices) =~= price_names(p));
    true
}

/// How many of the values are true.
fn count_of(values: &Vec<bool>) -> (r: usize)
    ensures
        r == count_true(values@, values.len() as nat),
{
    let mut c: usize = 0;
    let mut x: usize = 0;
    while x < values.len()
        invariant
            x <= values.len(),
            c <= x,
            c == count_true(values@, x as nat),
        decreases values.len() - x,
    {
        if values[x] {
            c = c + 1;
        }
        x = x + 1;
    }
    c
}

/// Whether every accepted commitment has exactly one chosen plan, and
/// every other commitment none.
pub fn has_one_plan_each(commits: &Vec<Commit>, s: &Schedule) -> (r: bool)
    requires
        fitting(problem(commits@), s@),
    ensures
        r == one_plan_each(problem(commits@), s@),
{
    let ghost p = problem(commits@);
    let ghost v = s@;
    let mut i: usize = 0;
    while i < commits.len()
        invariant
            i <= commits.len(),
            p == problem(commits@),
            v == s@,
            fitting(p, v),
            forall|a: int|
                0 <= a < i ==> count_true(#[trigger] v.plans[a], v.plans[a].len()) == if v.commits[a] {
                    1nat
                } else {
                    0nat
                },
        decreases commits.len() - i,
    {
        assert(v.plans[i as int] == s.allofs[i as int]@);
        let chosen = count_of(&s.allofs[i]);
        let wanted: usize = if s.commits[i] {
            1
        } else {
            0
        };
        if chosen != wanted {
            return false;
        }
        i = i + 1;
    }
    true
}

/// Whether every service call of a chosen plan takes place, and none of
/// a plan that is not chosen.
pub fn has_calls_follow_plans(commits: &Vec<Commit>, s: &Schedule) -> (r: bool)
    requires
        fitting(problem(commits@), s@),
    ensures
        r == calls_follow_plans(problem(commits@), s@),
{
    let ghost p = problem(commits@);
    let ghost v = s@;
    let mut i: usize = 0;
    while i < commits.len()
        invariant
            i <= commits.len(),
            p == problem(commits@),
            v == s@,
            fitting(p, v),
            forall|a: int, b: int, c: int|
                0 <= a < i && 0 <= b < p[a].len() && 0 <= c < p[a][b].calls.len()
                    ==> #[trigger] v.calls[a][b][c] == v.plans[a][b],
        decreases commits.len() - i,
    {
        let plans = &commits[i].allofs;
        assert(p[i as int].len() == plans.len());
        assert(v.plans[i as int] == s.allofs[i as int]@);
        assert(v.calls[i as int] == plan_values(s.s_calls[i as int]@));
        assert(v.plans[i as int].len() == p[i as int].len());
        assert(v.calls[i as int].len() == p[i as int].len());
        let mut j: usize = 0;
        while j < plans.len()
            invariant
                j <= plans.len(),
                i < commits.len(),
                plans == &commits[i as int].allofs,
                p == problem(commits@),
                v == s@,
                fitting(p, v),
                p[i as int].len() == plans.len(),
                s.allofs[i as int].len() == plans.len(),
                s.s_calls[i as int].len() == plans.len(),
                v.plans[i as int] == s.allofs[i as int]@,
                v.calls[i as int] == plan_values(s.s_calls[i as int]@),
                forall|b: int, c: int|
                    0 <= b < j && 0 <= c < p[i as int][b].calls.len()
                        ==> #[trigger] v.calls[i as int][b][c] == v.plans[i as int][b],
            decreases plans.len() - j,
        {
            let chosen = s.allofs[i][j];
            let values = &s.s_calls[i][j];
            assert(v.calls[i as int][j as int] == values@);
            assert(v.calls[i as int][j as int].len() == p[i as int][j as int].calls.len());
            let mut k: usize = 0;
            while k < values.len()
                invariant
                    k <= values.len(),
                    i < commits.len(),
                    j < plans.len(),
                    p == problem(commits@),
                    v == s@,
                    fitting(p, v),
                    p[i as int].len() == plans.len(),
                    values.len() == p[i as int][j as int].calls.len(),
                    values@ == v.calls[i as int][j as int],
                    chosen == v.plans[i as int][j as int],
                    forall|c: int| 0 <= c < k ==> #[trigger] values[c] == chosen,
                decreases values.len() - k,
            {
                if values[k] != chosen {
                    assert(v.calls[i as int][j as int][k as int] != v.plans[i as int][j as int]);
                    return false;
                }
                k = k + 1;
            }
            j = j + 1;
        }
        i = i + 1;
    }
    true
}

/// Whether one commitment at least is accepted.
pub fn is_non_trivial(commits: &Vec<Commit>, s: &Schedule) -> (r: bool)
    requires
        fitting(problem(commits@), s@),
    ensures
        r == non_trivial(problem(commits@), s@),
{
    let mut i: usize = 0;
    while i < s.commits.len()
        invariant
            i <= s.commits.len(),
            s.commits.len() == commits.len(),
            forall|a: int| 0 <= a < i ==> !#[trigger] s.commits[a],
        decreases s.commits.len() - i,
    {
        if s.commits[i] {
            assert(s@.commits[i as int]);
            return true;
        }
        i = i + 1;
    }
    false
}

/// The price key of every service call of the problem is among the keys
/// of the price variables.
pub proof fn lemma_price_key_present(p: Seq<Seq<Plan>>, i: int, j: int, k: int)
    requires
        0 <= i < p.len(),
        0 <= j < p[i].len(),
        0 <= k < p[i][j].calls.len(),
    ensures
        price_names(p).contains(price_key(p[i][j].calls[k].0)),
{
    let call = p[i][j].calls[k];
    let o = Occurrence { commit: i as nat, plan: j as nat, identity: call.0, is_request: call.1 };
    assert(p[i][j].calls.contains((o.identity, o.is_request)));
    lemma_occurrences(p, p.len(), o);
    let os = occurrences(p, p.len());
    let x = choose|x: int| 0 <= x < os.len() && os[x] == o;
    assert(price_keys(os)[x] == price_key(call.0));
    assert(price_keys(os).contains(price_key(call.0)));
    lemma_first_occurrences(price_keys(os));
}

/// What a plan costs at the given prices, if it stays within `ceil`.
fn stays_within(calls: &Vec<(String, bool)>, prices: &Vec<(String, i64)>, ceil: i64) -> (r: bool)
    requires
        forall|k: int|
            0 <= k < calls.len() ==> names(prices@).contains(price_key((#[trigger] calls[k]).0@)),
    ensures
        r == (plan_cost(
            calls_view(calls@),
            price_values(prices@),
            calls.len() as nat,
        ) <= ceil),
{
    let ghost cs = calls_view(calls@);
    let ghost ps = price_values(prices@);
    assert(priced_keys(ps) =~= names(prices@));
    let mut cost: i128 = 0;
    let mut k: usize = 0;
    while k < calls.len()
        invariant
            k <= calls.len(),
            cs == calls_view(calls@),
            ps == price_values(prices@),
            priced_keys(ps) == names(prices@),
            forall|c: int|
                0 <= c < calls.len() ==> names(prices@).contains(
                    price_key((#[trigger] calls[c]).0@),
                ),
            cost == plan_cost(cs, ps, k as nat),
            -(k as int) * 0x8000_0000_0000_0000 <= cost <= (k as int) * 0x8000_0000_0000_0000,
        decreases calls.len() - k,
    {
        let key = decode_price_key(calls[k].0.as_str());
        assert(names(prices@).contains(price_key(calls[k as int].0@)));
        match find_entry(prices, &key) {
            Some(y) => {
                let price = prices[y].1;
                assert(price_of(ps, key@) == price as int);
                assert(cs[k as int] == (calls[k as int].0@, calls[k as int].1));
                if calls[k].1 {
                    cost = cost + price as i128;
                } else {
                    cost = cost - price as i128;
                }
            },
            None => {
                assert(false);
            },
        }
        k = k + 1;
    }
    cost <= ceil as i128
}

/// Whether every plan stays within its cost ceiling.
pub fn is_within_budgets(commits: &Vec<Commit>, s: &Schedule) -> (r: bool)
    requires
        fitting(problem(commits@), s@),
    ensures
        r == within_budgets(problem(commits@), s@),
{
    let ghost p = problem(commits@);
    let ghost v = s@;
    assert(priced_keys(v.prices) =~= names(s.prices@));
    let mut i: usize = 0;
    while i < commits.len()
        invariant
            i <= commits.len(),
            p == problem(commits@),
            v == s@,
            fitting(p, v),
            priced_keys(v.prices) == names(s.prices@),
            forall|a: int, b: int|
                0 <= a < i && 0 <= b < p[a].len() ==> plan_cost(
                    (#[trigger] p[a][b]).calls,
                    v.prices,
                    p[a][b].calls.len(),
                ) <= p[a][b].cost_ceil,
        decreases commits.len() - i,
    {
        let plans = &commits[i].allofs;
        assert(p[i as int].len() == plans.len());
        let mut j: usize = 0;
        while j < plans.len()
            invariant
                j <= plans.len(),
                i < commits.len(),
                plans == &commits[i as int].allofs,
                p == problem(commits@),
                v == s@,
                fitting(p, v),
                priced_keys(v.prices) == names(s.prices@),
                p[i as int].len() == plans.len(),
                forall|b: int|
                    0 <= b < j ==> plan_cost(
                        (#[trigger] p[i as int][b]).calls,
                        v.prices,
                        p[i as int][b].calls.len(),
                    ) <= p[i as int][b].cost_ceil,
            decreases plans.len() - j,
        {
            let plan = &plans[j];
            assert(p[i as int][j as int] == plan@);
            assert forall|k: int| 0 <= k < plan.service_instances.len() implies names(
                s.prices@,
            ).contains(price_key((#[trigger] plan.service_instances[k]).0@)) by {
                lemma_price_key_present(p, i as int, j as int, k);
                assert(p[i as int][j as int].calls[k].0 == plan.service_instances[k].0@);
            }
            if !stays_within(&plan.service_instances, &s.prices, plan.cost_ceil) {
                return false;
            }
            j = j + 1;
        }
        i = i + 1;
    }
    true
}

/// The smaller of `n` and two.
pub open spec fn up_to_two(n: nat) -> nat {
    if n >= 2 {
        2
    } else {
        n
    }
}

/// How many occurrences of `id` on the side `requests` take place,
/// counted up to two.
fn active_up_to_two(commits: &Vec<Commit>, s: &Schedule, id: &String, requests: bool) -> (r: usize)
    requires
        fitting(problem(commits@), s@),
    ensures
        r == up_to_two(active(problem(commits@), s@.calls, id@, requests, commits.len() as nat)),
{
    let ghost p = problem(commits@);
    let ghost v = s@;
    let mut found: usize = 0;
    let mut i: usize = 0;
    while i < commits.len()
        invariant
            i <= commits.len(),
            p == problem(commits@),
            v == s@,
            fitting(p, v),
            found == up_to_two(active(p, v.calls, id@, requests, i as nat)),
        decreases commits.len() - i,
    {
        let plans = &commits[i].allofs;
        let ghost before = active(p, v.calls, id@, requests, i as nat);
        assert(p[i as int].len() == plans.len());
        assert(v.calls[i as int] == plan_values(s.s_calls[i as int]@));
        assert(v.calls[i as int].len() == p[i as int].len());
        let mut j: usize = 0;
        while j < plans.len()
            invariant
                j <= plans.len(),
                i < commits.len(),
                plans == &commits[i as int].allofs,
                p == problem(commits@),
                v == s@,
                fitting(p, v),
                p[i as int].len() == plans.len(),
                s.s_calls[i as int].len() == plans.len(),
                v.calls[i as int] == plan_values(s.s_calls[i as int]@),
                before == active(p, v.calls, id@, requests, i as nat),
                found == up_to_two(
                    before + active_in_commit(p[i as int], v.calls[i as int], id@, requests, j as nat),
                ),
            decreases plans.len() - j,
        {
            let calls = &plans[j].service_instances;
            let values = &s.s_calls[i][j];
            let ghost plan = p[i as int][j as int];
            let ghost sofar = before + active_in_commit(
                p[i as int],
                v.calls[i as int],
                id@,
                requests,
                j as nat,
            );
            assert(plan == plans[j as int]@);
            assert(v.calls[i as int][j as int] == values@);
            assert(v.calls[i as int][j as int].len() == plan.calls.len());
            let mut k: usize = 0;
            while k < calls.len()
                invariant
                    k <= calls.len(),
                    calls.len() == values.len(),
                    plan.calls == calls_view(calls@),
                    found == up_to_two(
                        sofar + active_in_plan(plan.calls, values@, id@, requests, k as nat),
                    ),
                decreases calls.len() - k,
            {
                assert(plan.calls[k as int] == (calls[k as int].0@, calls[k as int].1));
                if calls[k].1 == requests && values[k] && calls[k].0 == *id {
                    if found < 2 {
                        found = found + 1;
                    }
                }
                k = k + 1;
            }
            j = j + 1;
        }
        i = i + 1;
    }
    found
}

/// Whether demand and supply of the service call `id` are balanced.
pub fn is_balanced(commits: &Vec<Commit>, s: &Schedule, id: &String) -> (r: bool)
    requires
        fitting(problem(commits@), s@),
    ensures
        r == balanced(problem(commits@), s@, id@),
{
    let demands = active_up_to_two(commits, s, id, true);
    let supplies = active_up_to_two(commits, s, id, false);
    (demands == 0 || supplies == 1) && (supplies == 0 || demands >= 1)
}

/// The service call at `(a, b, c)` comes before the one at `(i, j, k)`.
pub open spec fn earlier(a: int, b: int, c: int, i: int, j: int, k: int) -> bool {
    a < i || (a == i && (b < j || (b == j && c < k)))
}

/// Whether demand and supply are balanced for every service call.
pub fn is_all_balanced(commits: &Vec<Commit>, s: &Schedule) -> (r: bool)
    requires
        fitting(problem(commits@), s@),
    ensures
        r == all_balanced(problem(commits@), s@),
{
    let ghost p = problem(commits@);
    let ghost v = s@;
    let mut i: usize = 0;
    while i < commits.len()
        invariant
            i <= commits.len(),
            p == problem(commits@),
            v == s@,
            fitting(p, v),
            forall|a: int, b: int, c: int|
                0 <= a < p.len() && 0 <= b < p[a].len() && 0 <= c < p[a][b].calls.len() && earlier(
                    a,
                    b,
                    c,
                    i as int,
                    0,
                    0,
                ) ==> balanced(p, v, (#[trigger] p[a][b].calls[c]).0),
        decreases commits.len() - i,
    {
        let plans = &commits[i].allofs;
        assert(p[i as int].len() == plans.len());
        let mut j: usize = 0;
        while j < plans.len()
            invariant
                j <= plans.len(),
                i < commits.len(),
                plans == &commits[i as int].allofs,
                p == problem(commits@),
                v == s@,
                fitting(p, v),
                p[i as int].len() == plans.len(),
                forall|a: int, b: int, c: int|
                    0 <= a < p.len() && 0 <= b < p[a].len() && 0 <= c < p[a][b].calls.len()
                        && earlier(a, b, c, i as int, j as int, 0) ==> balanced(
                        p,
                        v,
                        (#[trigger] p[a][b].calls[c]).0,
                    ),
            decreases plans.len() - j,
        {
            let calls = &plans[j].service_instances;
            assert(p[i as int][j as int] == plans[j as int]@);
            let mut k: usize = 0;
            while k < calls.len()
                invariant
                    k <= calls.len(),
                    i < commits.len(),
                    j < plans.len(),
                    plans == &commits[i as int].allofs,
                    calls == &plans[j as int].service_instances,
                    p == problem(commits@),
                    v == s@,
                    fitting(p, v),
                    p[i as int].len() == plans.len(),
                    p[i as int][j as int] == plans[j as int]@,
                    forall|a: int, b: int, c: int|
                        0 <= a < p.len() && 0 <= b < p[a].len() && 0 <= c < p[a][b].calls.len()
                            && earlier(a, b, c, i as int, j as int, k as int) ==> balanced(
                            p,
                            v,
                            (#[trigger] p[a][b].calls[c]).0,
                        ),
                decreases calls.len() - k,
            {
                assert(p[i as int][j as int].calls[k as int].0 == calls[k as int].0@);
                if !is_balanced(commits, s, &calls[k].0) {
                    assert(!balanced(p, v, calls[k as int].0@));
                    return false;
                }
                k = k + 1;
            }
            j = j + 1;
        }
        i = i + 1;
    }
    proof {
        assert forall|id: Seq<char>| #[trigger] balanced(p, v, id) by {
            let demands = active(p, v.calls, id, true, p.len());
            let supplies = active(p, v.calls, id, false, p.len());
            if demands >= 1 {
                let w = lemma_active_occurs(p, v.calls, id, true, p.len());
                assert(balanced(p, v, p[w.0][w.1].calls[w.2].0));
            } else if supplies >= 1 {
                let w = lemma_active_occurs(p, v.calls, id, false, p.len());
                assert(balanced(p, v, p[w.0][w.1].calls[w.2].0));
            }
        }
    }
    true
}

/// Whether the assignment is a schedule of the problem.
pub fn check_schedule(commits: &Vec<Commit>, s: &Schedule) -> (r: bool)
    ensures
        r == valid(problem(commits@), s@),
{
    is_fitting(commits, s) && has_one_plan_each(commits, s) && has_calls_follow_plans(commits, s)
        && is_all_balanced(commits, s) && is_within_budgets(commits, s) && is_non_trivial(
        commits,
        s,
    )
}

} // verus!
