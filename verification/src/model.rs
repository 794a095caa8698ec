//! The scheduling problem: commitments, their plans and the service calls
//! that each plan demands or supplies.

use crate::ident::{contains_sep, has_sep, is_nameable, nameable};
use vstd::prelude::*;

verus! {

/// One way to fulfil a commitment.
#[derive(Debug)]
pub struct AllOf {
    /// The service calls of the plan, each with `true` where the plan
    /// demands it and `false` where it supplies it. No identity occurs twice.
    /// They are kept as a list of pairs, in the order given: of a hash map
    /// with strings for keys nothing could be proved.
    pub service_instances: Vec<(String, bool)>,
    /// The most that the plan's demands may cost beyond what its supplies earn.
    pub cost_ceil: i64,
}

/// A unit of work that is accepted through exactly one of its plans.
#[derive(Debug)]
pub struct Commit {
    pub allofs: Vec<AllOf>,
}

/// A plan as a mathematical value.
pub struct Plan {
    pub calls: Seq<(Seq<char>, bool)>,
    pub cost_ceil: int,
}

/// The service calls of a plan as a mathematical value.
pub open spec fn calls_view(calls: Seq<(String, bool)>) -> Seq<(Seq<char>, bool)> {
    Seq::new(calls.len(), |k: int| (calls[k].0@, calls[k].1))
}

impl View for AllOf {
    type V = Plan;

    open spec fn view(&self) -> Plan {
        Plan { calls: calls_view(self.service_instances@), cost_ceil: self.cost_ceil as int }
    }
}

impl View for Commit {
    type V = Seq<Plan>;

    open spec fn view(&self) -> Seq<Plan> {
        Seq::new(self.allofs@.len(), |j: int| self.allofs@[j]@)
    }
}

/// A list of commitments as a mathematical value: for each commitment its plans.
pub open spec fn problem(commits: Seq<Commit>) -> Seq<Seq<Plan>> {
    Seq::new(commits.len(), |i: int| commits[i]@)
}

/// No identity occurs twice among `calls`.
pub open spec fn distinct_identities(calls: Seq<(Seq<char>, bool)>) -> bool {
    forall|a: int, b: int|
        0 <= a < b < calls.len() ==> (#[trigger] calls[a]).0 != (#[trigger] calls[b]).0
}

/// An identity is a base, a separator and an instance, and can be part of a
/// variable's name.
pub open spec fn identity_ok(id: Seq<char>) -> bool {
    has_sep(id) && nameable(id)
}

/// A plan has at least one service call, its identities are in order and
/// none occurs twice.
pub open spec fn plan_ok(plan: Plan) -> bool {
    &&& plan.calls.len() >= 1
    &&& forall|k: int| 0 <= k < plan.calls.len() ==> identity_ok((#[trigger] plan.calls[k]).0)
    &&& distinct_identities(plan.calls)
}

/// Every commitment has a plan, and every plan is in order.
pub open spec fn well_formed(p: Seq<Seq<Plan>>) -> bool {
    forall|i: int|
        0 <= i < p.len() ==> (#[trigger] p[i]).len() >= 1 && forall|j: int|
            0 <= j < p[i].len() ==> plan_ok(#[trigger] p[i][j])
}

/// Whether `id` is the identity of one of the first `n` of `calls`.
fn identity_among(calls: &Vec<(String, bool)>, n: usize, id: &String) -> (r: bool)
    requires
        n <= calls.len(),
    ensures
        r == exists|a: int| 0 <= a < n && (#[trigger] calls[a]).0@ == id@,
{
    let mut a: usize = 0;
    while a < n
        invariant
            a <= n <= calls.len(),
            forall|b: int| 0 <= b < a ==> (#[trigger] calls[b]).0@ != id@,
        decreases n - a,
    {
        if calls[a].0 == *id {
            return true;
        }
        a = a + 1;
    }
    false
}

/// Whether a plan is in order.
pub fn plan_is_ok(plan: &AllOf) -> (r: bool)
    ensures
        r == plan_ok(plan@),
{
    let calls = &plan.service_instances;
    if calls.len() == 0 {
        return false;
    }
    let mut k: usize = 0;
    while k < calls.len()
        invariant
            k <= calls.len(),
            calls == &plan.service_instances,
            forall|a: int| 0 <= a < k ==> identity_ok((#[trigger] plan@.calls[a]).0),
            distinct_identities(plan@.calls.take(k as int)),
        decreases calls.len() - k,
    {
        let id = &calls[k].0;
        assert(plan@.calls[k as int].0 == id@);
        if !contains_sep(id.as_str()) || !is_nameable(id.as_str()) {
            return false;
        }
        if identity_among(calls, k, id) {
            proof {
                let a = choose|a: int| 0 <= a < k && (#[trigger] calls[a]).0@ == id@;
                assert(plan@.calls[a].0 == plan@.calls[k as int].0);
            }
            return false;
        }
        proof {
            let before = plan@.calls.take(k as int);
            let after = plan@.calls.take(k + 1);
            assert forall|a: int, b: int| 0 <= a < b < after.len() implies (#[trigger] after[a]).0
                != (#[trigger] after[b]).0 by {
                if b < k {
                    assert(before[a] == after[a] && before[b] == after[b]);
                } else {
                    assert(calls[a].0@ != id@);
                }
            }
        }
        k = k + 1;
    }
    assert(plan@.calls.take(k as int) =~= plan@.calls);
    true
}

/// Whether a list of commitments is in order: what `build_schedule` asks of
/// its input.
pub fn is_well_formed(commits: &Vec<Commit>) -> (r: bool)
    ensures
        r == well_formed(problem(commits@)),
{
    let ghost p = problem(commits@);
    let mut i: usize = 0;
    while i < commits.len()
        invariant
            i <= commits.len(),
            p == problem(commits@),
            forall|a: int|
                0 <= a < i ==> (#[trigger] p[a]).len() >= 1 && forall|j: int|
                    0 <= j < p[a].len() ==> plan_ok(#[trigger] p[a][j]),
        decreases commits.len() - i,
    {
        let plans = &commits[i].allofs;
        if plans.len() == 0 {
            assert(p[i as int].len() == 0);
            return false;
        }
        let mut j: usize = 0;
        while j < plans.len()
            invariant
                j <= plans.len(),
                i < commits.len(),
                plans == &commits[i as int].allofs,
                p == problem(commits@),
                forall|b: int| 0 <= b < j ==> plan_ok(#[trigger] p[i as int][b]),
            decreases plans.len() - j,
        {
            assert(p[i as int][j as int] == plans[j as int]@);
            if !plan_is_ok(&plans[j]) {
                return false;
            }
            j = j + 1;
        }
        i = i + 1;
    }
    true
}

} // verus!
