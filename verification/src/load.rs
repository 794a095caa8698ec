//! The reading of commitments from a JSON document.
//!
//! The document is an array of commitments. A commitment is an array of
//! plans. A plan is an object with the field `s_calls`, an array of pairs
//! of a service call's identity and `true` for a demand or `false` for a
//! supply, and the field `cost_ceil`, an integer.

use crate::json::{
    json_of, jsons, map_get, parse_json, parsed, value_as_array, value_as_bool, value_as_i64,
    value_as_object, value_as_str, Json,
};
use crate::model::{calls_view, is_well_formed, problem, well_formed, AllOf, Commit, Plan};
use crate::vars::{find_entry, lemma_position_is, names, position};
use serde_json::Value;
use vstd::prelude::*;
use vstd::string::*;

verus! {

/// Why no commitments were read.
#[derive(Clone, Copy, Debug, PartialEq, Eq, Structural)]
pub enum LoadError {
    /// The text is not JSON.
    Syntax,
    /// The document is not an array of arrays of plans.
    Shape,
    /// A commitment has no plan, a plan has no service call, or an
    /// identity has no instance or cannot be part of a name.
    Malformed,
}

/// The identities of `calls`.
pub open spec fn identities(calls: Seq<(Seq<char>, bool)>) -> Seq<Seq<char>> {
    Seq::new(calls.len(), |k: int| calls[k].0)
}

/// `calls` with `call` put in: in the place of the call of the same
/// identity where there is one, else at the end.
pub open spec fn put_call(calls: Seq<(Seq<char>, bool)>, call: (Seq<char>, bool)) -> Seq<
    (Seq<char>, bool),
> {
    let at = position(identities(calls), call.0);
    if at < calls.len() {
        calls.update(at as int, call)
    } else {
        calls.push(call)
    }
}

/// The service call that the document is: a pair of an identity and a
/// flag, whatever follows them.
pub open spec fn call_of(j: Json) -> Option<(Seq<char>, bool)> {
    match j {
        Json::Array(pair) => if pair.len() >= 2 {
            match (pair[0], pair[1]) {
                (Json::Text(id), Json::Bool(flag)) => Some((id, flag)),
                _ => None,
            }
        } else {
            None
        },
        _ => None,
    }
}

/// The service calls that the first `n` documents are.
pub open spec fn calls_of(entries: Seq<Json>, n: nat) -> Option<Seq<(Seq<char>, bool)>>
    decreases n,
{
    if n == 0 || n > entries.len() {
        Some(Seq::empty())
    } else {
        match (calls_of(entries, (n - 1) as nat), call_of(entries[n - 1])) {
            (Some(calls), Some(call)) => Some(put_call(calls, call)),
            _ => None,
        }
    }
}

/// The plan that the document is.
pub open spec fn plan_of(j: Json) -> Option<Plan> {
    match j {
        Json::Object(fields) => if fields.dom().contains("s_calls"@) && fields.dom().contains(
            "cost_ceil"@,
        ) {
            match (fields["s_calls"@], fields["cost_ceil"@]) {
                (Json::Array(entries), Json::Number(Some(ceil))) => match calls_of(
                    entries,
                    entries.len(),
                ) {
                    Some(calls) => Some(Plan { calls, cost_ceil: ceil as int }),
                    None => None,
                },
                _ => None,
            }
        } else {
            None
        },
        _ => None,
    }
}

/// The plans that the first `n` documents are.
pub open spec fn plans_of(items: Seq<Json>, n: nat) -> Option<Seq<Plan>>
    decreases n,
{
    if n == 0 || n > items.len() {
        Some(Seq::empty())
    } else {
        match (plans_of(items, (n - 1) as nat), plan_of(items[n - 1])) {
            (Some(plans), Some(plan)) => Some(plans.push(plan)),
            _ => None,
        }
    }
}

/// The commitment that the document is.
pub open spec fn commit_of(j: Json) -> Option<Seq<Plan>> {
    match j {
        Json::Array(items) => plans_of(items, items.len()),
        _ => None,
    }
}

/// The commitments that the first `n` documents are.
pub open spec fn commits_upto(items: Seq<Json>, n: nat) -> Option<Seq<Seq<Plan>>>
    decreases n,
{
    if n == 0 || n > items.len() {
        Some(Seq::empty())
    } else {
        match (commits_upto(items, (n - 1) as nat), commit_of(items[n - 1])) {
            (Some(commits), Some(plans)) => Some(commits.push(plans)),
            _ => None,
        }
    }
}

/// The commitments that the document holds: all of its elements, in
/// order.
pub open spec fn commits_of(j: Json) -> Option<Seq<Seq<Plan>>> {
    match j {
        Json::Array(items) => commits_upto(items, items.len()),
        _ => None,
    }
}

/// The service call that the document is.
fn read_call(value: &Value) -> (r: Option<(String, bool)>)
    ensures
        match call_of(json_of(*value)) {
            Some(call) => r matches Some(c) && (c.0@, c.1) == call,
            None => r is None,
        },
{
    let pair = match value_as_array(value) {
        Some(pair) => pair,
        None => {
            return None;
        },
    };
    if pair.len() < 2 {
        assert(jsons(pair@).len() < 2);
        return None;
    }
    assert(jsons(pair@)[0] == json_of(pair[0]));
    assert(jsons(pair@)[1] == json_of(pair[1]));
    let id = match value_as_str(&pair[0]) {
        Some(id) => id,
        None => {
            return None;
        },
    };
    let flag = match value_as_bool(&pair[1]) {
        Some(flag) => flag,
        None => {
            return None;
        },
    };
    Some((String::from_str(id), flag))
}

/// The service calls that the documents are.
fn read_calls(entries: &Vec<Value>) -> (r: Option<Vec<(String, bool)>>)
    ensures
        match calls_of(jsons(entries@), entries.len() as nat) {
            Some(calls) => r matches Some(cs) && calls_view(cs@) == calls,
            None => r is None,
        },
{
    let ghost js = jsons(entries@);
    let mut calls: Vec<(String, bool)> = Vec::new();
    let mut n: usize = 0;
    assert(calls_view(calls@) =~= Seq::<(Seq<char>, bool)>::empty());
    while n < entries.len()
        invariant
            n <= entries.len(),
            js == jsons(entries@),
            calls_of(js, n as nat) == Some(calls_view(calls@)),
        ensures
            n == entries.len(),
            calls_of(js, n as nat) == Some(calls_view(calls@)),
        decreases entries.len() - n,
    {
        assert(js[n as int] == json_of(entries[n as int]));
        let call = match read_call(&entries[n]) {
            Some(call) => call,
            None => {
                proof {
                    lemma_calls_fail(js, (n + 1) as nat, entries.len() as nat);
                }
                return None;
            },
        };
        let ghost before = calls_view(calls@);
        let ghost put = (call.0@, call.1);
        assert(identities(before) =~= names(calls@));
        match find_entry(&calls, &call.0) {
            Some(at) => {
                calls.set(at, call);
                assert(calls_view(calls@) =~= before.update(at as int, put));
            },
            None => {
                proof {
                    lemma_position_is(
                        identities(before),
                        put.0,
                        before.len() as int,
                    );
                }
                calls.push(call);
                assert(calls_view(calls@) =~= before.push(put));
            },
        }
        n = n + 1;
    }
    Some(calls)
}

/// Once a document is no service call, no longer list is service calls.
proof fn lemma_calls_fail(entries: Seq<Json>, n: nat, m: nat)
    requires
        calls_of(entries, n) is None,
        n <= m <= entries.len(),
    ensures
        calls_of(entries, m) is None,
    decreases m - n,
{
    if n < m {
        lemma_calls_fail(entries, n, (m - 1) as nat);
    }
}

/// Once a document is no plan, no longer list is plans.
proof fn lemma_plans_fail(items: Seq<Json>, n: nat, m: nat)
    requires
        plans_of(items, n) is None,
        n <= m <= items.len(),
    ensures
        plans_of(items, m) is None,
    decreases m - n,
{
    if n < m {
        lemma_plans_fail(items, n, (m - 1) as nat);
    }
}

/// The plan that the document is.
fn read_plan(value: &Value) -> (r: Option<AllOf>)
    ensures
        match plan_of(json_of(*value)) {
            Some(plan) => r matches Some(a) && a@ == plan,
            None => r is None,
        },
{
    let fields = match value_as_object(value) {
        Some(fields) => fields,
        None => {
            return None;
        },
    };
    let s_calls = match map_get(fields, "s_calls") {
        Some(s_calls) => s_calls,
        None => {
            return None;
        },
    };
    let cost_ceil = match map_get(fields, "cost_ceil") {
        Some(cost_ceil) => cost_ceil,
        None => {
            return None;
        },
    };
    let cost_ceil = match value_as_i64(cost_ceil) {
        Some(cost_ceil) => cost_ceil,
        None => {
            return None;
        },
    };
    let entries = match value_as_array(s_calls) {
        Some(entries) => entries,
        None => {
            return None;
        },
    };
    match read_calls(entries) {
        Some(service_instances) => Some(AllOf { service_instances, cost_ceil }),
        None => None,
    }
}

/// The commitment that the document is.
fn read_commit(value: &Value) -> (r: Option<Commit>)
    ensures
        match commit_of(json_of(*value)) {
            Some(plans) => r matches Some(c) && c@ == plans,
            None => r is None,
        },
{
    let items = match value_as_array(value) {
        Some(items) => items,
        None => {
            return None;
        },
    };
    let ghost js = jsons(items@);
    let mut allofs: Vec<AllOf> = Vec::new();
    let mut n: usize = 0;
    let ghost mut plans: Seq<Plan> = Seq::empty();
    while n < items.len()
        invariant
            n <= items.len(),
            js == jsons(items@),
            json_of(*value) == Json::Array(js),
            plans_of(js, n as nat) == Some(plans),
            plans.len() == allofs.len(),
            forall|j: int| 0 <= j < allofs.len() ==> (#[trigger] allofs[j])@ == plans[j],
        decreases items.len() - n,
    {
        assert(js[n as int] == json_of(items[n as int]));
        match read_plan(&items[n]) {
            Some(plan) => {
                proof {
                    plans = plans.push(plan@);
                }
                allofs.push(plan);
            },
            None => {
                proof {
                    lemma_plans_fail(js, (n + 1) as nat, items.len() as nat);
                }
                return None;
            },
        }
        n = n + 1;
    }
    let commit = Commit { allofs };
    assert(commit@ =~= plans);
    Some(commit)
}

/// The commitments that the document holds, if it has the shape of
/// commitments.
pub fn read_commits(value: &Value) -> (r: Option<Vec<Commit>>)
    ensures
        match commits_of(json_of(*value)) {
            Some(p) => r matches Some(commits) && problem(commits@) == p,
            None => r is None,
        },
{
    let items = match value_as_array(value) {
        Some(items) => items,
        None => {
            return None;
        },
    };
    let ghost js = jsons(items@);
    let mut commits: Vec<Commit> = Vec::new();
    let mut n: usize = 0;
    let ghost mut p: Seq<Seq<Plan>> = Seq::empty();
    while n < items.len()
        invariant
            n <= items.len(),
            js == jsons(items@),
            json_of(*value) == Json::Array(js),
            commits_upto(js, n as nat) == Some(p),
            p.len() == commits.len(),
            forall|i: int| 0 <= i < commits.len() ==> (#[trigger] commits[i])@ == p[i],
        decreases items.len() - n,
    {
        assert(js[n as int] == json_of(items[n as int]));
        match read_commit(&items[n]) {
            Some(commit) => {
                proof {
                    p = p.push(commit@);
                }
                commits.push(commit);
            },
            None => {
                proof {
                    lemma_commits_fail(js, (n + 1) as nat, items.len() as nat);
                }
                return None;
            },
        }
        n = n + 1;
    }
    assert(problem(commits@) =~= p);
    Some(commits)
}

/// Once a document is no commitment, no longer list is commitments.
proof fn lemma_commits_fail(items: Seq<Json>, n: nat, m: nat)
    requires
        commits_upto(items, n) is None,
        n <= m <= items.len(),
    ensures
        commits_upto(items, m) is None,
    decreases m - n,
{
    if n < m {
        lemma_commits_fail(items, n, (m - 1) as nat);
    }
}

/// The commitments that a JSON text holds. They are in order: what
/// `build_schedule` asks of its input holds of them.
pub fn parse_commits(text: &str) -> (r: Result<Vec<Commit>, LoadError>)
    ensures
        match parsed(text@) {
            None => r == Err::<Vec<Commit>, LoadError>(LoadError::Syntax),
            Some(j) => match commits_of(j) {
                None => r == Err::<Vec<Commit>, LoadError>(LoadError::Shape),
                Some(p) => if well_formed(p) {
                    r matches Ok(commits) && problem(commits@) == p
                } else {
                    r == Err::<Vec<Commit>, LoadError>(LoadError::Malformed)
                },
            },
        },
{
    let value = match parse_json(text) {
        Ok(value) => value,
        Err(_) => {
            return Err(LoadError::Syntax);
        },
    };
    match read_commits(&value) {
        None => Err(LoadError::Shape),
        Some(commits) => if is_well_formed(&commits) {
            Ok(commits)
        } else {
            Err(LoadError::Malformed)
        },
    }
}

} // verus!
