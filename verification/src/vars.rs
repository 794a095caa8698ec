//! The decision variables: one boolean for each commitment, each plan and
//! each occurrence of a service call, one integer price for each price key.
//!
//! A table of variables is a list of entries, each a name with its
//! variable, in the order in which the variables are made. No name occurs
//! twice in a table, so that it does the work of a map from names to
//! variables; a hash map with strings for keys is not used, because
//! nothing could be proved of it.

use crate::ident::{
    commit_key, decode_price_key, encode_commit, encode_occurrence, encode_plan,
    lemma_decimal_digits, lemma_last_sep_bounds, lemma_occurrence_key_decodes,
    lemma_plan_key_decodes, nameable, occurrence_key, plan_key, price_key,
};
use crate::model::{problem, Commit, Plan};
use crate::solver::{bool_const, bool_home, bool_term, context_id, int_const, int_home, int_term};
use crate::term::{BoolTerm, IntTerm};
use vstd::prelude::*;
use z3::Context;
use z3::ast::{Bool, Int};

verus! {

/// The place of a plan: its commitment and its index among that
/// commitment's plans.
pub struct PlanRow {
    pub commit: nat,
    pub plan: nat,
}

/// One occurrence of a service call: where it stands, which call it is, and
/// whether the plan demands it.
pub struct Occurrence {
    pub commit: nat,
    pub plan: nat,
    pub identity: Seq<char>,
    pub is_request: bool,
}

/// The places of the first `m` plans of commitment `i`.
pub open spec fn plan_row(i: nat, m: nat) -> Seq<PlanRow> {
    Seq::new(m, |j: int| PlanRow { commit: i, plan: j as nat })
}

/// The places of the plans of the first `n` commitments, commitment by
/// commitment.
pub open spec fn plan_rows(p: Seq<Seq<Plan>>, n: nat) -> Seq<PlanRow>
    decreases n,
{
    if n == 0 || n > p.len() {
        Seq::empty()
    } else {
        plan_rows(p, (n - 1) as nat) + plan_row((n - 1) as nat, p[n - 1].len())
    }
}

/// The first `c` occurrences of plan `j` of commitment `i`.
pub open spec fn call_row(i: nat, j: nat, calls: Seq<(Seq<char>, bool)>, c: nat) -> Seq<
    Occurrence,
> {
    Seq::new(
        c,
        |k: int|
            Occurrence { commit: i, plan: j, identity: calls[k].0, is_request: calls[k].1 },
    )
}

/// The occurrences of the first `m` plans of commitment `i`.
pub open spec fn commit_calls(i: nat, plans: Seq<Plan>, m: nat) -> Seq<Occurrence>
    decreases m,
{
    if m == 0 || m > plans.len() {
        Seq::empty()
    } else {
        commit_calls(i, plans, (m - 1) as nat) + call_row(
            i,
            (m - 1) as nat,
            plans[m - 1].calls,
            plans[m - 1].calls.len(),
        )
    }
}

/// The occurrences of the first `n` commitments, plan by plan.
pub open spec fn occurrences(p: Seq<Seq<Plan>>, n: nat) -> Seq<Occurrence>
    decreases n,
{
    if n == 0 || n > p.len() {
        Seq::empty()
    } else {
        occurrences(p, (n - 1) as nat) + commit_calls((n - 1) as nat, p[n - 1], p[n - 1].len())
    }
}

/// The name of the plan at `r`.
pub open spec fn plan_name(r: PlanRow) -> Seq<char> {
    plan_key(r.commit, r.plan)
}

/// The name of the occurrence `o`.
pub open spec fn occurrence_name(o: Occurrence) -> Seq<char> {
    occurrence_key(o.commit, o.plan, o.identity)
}

/// What is left of `s` when each value stays where it comes first.
pub open spec fn first_occurrences(s: Seq<Seq<char>>) -> Seq<Seq<char>>
    decreases s.len(),
{
    if s.len() == 0 {
        s
    } else {
        let before = first_occurrences(s.drop_last());
        if before.contains(s.last()) {
            before
        } else {
            before.push(s.last())
        }
    }
}

/// The price keys of `os`, one for each.
pub open spec fn price_keys(os: Seq<Occurrence>) -> Seq<Seq<char>> {
    Seq::new(os.len(), |x: int| price_key(os[x].identity))
}

/// The names of the commitments' variables, in order.
pub open spec fn commit_names(p: Seq<Seq<Plan>>) -> Seq<Seq<char>> {
    Seq::new(p.len(), |i: int| commit_key(i as nat))
}

/// The names of the plans' variables, in order.
pub open spec fn plan_names(p: Seq<Seq<Plan>>) -> Seq<Seq<char>> {
    Seq::new(plan_rows(p, p.len()).len(), |x: int| plan_name(plan_rows(p, p.len())[x]))
}

/// The names of the occurrences' variables, in order.
pub open spec fn occurrence_names(p: Seq<Seq<Plan>>) -> Seq<Seq<char>> {
    Seq::new(
        occurrences(p, p.len()).len(),
        |x: int| occurrence_name(occurrences(p, p.len())[x]),
    )
}

/// For each occurrence, in order, whether its plan demands the call.
pub open spec fn occurrence_flags(p: Seq<Seq<Plan>>) -> Seq<bool> {
    Seq::new(occurrences(p, p.len()).len(), |x: int| occurrences(p, p.len())[x].is_request)
}

/// The names of the price variables: the price keys, each where it comes
/// first.
pub open spec fn price_names(p: Seq<Seq<Plan>>) -> Seq<Seq<char>> {
    first_occurrences(price_keys(occurrences(p, p.len())))
}

/// The names in a table of variables.
pub open spec fn names<T>(table: Seq<(String, T)>) -> Seq<Seq<char>> {
    Seq::new(table.len(), |x: int| table[x].0@)
}

/// Each boolean variable of the table is the constant of its name, in the
/// context `home`.
pub open spec fn bools_named(table: Seq<(String, Bool)>, home: int) -> bool {
    forall|x: int|
        0 <= x < table.len() ==> bool_term((#[trigger] table[x]).1) == BoolTerm::Const(
            table[x].0@,
        ) && bool_home(table[x].1) == home
}

/// Each occurrence's variable of the table is the constant of its name, in
/// the context `home`.
pub open spec fn calls_named(table: Seq<(String, (Bool, bool))>, home: int) -> bool {
    forall|x: int|
        0 <= x < table.len() ==> bool_term((#[trigger] table[x]).1.0) == BoolTerm::Const(
            table[x].0@,
        ) && bool_home(table[x].1.0) == home
}

/// Each price variable of the table is the integer constant of its name, in
/// the context `home`.
pub open spec fn prices_named(table: Seq<(String, Int)>, home: int) -> bool {
    forall|x: int|
        0 <= x < table.len() ==> int_term((#[trigger] table[x]).1) == IntTerm::Const(
            table[x].0@,
        ) && int_home(table[x].1) == home
}

/// The flags in a table of occurrences' variables.
pub open spec fn flags(table: Seq<(String, (Bool, bool))>) -> Seq<bool> {
    Seq::new(table.len(), |x: int| table[x].1.1)
}

/// Every identity of the first `n` commitments can be part of a name.
pub open spec fn identities_nameable(p: Seq<Seq<Plan>>) -> bool {
    forall|i: int, j: int, k: int|
        0 <= i < p.len() && 0 <= j < p[i].len() && 0 <= k < p[i][j].calls.len() ==> nameable(
            (#[trigger] p[i][j].calls[k]).0,
        )
}

/// One boolean variable for each commitment, named by the commitment's
/// index.
pub fn build_commit_level_vars<'ctx>(ctx: &'ctx Context, commits: &Vec<Commit>) -> (r: Vec<
    (String, Bool<'ctx>),
>)
    ensures
        names(r@) == commit_names(problem(commits@)),
        bools_named(r@, context_id(*ctx)),
{
    let mut table: Vec<(String, Bool<'ctx>)> = Vec::new();
    let mut i: usize = 0;
    while i < commits.len()
        invariant
            i <= commits.len(),
            table.len() == i,
            forall|x: int| 0 <= x < i ==> (#[trigger] table[x]).0@ == commit_key(x as nat),
            bools_named(table@, context_id(*ctx)),
        decreases commits.len() - i,
    {
        let name = encode_commit(i);
        proof {
            lemma_decimal_digits(i as nat);
        }
        let var = bool_const(ctx, name.as_str());
        table.push((name, var));
        i = i + 1;
    }
    assert(names(table@) =~= commit_names(problem(commits@)));
    table
}

/// One boolean variable for each plan, named by the commitment's index and
/// the plan's.
pub fn build_allof_level_bools<'ctx>(ctx: &'ctx Context, commits: &Vec<Commit>) -> (r: Vec<
    (String, Bool<'ctx>),
>)
    ensures
        names(r@) == plan_names(problem(commits@)),
        bools_named(r@, context_id(*ctx)),
{
    let ghost p = problem(commits@);
    let mut table: Vec<(String, Bool<'ctx>)> = Vec::new();
    let ghost mut rows: Seq<PlanRow> = Seq::empty();
    let mut i: usize = 0;
    while i < commits.len()
        invariant
            i <= commits.len(),
            p == problem(commits@),
            rows == plan_rows(p, i as nat),
            table.len() == rows.len(),
            forall|x: int| 0 <= x < rows.len() ==> (#[trigger] table[x]).0@ == plan_name(rows[x]),
            bools_named(table@, context_id(*ctx)),
        decreases commits.len() - i,
    {
        let plans = &commits[i].allofs;
        assert(p[i as int].len() == plans.len());
        let mut j: usize = 0;
        while j < plans.len()
            invariant
                j <= plans.len(),
                rows == plan_rows(p, i as nat) + plan_row(i as nat, j as nat),
                table.len() == rows.len(),
                forall|x: int|
                    0 <= x < rows.len() ==> (#[trigger] table[x]).0@ == plan_name(rows[x]),
                bools_named(table@, context_id(*ctx)),
            decreases plans.len() - j,
        {
            let name = encode_plan(i, j);
            proof {
                lemma_plan_key_decodes(i as nat, j as nat);
            }
            let var = bool_const(ctx, name.as_str());
            table.push((name, var));
            proof {
                let row = PlanRow { commit: i as nat, plan: j as nat };
                assert(rows.push(row) =~= plan_rows(p, i as nat) + plan_row(
                    i as nat,
                    (j + 1) as nat,
                ));
                rows = rows.push(row);
            }
            j = j + 1;
        }
        i = i + 1;
    }
    assert(names(table@) =~= plan_names(p));
    table
}

/// One boolean variable for each occurrence of a service call, named by
/// its plan and its identity, together with whether the plan demands the
/// call.
pub fn build_scall_level_bools<'ctx>(ctx: &'ctx Context, commits: &Vec<Commit>) -> (r: Vec<
    (String, (Bool<'ctx>, bool)),
>)
    requires
        identities_nameable(problem(commits@)),
    ensures
        names(r@) == occurrence_names(problem(commits@)),
        flags(r@) == occurrence_flags(problem(commits@)),
        calls_named(r@, context_id(*ctx)),
{
    let ghost p = problem(commits@);
    let mut table: Vec<(String, (Bool<'ctx>, bool))> = Vec::new();
    let ghost mut rows: Seq<Occurrence> = Seq::empty();
    let mut i: usize = 0;
    while i < commits.len()
        invariant
            i <= commits.len(),
            p == problem(commits@),
            identities_nameable(p),
            rows == occurrences(p, i as nat),
            table.len() == rows.len(),
            forall|x: int|
                0 <= x < rows.len() ==> (#[trigger] table[x]).0@ == occurrence_name(rows[x])
                    && table[x].1.1 == rows[x].is_request,
            calls_named(table@, context_id(*ctx)),
        decreases commits.len() - i,
    {
        let plans = &commits[i].allofs;
        assert(p[i as int].len() == plans.len());
        let mut j: usize = 0;
        while j < plans.len()
            invariant
                j <= plans.len(),
                i < commits.len(),
                plans == &commits[i as int].allofs,
                p == problem(commits@),
                identities_nameable(p),
                rows == occurrences(p, i as nat) + commit_calls(i as nat, p[i as int], j as nat),
                table.len() == rows.len(),
                forall|x: int|
                    0 <= x < rows.len() ==> (#[trigger] table[x]).0@ == occurrence_name(rows[x])
                        && table[x].1.1 == rows[x].is_request,
                calls_named(table@, context_id(*ctx)),
            decreases plans.len() - j,
        {
            let calls = &plans[j].service_instances;
            let ghost plan = p[i as int][j as int];
            assert(plan == plans[j as int]@);
            assert(plan.calls.len() == calls.len());
            let ghost base = rows;
            let mut k: usize = 0;
            while k < calls.len()
                invariant
                    k <= calls.len(),
                    i < commits.len(),
                    j < plans.len(),
                    plans == &commits[i as int].allofs,
                    calls == &plans[j as int].service_instances,
                    p == problem(commits@),
                    plan == p[i as int][j as int],
                    plan == plans[j as int]@,
                    plan.calls.len() == calls.len(),
                    identities_nameable(p),
                    rows == base + call_row(i as nat, j as nat, plan.calls, k as nat),
                    table.len() == rows.len(),
                    forall|x: int|
                        0 <= x < rows.len() ==> (#[trigger] table[x]).0@ == occurrence_name(
                            rows[x],
                        ) && table[x].1.1 == rows[x].is_request,
                    calls_named(table@, context_id(*ctx)),
                decreases calls.len() - k,
            {
                let id = &calls[k].0;
                let is_request = calls[k].1;
                assert(plan.calls[k as int] == (id@, is_request));
                let name = encode_occurrence(i, j, id.as_str());
                proof {
                    assert(nameable(p[i as int][j as int].calls[k as int].0));
                    lemma_occurrence_key_decodes(i as nat, j as nat, id@);
                }
                let var = bool_const(ctx, name.as_str());
                table.push((name, (var, is_request)));
                proof {
                    let o = Occurrence {
                        commit: i as nat,
                        plan: j as nat,
                        identity: id@,
                        is_request,
                    };
                    assert(rows.push(o) =~= base + call_row(
                        i as nat,
                        j as nat,
                        plan.calls,
                        (k + 1) as nat,
                    ));
                    rows = rows.push(o);
                }
                k = k + 1;
            }
            proof {
                assert(rows =~= occurrences(p, i as nat) + commit_calls(
                    i as nat,
                    p[i as int],
                    (j + 1) as nat,
                ));
            }
            j = j + 1;
        }
        i = i + 1;
    }
    assert(names(table@) =~= occurrence_names(p));
    assert(flags(table@) =~= occurrence_flags(p));
    table
}

/// Where `v` stands first in `ns`; `ns.len()` where it does not occur.
pub open spec fn position(ns: Seq<Seq<char>>, v: Seq<char>) -> nat
    decreases ns.len(),
{
    if ns.len() == 0 || ns[0] == v {
        0
    } else {
        1 + position(ns.drop_first(), v)
    }
}

/// `position` is the one place before which the value does not occur and
/// at which the sequence ends or holds it.
pub proof fn lemma_position_is(ns: Seq<Seq<char>>, v: Seq<char>, n: int)
    requires
        0 <= n <= ns.len(),
        forall|k: int| 0 <= k < n ==> #[trigger] ns[k] != v,
        n == ns.len() || ns[n] == v,
    ensures
        position(ns, v) == n,
    decreases n,
{
    if n > 0 {
        let t = ns.drop_first();
        assert forall|k: int| 0 <= k < n - 1 implies #[trigger] t[k] != v by {
            assert(t[k] == ns[k + 1]);
        }
        lemma_position_is(t, v, n - 1);
    }
}

/// Where a value occurs, `position` finds it.
pub proof fn lemma_position_found(ns: Seq<Seq<char>>, v: Seq<char>)
    requires
        ns.contains(v),
    ensures
        position(ns, v) < ns.len(),
        ns[position(ns, v) as int] == v,
    decreases ns.len(),
{
    if ns[0] != v {
        let t = ns.drop_first();
        let x = choose|x: int| 0 <= x < ns.len() && ns[x] == v;
        assert(t[x - 1] == v);
        lemma_position_found(t, v);
        assert(ns[position(ns, v) as int] == t[position(t, v) as int]);
    }
}

/// Where the entry named `name` stands in `table`, if there is one; the
/// first such place.
pub fn find_entry<T>(table: &Vec<(String, T)>, name: &String) -> (r: Option<usize>)
    ensures
        match r {
            Some(x) => x < table.len() && table[x as int].0@ == name@ && forall|y: int|
                0 <= y < x ==> (#[trigger] table[y]).0@ != name@,
            None => !names(table@).contains(name@),
        },
        r is Some <==> names(table@).contains(name@),
        r matches Some(x) ==> x == position(names(table@), name@),
{
    let mut x: usize = 0;
    while x < table.len()
        invariant
            x <= table.len(),
            forall|y: int| 0 <= y < x ==> (#[trigger] table[y]).0@ != name@,
        decreases table.len() - x,
    {
        if table[x].0 == *name {
            proof {
                assert(names(table@)[x as int] == name@);
                assert forall|y: int| 0 <= y < x implies #[trigger] names(table@)[y] != name@ by {
                    assert(table[y].0@ != name@);
                }
                lemma_position_is(names(table@), name@, x as int);
            }
            return Some(x);
        }
        x = x + 1;
    }
    assert forall|y: int| 0 <= y < names(table@).len() implies names(table@)[y] != name@ by {
        assert(table[y].0@ != name@);
    }
    None
}

/// A prefix of a name that can be part of a variable's name can be one too.
pub proof fn lemma_price_key_nameable(id: Seq<char>)
    requires
        nameable(id),
    ensures
        nameable(price_key(id)),
{
    lemma_last_sep_bounds(id);
}

/// The price keys of the problem, each where it comes first.
pub fn price_key_names(commits: &Vec<Commit>) -> (r: Vec<String>)
    ensures
        r@.len() == price_names(problem(commits@)).len(),
        forall|y: int| 0 <= y < r.len() ==> (#[trigger] r[y])@ == price_names(problem(commits@))[y],
        identities_nameable(problem(commits@)) ==> forall|y: int|
            0 <= y < r.len() ==> nameable(#[trigger] r[y]@),
{
    let ghost p = problem(commits@);
    let mut table: Vec<(String, ())> = Vec::new();
    let ghost mut rows: Seq<Occurrence> = Seq::empty();
    assert(names(table@) =~= first_occurrences(price_keys(rows)));
    let mut i: usize = 0;
    while i < commits.len()
        invariant
            i <= commits.len(),
            p == problem(commits@),
            rows == occurrences(p, i as nat),
            names(table@) == first_occurrences(price_keys(rows)),
            identities_nameable(p) ==> forall|y: int|
                0 <= y < table.len() ==> nameable((#[trigger] table[y]).0@),
        decreases commits.len() - i,
    {
        let plans = &commits[i].allofs;
        assert(p[i as int].len() == plans.len());
        let mut j: usize = 0;
        while j < plans.len()
            invariant
                j <= plans.len(),
                i < commits.len(),
                plans == &commits[i as int].allofs,
                p == problem(commits@),
                rows == occurrences(p, i as nat) + commit_calls(i as nat, p[i as int], j as nat),
                names(table@) == first_occurrences(price_keys(rows)),
                identities_nameable(p) ==> forall|y: int|
                    0 <= y < table.len() ==> nameable((#[trigger] table[y]).0@),
            decreases plans.len() - j,
        {
            let calls = &plans[j].service_instances;
            let ghost plan = p[i as int][j as int];
            assert(plan == plans[j as int]@);
            assert(plan.calls.len() == calls.len());
            let ghost base = rows;
            let mut k: usize = 0;
            while k < calls.len()
                invariant
                    k <= calls.len(),
                    i < commits.len(),
                    j < plans.len(),
                    plans == &commits[i as int].allofs,
                    calls == &plans[j as int].service_instances,
                    p == problem(commits@),
                    plan == p[i as int][j as int],
                    plan == plans[j as int]@,
                    plan.calls.len() == calls.len(),
                    rows == base + call_row(i as nat, j as nat, plan.calls, k as nat),
                    names(table@) == first_occurrences(price_keys(rows)),
                    identities_nameable(p) ==> forall|y: int|
                        0 <= y < table.len() ==> nameable((#[trigger] table[y]).0@),
                decreases calls.len() - k,
            {
                let id = &calls[k].0;
                assert(plan.calls[k as int] == (id@, calls[k as int].1));
                let name = decode_price_key(id.as_str());
                let ghost o = Occurrence {
                    commit: i as nat,
                    plan: j as nat,
                    identity: id@,
                    is_request: calls[k as int].1,
                };
                proof {
                    if identities_nameable(p) {
                        assert(nameable(p[i as int][j as int].calls[k as int].0));
                        lemma_price_key_nameable(id@);
                    }
                    let next = rows.push(o);
                    assert(price_keys(next).drop_last() =~= price_keys(rows));
                    assert(price_keys(next).last() == name@);
                }
                let found = find_entry(&table, &name);
                if found.is_none() {
                    let ghost before = names(table@);
                    table.push((name, ()));
                    assert(names(table@) =~= before.push(name@));
                }
                proof {
                    assert(rows.push(o) =~= base + call_row(
                        i as nat,
                        j as nat,
                        plan.calls,
                        (k + 1) as nat,
                    ));
                    rows = rows.push(o);
                }
                k = k + 1;
            }
            proof {
                assert(rows =~= occurrences(p, i as nat) + commit_calls(
                    i as nat,
                    p[i as int],
                    (j + 1) as nat,
                ));
            }
            j = j + 1;
        }
        i = i + 1;
    }
    let mut out: Vec<String> = Vec::new();
    let mut y: usize = 0;
    while y < table.len()
        invariant
            y <= table.len(),
            out.len() == y,
            forall|z: int| 0 <= z < y ==> (#[trigger] out[z])@ == table[z].0@,
        decreases table.len() - y,
    {
        out.push(table[y].0.clone());
        y = y + 1;
    }
    proof {
        assert forall|z: int| 0 <= z < out.len() implies (#[trigger] out[z])@ == price_names(
            p,
        )[z] by {
            assert(names(table@)[z] == table[z].0@);
        }
    }
    out
}

/// One integer price variable for each price key, named by the key. Where
/// several occurrences have one price key, they share the variable.
pub fn build_count_vars<'ctx>(ctx: &'ctx Context, commits: &Vec<Commit>) -> (r: Vec<
    (String, Int<'ctx>),
>)
    requires
        identities_nameable(problem(commits@)),
    ensures
        names(r@) == price_names(problem(commits@)),
        prices_named(r@, context_id(*ctx)),
{
    let keys = price_key_names(commits);
    let mut table: Vec<(String, Int<'ctx>)> = Vec::new();
    let mut y: usize = 0;
    while y < keys.len()
        invariant
            y <= keys.len(),
            table.len() == y,
            forall|z: int| 0 <= z < keys.len() ==> nameable(#[trigger] keys[z]@),
            forall|z: int| 0 <= z < y ==> (#[trigger] table[z]).0@ == keys[z]@,
            prices_named(table@, context_id(*ctx)),
        decreases keys.len() - y,
    {
        let name = keys[y].clone();
        let var = int_const(ctx, name.as_str());
        table.push((name, var));
        y = y + 1;
    }
    assert(names(table@) =~= price_names(problem(commits@)));
    table
}

} // verus!
