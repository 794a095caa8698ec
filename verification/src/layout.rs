//! How the tables of variables lie: which plans and occurrences stand in
//! them, and what that means for the names.

use crate::group::{
    commit_prefixes, lemma_select_concat, lemma_select_uniform, plan_prefixes, select,
};
use crate::ident::{
    commit_key, lemma_commit_key_injective, lemma_occurrence_key_decodes,
    lemma_occurrence_key_injective, lemma_plan_key_decodes, lemma_plan_key_injective,
    occurrence_key, plan_key,
};
use crate::model::{plan_ok, well_formed, Plan};
use crate::vars::{
    call_row, commit_calls, occurrence_name, occurrence_names, occurrences, plan_name, plan_names,
    plan_row, plan_rows, Occurrence, PlanRow,
};
use vstd::prelude::*;

verus! {

/// `r` is the place of a plan of `p`, among its first `n` commitments.
pub open spec fn plan_in(p: Seq<Seq<Plan>>, n: nat, r: PlanRow) -> bool {
    r.commit < n && r.commit < p.len() && r.plan < p[r.commit as int].len()
}

/// `o` is an occurrence of `p`, among its first `n` commitments.
pub open spec fn occurrence_in(p: Seq<Seq<Plan>>, n: nat, o: Occurrence) -> bool {
    &&& o.commit < n
    &&& o.commit < p.len()
    &&& o.plan < p[o.commit as int].len()
    &&& p[o.commit as int][o.plan as int].calls.contains((o.identity, o.is_request))
}

/// What two sequences set one after the other hold is what one of them
/// holds.
pub proof fn lemma_concat_contains<T>(a: Seq<T>, b: Seq<T>, x: T)
    ensures
        (a + b).contains(x) <==> a.contains(x) || b.contains(x),
{
    let all = a + b;
    if all.contains(x) {
        let i = choose|i: int| 0 <= i < all.len() && all[i] == x;
        if i < a.len() {
            assert(a[i] == x);
        } else {
            assert(b[i - a.len()] == x);
        }
    }
    if a.contains(x) {
        let i = choose|i: int| 0 <= i < a.len() && a[i] == x;
        assert(all[i] == x);
    }
    if b.contains(x) {
        let i = choose|i: int| 0 <= i < b.len() && b[i] == x;
        assert(all[a.len() + i] == x);
    }
}

/// The places of the first `m` plans of a commitment.
pub proof fn lemma_plan_row_contains(i: nat, m: nat, r: PlanRow)
    ensures
        plan_row(i, m).contains(r) <==> r.commit == i && r.plan < m,
{
    let row = plan_row(i, m);
    if row.contains(r) {
        let x = choose|x: int| 0 <= x < row.len() && row[x] == r;
        assert(row[x].plan == x);
    }
    if r.commit == i && r.plan < m {
        assert(row[r.plan as int] == r);
    }
}

/// The occurrences of a plan are those of its calls.
pub proof fn lemma_call_row_contains(i: nat, j: nat, calls: Seq<(Seq<char>, bool)>, o: Occurrence)
    ensures
        call_row(i, j, calls, calls.len()).contains(o) <==> o.commit == i && o.plan == j
            && calls.contains((o.identity, o.is_request)),
{
    let row = call_row(i, j, calls, calls.len());
    if row.contains(o) {
        let x = choose|x: int| 0 <= x < row.len() && row[x] == o;
        assert(calls[x] == (o.identity, o.is_request));
    }
    if o.commit == i && o.plan == j && calls.contains((o.identity, o.is_request)) {
        let x = choose|x: int| 0 <= x < calls.len() && calls[x] == (o.identity, o.is_request);
        assert(row[x] == o);
    }
}

/// The table of plans holds the places of the plans of the problem, and
/// nothing else.
pub proof fn lemma_plan_rows(p: Seq<Seq<Plan>>, n: nat, r: PlanRow)
    requires
        n <= p.len(),
    ensures
        plan_rows(p, n).contains(r) <==> plan_in(p, n, r),
    decreases n,
{
    if n > 0 {
        let before = plan_rows(p, (n - 1) as nat);
        let last = plan_row((n - 1) as nat, p[n - 1].len());
        lemma_plan_rows(p, (n - 1) as nat, r);
        lemma_plan_row_contains((n - 1) as nat, p[n - 1].len(), r);
        lemma_concat_contains(before, last, r);
        assert(plan_rows(p, n) == before + last);
    } else {
        assert(plan_rows(p, n).len() == 0);
    }
}

/// The occurrences of the first `m` plans of a commitment are those of
/// the calls of these plans.
pub proof fn lemma_commit_calls(i: nat, plans: Seq<Plan>, m: nat, o: Occurrence)
    requires
        m <= plans.len(),
    ensures
        commit_calls(i, plans, m).contains(o) <==> o.commit == i && o.plan < m
            && plans[o.plan as int].calls.contains((o.identity, o.is_request)),
    decreases m,
{
    if m > 0 {
        let before = commit_calls(i, plans, (m - 1) as nat);
        let calls = plans[m - 1].calls;
        let last = call_row(i, (m - 1) as nat, calls, calls.len());
        lemma_commit_calls(i, plans, (m - 1) as nat, o);
        lemma_call_row_contains(i, (m - 1) as nat, calls, o);
        lemma_concat_contains(before, last, o);
        assert(commit_calls(i, plans, m) == before + last);
    } else {
        assert(commit_calls(i, plans, m).len() == 0);
    }
}

/// The table of occurrences holds the occurrences of the problem, and
/// nothing else.
pub proof fn lemma_occurrences(p: Seq<Seq<Plan>>, n: nat, o: Occurrence)
    requires
        n <= p.len(),
    ensures
        occurrences(p, n).contains(o) <==> occurrence_in(p, n, o),
    decreases n,
{
    if n > 0 {
        let before = occurrences(p, (n - 1) as nat);
        let last = commit_calls((n - 1) as nat, p[n - 1], p[n - 1].len());
        lemma_occurrences(p, (n - 1) as nat, o);
        lemma_commit_calls((n - 1) as nat, p[n - 1], p[n - 1].len(), o);
        lemma_concat_contains(before, last, o);
        assert(occurrences(p, n) == before + last);
    } else {
        assert(occurrences(p, n).len() == 0);
    }
}

/// The table of the first commitments is the beginning of the table of
/// more of them.
pub proof fn lemma_plan_rows_grow(p: Seq<Seq<Plan>>, a: nat, b: nat)
    requires
        a <= b <= p.len(),
    ensures
        plan_rows(p, a).len() <= plan_rows(p, b).len(),
        plan_rows(p, b).take(plan_rows(p, a).len() as int) == plan_rows(p, a),
    decreases b - a,
{
    if a < b {
        lemma_plan_rows_grow(p, a, (b - 1) as nat);
        let before = plan_rows(p, (b - 1) as nat);
        let last = plan_row((b - 1) as nat, p[b - 1].len());
        assert(plan_rows(p, b) == before + last);
        assert((before + last).take(plan_rows(p, a).len() as int) =~= before.take(
            plan_rows(p, a).len() as int,
        ));
    } else {
        assert(plan_rows(p, b).take(plan_rows(p, a).len() as int) =~= plan_rows(p, a));
    }
}

/// The occurrences of the first plans of a commitment are the beginning
/// of the occurrences of more of them.
pub proof fn lemma_commit_calls_grow(i: nat, plans: Seq<Plan>, a: nat, b: nat)
    requires
        a <= b <= plans.len(),
    ensures
        commit_calls(i, plans, a).len() <= commit_calls(i, plans, b).len(),
        commit_calls(i, plans, b).take(commit_calls(i, plans, a).len() as int) == commit_calls(
            i,
            plans,
            a,
        ),
    decreases b - a,
{
    let short = commit_calls(i, plans, a);
    if a < b {
        lemma_commit_calls_grow(i, plans, a, (b - 1) as nat);
        let before = commit_calls(i, plans, (b - 1) as nat);
        let calls = plans[b - 1].calls;
        let last = call_row(i, (b - 1) as nat, calls, calls.len());
        assert(commit_calls(i, plans, b) == before + last);
        assert((before + last).take(short.len() as int) =~= before.take(short.len() as int));
    } else {
        assert(commit_calls(i, plans, b).take(short.len() as int) =~= short);
    }
}

/// The table of the occurrences of the first commitments is the
/// beginning of the table of more of them.
pub proof fn lemma_occurrences_grow(p: Seq<Seq<Plan>>, a: nat, b: nat)
    requires
        a <= b <= p.len(),
    ensures
        occurrences(p, a).len() <= occurrences(p, b).len(),
        occurrences(p, b).take(occurrences(p, a).len() as int) == occurrences(p, a),
    decreases b - a,
{
    let short = occurrences(p, a);
    if a < b {
        lemma_occurrences_grow(p, a, (b - 1) as nat);
        let before = occurrences(p, (b - 1) as nat);
        let last = commit_calls((b - 1) as nat, p[b - 1], p[b - 1].len());
        assert(occurrences(p, b) == before + last);
        assert((before + last).take(short.len() as int) =~= before.take(short.len() as int));
    } else {
        assert(occurrences(p, b).take(short.len() as int) =~= short);
    }
}

/// Where plan `j` of commitment `i` stands in the table of plans.
pub open spec fn plan_at(p: Seq<Seq<Plan>>, i: nat, j: nat) -> int {
    (plan_rows(p, i).len() + j) as int
}

/// Where call `k` of plan `j` of commitment `i` stands in the table of
/// occurrences.
pub open spec fn call_at(p: Seq<Seq<Plan>>, i: nat, j: nat, k: nat) -> int {
    (occurrences(p, i).len() + commit_calls(i, p[i as int], j).len() + k) as int
}

/// The plan that stands at `plan_at(p, i, j)` is plan `j` of commitment
/// `i`.
pub proof fn lemma_plan_at(p: Seq<Seq<Plan>>, i: nat, j: nat)
    requires
        i < p.len(),
        j < p[i as int].len(),
    ensures
        0 <= plan_at(p, i, j) < plan_rows(p, p.len()).len(),
        plan_rows(p, p.len())[plan_at(p, i, j)] == (PlanRow { commit: i, plan: j }),
{
    let x = plan_at(p, i, j);
    let upto = plan_rows(p, i + 1);
    lemma_plan_rows_grow(p, i + 1, p.len());
    assert(upto == plan_rows(p, i) + plan_row(i, p[i as int].len()));
    assert(upto[x] == plan_row(i, p[i as int].len())[j as int]);
    assert(plan_rows(p, p.len()).take(upto.len() as int)[x] == plan_rows(p, p.len())[x]);
}

/// The occurrence that stands at `call_at(p, i, j, k)` is that of call
/// `k` of plan `j` of commitment `i`.
pub proof fn lemma_call_at(p: Seq<Seq<Plan>>, i: nat, j: nat, k: nat)
    requires
        i < p.len(),
        j < p[i as int].len(),
        k < p[i as int][j as int].calls.len(),
    ensures
        0 <= call_at(p, i, j, k) < occurrences(p, p.len()).len(),
        occurrences(p, p.len())[call_at(p, i, j, k)] == (Occurrence {
            commit: i,
            plan: j,
            identity: p[i as int][j as int].calls[k as int].0,
            is_request: p[i as int][j as int].calls[k as int].1,
        }),
{
    let x = call_at(p, i, j, k);
    let plans = p[i as int];
    let calls = plans[j as int].calls;
    let within = commit_calls(i, plans, j + 1);
    let whole = commit_calls(i, plans, plans.len());
    let upto = occurrences(p, i + 1);
    let y = (commit_calls(i, plans, j).len() + k) as int;
    lemma_commit_calls_grow(i, plans, j + 1, plans.len());
    lemma_occurrences_grow(p, i + 1, p.len());
    assert(within == commit_calls(i, plans, j) + call_row(i, j, calls, calls.len()));
    assert(within[y] == call_row(i, j, calls, calls.len())[k as int]);
    assert(whole.take(within.len() as int)[y] == whole[y]);
    assert(upto == occurrences(p, i) + whole);
    assert(upto[x] == whole[y]);
    assert(occurrences(p, p.len()).take(upto.len() as int)[x] == occurrences(p, p.len())[x]);
}

/// The names of the plans at `rows`.
pub open spec fn plan_names_of(rows: Seq<PlanRow>) -> Seq<Seq<char>> {
    Seq::new(rows.len(), |x: int| plan_name(rows[x]))
}

/// The names of the occurrences `os`.
pub open spec fn occurrence_names_of(os: Seq<Occurrence>) -> Seq<Seq<char>> {
    Seq::new(os.len(), |x: int| occurrence_name(os[x]))
}

/// For each of the occurrences `os` whether its plan demands the call.
pub open spec fn flags_of(os: Seq<Occurrence>) -> Seq<bool> {
    Seq::new(os.len(), |x: int| os[x].is_request)
}

/// The names of the first `m` plans of commitment `i`.
pub open spec fn row_keys(i: nat, m: nat) -> Seq<Seq<char>> {
    Seq::new(m, |j: int| plan_key(i, j as nat))
}

/// The names of the occurrences of plan `j` of commitment `i`.
pub open spec fn call_keys(i: nat, j: nat, calls: Seq<(Seq<char>, bool)>) -> Seq<Seq<char>> {
    Seq::new(calls.len(), |k: int| occurrence_key(i, j, calls[k].0))
}

/// The plans that the grouping files under a commitment's name are the
/// plans of that commitment, in order.
pub proof fn lemma_plans_of_commit(p: Seq<Seq<Plan>>, n: nat, i: nat)
    requires
        n <= p.len(),
    ensures
        select(
            commit_prefixes(plan_names_of(plan_rows(p, n))),
            plan_names_of(plan_rows(p, n)),
            commit_key(i),
        ) == if i < n {
            row_keys(i, p[i as int].len())
        } else {
            Seq::empty()
        },
    decreases n,
{
    let all = plan_names_of(plan_rows(p, n));
    if n > 0 {
        let before = plan_names_of(plan_rows(p, (n - 1) as nat));
        let last = row_keys((n - 1) as nat, p[n - 1].len());
        lemma_plans_of_commit(p, (n - 1) as nat, i);
        assert(all =~= before + last);
        assert(commit_prefixes(all) =~= commit_prefixes(before) + commit_prefixes(last));
        lemma_select_concat(
            commit_prefixes(before),
            before,
            commit_prefixes(last),
            last,
            commit_key(i),
        );
        assert forall|x: int| 0 <= x < last.len() implies #[trigger] commit_prefixes(last)[x]
            == commit_key((n - 1) as nat) by {
            lemma_plan_key_decodes((n - 1) as nat, x as nat);
        }
        lemma_select_uniform(
            commit_prefixes(last),
            last,
            commit_key((n - 1) as nat),
            commit_key(i),
        );
        if commit_key(i) == commit_key((n - 1) as nat) {
            lemma_commit_key_injective(i, (n - 1) as nat);
        }
        let a = select(commit_prefixes(before), before, commit_key(i));
        let b = select(commit_prefixes(last), last, commit_key(i));
        if i < n - 1 {
            assert(a + b =~= a);
        } else if i == n - 1 {
            assert(a + b =~= b);
        } else {
            assert(a + b =~= a);
        }
    } else {
        assert(all =~= Seq::<Seq<char>>::empty());
    }
}

/// Within one commitment, the occurrences that the grouping files under a
/// plan's name are the occurrences of that plan, in order.
pub proof fn lemma_calls_of_plan_in_commit(c: nat, plans: Seq<Plan>, m: nat, i: nat, j: nat)
    requires
        m <= plans.len(),
    ensures
        select(
            plan_prefixes(occurrence_names_of(commit_calls(c, plans, m))),
            occurrence_names_of(commit_calls(c, plans, m)),
            plan_key(i, j),
        ) == if i == c && j < m {
            call_keys(i, j, plans[j as int].calls)
        } else {
            Seq::empty()
        },
    decreases m,
{
    let all = occurrence_names_of(commit_calls(c, plans, m));
    if m > 0 {
        let calls = plans[m - 1].calls;
        let before = occurrence_names_of(commit_calls(c, plans, (m - 1) as nat));
        let last = call_keys(c, (m - 1) as nat, calls);
        lemma_calls_of_plan_in_commit(c, plans, (m - 1) as nat, i, j);
        assert(all =~= before + last);
        assert(plan_prefixes(all) =~= plan_prefixes(before) + plan_prefixes(last));
        lemma_select_concat(plan_prefixes(before), before, plan_prefixes(last), last, plan_key(i, j));
        assert forall|x: int| 0 <= x < last.len() implies #[trigger] plan_prefixes(last)[x]
            == plan_key(c, (m - 1) as nat) by {
            lemma_occurrence_key_decodes(c, (m - 1) as nat, calls[x].0);
        }
        lemma_select_uniform(
            plan_prefixes(last),
            last,
            plan_key(c, (m - 1) as nat),
            plan_key(i, j),
        );
        if plan_key(i, j) == plan_key(c, (m - 1) as nat) {
            lemma_plan_key_injective(i, j, c, (m - 1) as nat);
        }
        let a = select(plan_prefixes(before), before, plan_key(i, j));
        let b = select(plan_prefixes(last), last, plan_key(i, j));
        if i == c && j == m - 1 {
            assert(a + b =~= b);
        } else {
            assert(a + b =~= a);
        }
    } else {
        assert(all =~= Seq::<Seq<char>>::empty());
    }
}

/// The occurrences that the grouping files under a plan's name are the
/// occurrences of that plan, in order.
pub proof fn lemma_calls_of_plan(p: Seq<Seq<Plan>>, n: nat, i: nat, j: nat)
    requires
        n <= p.len(),
    ensures
        select(
            plan_prefixes(occurrence_names_of(occurrences(p, n))),
            occurrence_names_of(occurrences(p, n)),
            plan_key(i, j),
        ) == if i < n && j < p[i as int].len() {
            call_keys(i, j, p[i as int][j as int].calls)
        } else {
            Seq::empty()
        },
    decreases n,
{
    let all = occurrence_names_of(occurrences(p, n));
    if n > 0 {
        let before = occurrence_names_of(occurrences(p, (n - 1) as nat));
        let last = occurrence_names_of(commit_calls((n - 1) as nat, p[n - 1], p[n - 1].len()));
        lemma_calls_of_plan(p, (n - 1) as nat, i, j);
        lemma_calls_of_plan_in_commit((n - 1) as nat, p[n - 1], p[n - 1].len(), i, j);
        assert(all =~= before + last);
        assert(plan_prefixes(all) =~= plan_prefixes(before) + plan_prefixes(last));
        lemma_select_concat(plan_prefixes(before), before, plan_prefixes(last), last, plan_key(i, j));
        let a = select(plan_prefixes(before), before, plan_key(i, j));
        let b = select(plan_prefixes(last), last, plan_key(i, j));
        if i == n - 1 {
            assert(a + b =~= b);
        } else {
            assert(a + b =~= a);
        }
    } else {
        assert(all =~= Seq::<Seq<char>>::empty());
    }
}

/// No plan stands twice in the table of plans.
pub proof fn lemma_plan_rows_distinct(p: Seq<Seq<Plan>>, n: nat)
    requires
        n <= p.len(),
    ensures
        plan_rows(p, n).no_duplicates(),
    decreases n,
{
    if n > 0 {
        let before = plan_rows(p, (n - 1) as nat);
        let last = plan_row((n - 1) as nat, p[n - 1].len());
        let all = plan_rows(p, n);
        lemma_plan_rows_distinct(p, (n - 1) as nat);
        assert forall|x: int, y: int| 0 <= x < y < all.len() implies all[x] != all[y] by {
            if y < before.len() {
                assert(before[x] != before[y]);
            } else if x < before.len() {
                assert(before.contains(before[x]));
                lemma_plan_rows(p, (n - 1) as nat, before[x]);
                assert(all[y] == last[y - before.len()]);
            } else {
                assert(all[x] == last[x - before.len()]);
                assert(all[y] == last[y - before.len()]);
            }
        }
    }
}

/// No two plans have the same name.
pub proof fn lemma_plan_names_distinct(p: Seq<Seq<Plan>>)
    ensures
        plan_names(p).no_duplicates(),
{
    let rows = plan_rows(p, p.len());
    let pn = plan_names(p);
    lemma_plan_rows_distinct(p, p.len());
    assert forall|x: int, y: int| 0 <= x < pn.len() && 0 <= y < pn.len() && x != y implies pn[x]
        != pn[y] by {
        if pn[x] == pn[y] {
            lemma_plan_key_injective(rows[x].commit, rows[x].plan, rows[y].commit, rows[y].plan);
            assert(rows[x] == rows[y]);
        }
    }
}

/// Two occurrences stand at the same place: in one plan, with one
/// identity.
pub open spec fn same_place(a: Occurrence, b: Occurrence) -> bool {
    a.commit == b.commit && a.plan == b.plan && a.identity == b.identity
}

/// No two entries of `os` stand at the same place.
pub open spec fn places_distinct(os: Seq<Occurrence>) -> bool {
    forall|x: int, y: int| 0 <= x < y < os.len() ==> !same_place(#[trigger] os[x], #[trigger] os[y])
}

/// Within a commitment whose plans name no service call twice, no two
/// occurrences stand at the same place.
pub proof fn lemma_commit_calls_distinct(c: nat, plans: Seq<Plan>, m: nat)
    requires
        m <= plans.len(),
        forall|j: int| 0 <= j < plans.len() ==> plan_ok(#[trigger] plans[j]),
    ensures
        places_distinct(commit_calls(c, plans, m)),
    decreases m,
{
    if m > 0 {
        let calls = plans[m - 1].calls;
        let before = commit_calls(c, plans, (m - 1) as nat);
        let last = call_row(c, (m - 1) as nat, calls, calls.len());
        let all = commit_calls(c, plans, m);
        lemma_commit_calls_distinct(c, plans, (m - 1) as nat);
        assert(plan_ok(plans[m - 1]));
        assert forall|x: int, y: int| 0 <= x < y < all.len() implies !same_place(
            #[trigger] all[x],
            #[trigger] all[y],
        ) by {
            if y < before.len() {
                assert(!same_place(before[x], before[y]));
            } else if x < before.len() {
                assert(before.contains(before[x]));
                lemma_commit_calls(c, plans, (m - 1) as nat, before[x]);
                assert(all[y] == last[y - before.len()]);
            } else {
                let a = x - before.len();
                let b = y - before.len();
                assert(all[x] == last[a]);
                assert(all[y] == last[b]);
                assert(calls[a].0 != calls[b].0);
            }
        }
    }
}

/// In a problem that is in order, no two occurrences stand at the same
/// place.
pub proof fn lemma_occurrences_distinct(p: Seq<Seq<Plan>>, n: nat)
    requires
        well_formed(p),
        n <= p.len(),
    ensures
        places_distinct(occurrences(p, n)),
    decreases n,
{
    if n > 0 {
        let before = occurrences(p, (n - 1) as nat);
        let last = commit_calls((n - 1) as nat, p[n - 1], p[n - 1].len());
        let all = occurrences(p, n);
        lemma_occurrences_distinct(p, (n - 1) as nat);
        assert(p[n - 1].len() >= 1);
        lemma_commit_calls_distinct((n - 1) as nat, p[n - 1], p[n - 1].len());
        assert forall|x: int, y: int| 0 <= x < y < all.len() implies !same_place(
            #[trigger] all[x],
            #[trigger] all[y],
        ) by {
            if y < before.len() {
                assert(!same_place(before[x], before[y]));
            } else if x < before.len() {
                assert(before.contains(before[x]));
                lemma_occurrences(p, (n - 1) as nat, before[x]);
                assert(last.contains(last[y - before.len()]));
                lemma_commit_calls((n - 1) as nat, p[n - 1], p[n - 1].len(), last[y - before.len()]);
                assert(all[y] == last[y - before.len()]);
            } else {
                assert(all[x] == last[x - before.len()]);
                assert(all[y] == last[y - before.len()]);
                assert(!same_place(last[x - before.len()], last[y - before.len()]));
            }
        }
    }
}

/// In a problem that is in order, no two occurrences have the same name.
pub proof fn lemma_occurrence_names_distinct(p: Seq<Seq<Plan>>)
    requires
        well_formed(p),
    ensures
        occurrence_names(p).no_duplicates(),
{
    let os = occurrences(p, p.len());
    let on = occurrence_names(p);
    lemma_occurrences_distinct(p, p.len());
    assert forall|x: int, y: int| 0 <= x < on.len() && 0 <= y < on.len() && x != y implies on[x]
        != on[y] by {
        if on[x] == on[y] {
            lemma_occurrence_key_injective(
                os[x].commit,
                os[x].plan,
                os[x].identity,
                os[y].commit,
                os[y].plan,
                os[y].identity,
            );
            if x < y {
                assert(!same_place(os[x], os[y]));
            } else {
                assert(!same_place(os[y], os[x]));
            }
        }
    }
}

} // verus!
