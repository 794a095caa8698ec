//! The rules of a schedule as constraints of the solver.

use crate::group::{
    groups, groups_view, lemma_first_occurrences, lemma_members, lemma_select, members,
    plan_prefixes, select, strings,
};
use crate::ident::{decode_match_key, decode_price_key, encode_plan, match_key, price_key};
use crate::model::{problem, Commit, Plan};
use crate::solver::{
    asserted, bool_clone, bool_home, bool_term, bool_terms, bools_at, coefficients, context_id,
    int_home, int_num, int_term, int_terms, mk_add, mk_and, mk_implies, mk_ite, mk_le, mk_mul,
    mk_not, mk_or, mk_pb_eq, mk_pb_ge, objectives, solver_assert, solver_home, solver_maximize,
};
use crate::term::{
    all_of, any_of, at_least_one, consts, exactly_one, none_of, ones, BoolTerm, IntTerm,
};
use crate::vars::{
    bools_named, calls_named, find_entry, first_occurrences, flags, names, plan_name, plan_row,
    plan_rows, position, prices_named, PlanRow,
};
use vstd::prelude::*;
use z3::{Context, Optimize};
use z3::ast::{Bool, Int};

verus! {

/// The most terms that one constraint of the solver can hold.
pub const MAX_TERMS: usize = 0xffff_ffff;

/// What the variable at the head of a group says of the group's members.
#[derive(Clone, Copy, Debug, PartialEq, Eq, Structural)]
pub enum Rule {
    /// Where the head holds, exactly one member does.
    ExactlyOne,
    /// Where the head holds, every member does.
    All,
    /// Where the head does not hold, no member does.
    NoneUnless,
}

/// The constraint that `rule` makes of a head and its members.
pub open spec fn rule_term(rule: Rule, head: Seq<char>, ms: Seq<Seq<char>>) -> BoolTerm {
    match rule {
        Rule::ExactlyOne => BoolTerm::Implies(
            Box::new(BoolTerm::Const(head)),
            Box::new(exactly_one(consts(ms))),
        ),
        Rule::All => BoolTerm::Implies(
            Box::new(BoolTerm::Const(head)),
            Box::new(all_of(consts(ms))),
        ),
        Rule::NoneUnless => BoolTerm::Implies(
            Box::new(BoolTerm::Not(Box::new(BoolTerm::Const(head)))),
            Box::new(none_of(consts(ms))),
        ),
    }
}

/// The constraints that `rule` makes of each head and those of `items`
/// whose key is the head's name.
pub open spec fn rule_terms(
    rule: Rule,
    heads: Seq<Seq<char>>,
    keys: Seq<Seq<char>>,
    items: Seq<Seq<char>>,
) -> Seq<BoolTerm> {
    Seq::new(heads.len(), |h: int| rule_term(rule, heads[h], select(keys, items, heads[h])))
}

/// As many ones as `n`.
fn ones_vec(n: usize) -> (r: Vec<i32>)
    ensures
        r.len() == n,
        coefficients(r@) == ones(n as nat),
{
    let mut r: Vec<i32> = Vec::new();
    let mut x: usize = 0;
    while x < n
        invariant
            x <= n,
            r.len() == x,
            forall|y: int| 0 <= y < x ==> r[y] == 1,
        decreases n - x,
    {
        r.push(1);
        x = x + 1;
    }
    assert(coefficients(r@) =~= ones(n as nat));
    r
}

/// The term that says that exactly one of `xs` holds.
fn mk_exactly_one<'ctx>(ctx: &'ctx Context, xs: &Vec<&Bool<'ctx>>) -> (r: Bool<'ctx>)
    requires
        1 <= xs.len() <= MAX_TERMS,
        bools_at(xs@, context_id(*ctx)),
    ensures
        bool_term(r) == exactly_one(bool_terms(xs@)),
        bool_home(r) == context_id(*ctx),
{
    if xs.len() == 1 {
        bool_clone(xs[0])
    } else {
        let cs = ones_vec(xs.len());
        mk_pb_eq(ctx, xs, &cs, 1)
    }
}

/// The term that says that none of `xs` holds.
fn mk_none_of<'ctx>(ctx: &'ctx Context, xs: &Vec<&Bool<'ctx>>) -> (r: Bool<'ctx>)
    requires
        1 <= xs.len() <= MAX_TERMS,
        bools_at(xs@, context_id(*ctx)),
    ensures
        bool_term(r) == none_of(bool_terms(xs@)),
        bool_home(r) == context_id(*ctx),
{
    if xs.len() == 1 {
        mk_not(xs[0])
    } else {
        let cs = ones_vec(xs.len());
        mk_pb_eq(ctx, xs, &cs, 0)
    }
}

/// The term that says that all of `xs` hold.
fn mk_all_of<'ctx>(ctx: &'ctx Context, xs: &Vec<&Bool<'ctx>>) -> (r: Bool<'ctx>)
    requires
        1 <= xs.len() <= MAX_TERMS,
        bools_at(xs@, context_id(*ctx)),
    ensures
        bool_term(r) == all_of(bool_terms(xs@)),
        bool_home(r) == context_id(*ctx),
{
    if xs.len() == 1 {
        bool_clone(xs[0])
    } else {
        mk_and(ctx, xs)
    }
}

/// The term that says that some of `xs` holds, as a disjunction.
fn mk_any_of<'ctx>(ctx: &'ctx Context, xs: &Vec<&Bool<'ctx>>) -> (r: Bool<'ctx>)
    requires
        1 <= xs.len() <= MAX_TERMS,
        bools_at(xs@, context_id(*ctx)),
    ensures
        bool_term(r) == any_of(bool_terms(xs@)),
        bool_home(r) == context_id(*ctx),
{
    if xs.len() == 1 {
        bool_clone(xs[0])
    } else {
        mk_or(ctx, xs)
    }
}

/// The term that says that some of `xs` holds, as a cardinality constraint.
fn mk_at_least_one<'ctx>(ctx: &'ctx Context, xs: &Vec<&Bool<'ctx>>) -> (r: Bool<'ctx>)
    requires
        1 <= xs.len() <= MAX_TERMS,
        bools_at(xs@, context_id(*ctx)),
    ensures
        bool_term(r) == at_least_one(bool_terms(xs@)),
        bool_home(r) == context_id(*ctx),
{
    if xs.len() == 1 {
        bool_clone(xs[0])
    } else {
        let cs = ones_vec(xs.len());
        mk_pb_ge(ctx, xs, &cs, 1)
    }
}

/// The term that `rule` makes of a head and its members.
fn mk_rule<'ctx>(ctx: &'ctx Context, rule: Rule, head: &Bool<'ctx>, xs: &Vec<&Bool<'ctx>>) -> (r:
    Bool<'ctx>)
    requires
        1 <= xs.len() <= MAX_TERMS,
        bools_at(xs@, context_id(*ctx)),
        bool_home(*head) == context_id(*ctx),
    ensures
        bool_home(r) == context_id(*ctx),
        bool_term(r) == match rule {
            Rule::ExactlyOne => BoolTerm::Implies(
                Box::new(bool_term(*head)),
                Box::new(exactly_one(bool_terms(xs@))),
            ),
            Rule::All => BoolTerm::Implies(
                Box::new(bool_term(*head)),
                Box::new(all_of(bool_terms(xs@))),
            ),
            Rule::NoneUnless => BoolTerm::Implies(
                Box::new(BoolTerm::Not(Box::new(bool_term(*head)))),
                Box::new(none_of(bool_terms(xs@))),
            ),
        },
{
    match rule {
        Rule::ExactlyOne => {
            let then = mk_exactly_one(ctx, xs);
            mk_implies(head, &then)
        },
        Rule::All => {
            let then = mk_all_of(ctx, xs);
            mk_implies(head, &then)
        },
        Rule::NoneUnless => {
            let unless = mk_not(head);
            let then = mk_none_of(ctx, xs);
            mk_implies(&unless, &then)
        },
    }
}

/// A variable with its name, wherever it is kept.
pub struct Entry<'a, 'ctx> {
    pub name: &'a String,
    pub var: &'a Bool<'ctx>,
}

/// The names of a directory of variables.
pub open spec fn entry_names(dir: Seq<Entry>) -> Seq<Seq<char>> {
    Seq::new(dir.len(), |x: int| dir[x].name@)
}

/// Each variable of the directory is the constant of its name, in the
/// context `home`.
pub open spec fn entries_named(dir: Seq<Entry>, home: int) -> bool {
    forall|x: int|
        0 <= x < dir.len() ==> bool_term(*(#[trigger] dir[x]).var) == BoolTerm::Const(
            dir[x].name@,
        ) && bool_home(*dir[x].var) == home
}

/// Every group has a member and not more than a constraint can hold, and
/// every member is among `ns`.
pub open spec fn groups_within(gs: Seq<(Seq<char>, Seq<Seq<char>>)>, ns: Seq<Seq<char>>) -> bool {
    forall|g: int|
        0 <= g < gs.len() ==> 1 <= (#[trigger] gs[g]).1.len() <= MAX_TERMS && forall|a: int|
            0 <= a < gs[g].1.len() ==> ns.contains(#[trigger] gs[g].1[a])
}

/// The groups of the items of a table that is not too long lie within it.
pub proof fn lemma_groups_within(keys: Seq<Seq<char>>, items: Seq<Seq<char>>)
    requires
        keys.len() == items.len(),
        items.len() <= MAX_TERMS,
    ensures
        groups_within(groups(keys, items), items),
{
    let gs = groups(keys, items);
    lemma_first_occurrences(keys);
    assert forall|g: int| 0 <= g < gs.len() implies 1 <= (#[trigger] gs[g]).1.len() <= MAX_TERMS
        && forall|a: int| 0 <= a < gs[g].1.len() ==> items.contains(#[trigger] gs[g].1[a]) by {
        let k = first_occurrences(keys)[g];
        assert(first_occurrences(keys).contains(k));
        assert(keys.contains(k));
        lemma_select(keys, items, k);
    }
}

/// The directory of a table of boolean variables.
pub fn index_bools<'a, 'ctx>(ctx: &'ctx Context, table: &'a Vec<(String, Bool<'ctx>)>) -> (r: Vec<
    Entry<'a, 'ctx>,
>)
    requires
        bools_named(table@, context_id(*ctx)),
    ensures
        entry_names(r@) == names(table@),
        entries_named(r@, context_id(*ctx)),
{
    let mut dir: Vec<Entry<'a, 'ctx>> = Vec::new();
    let mut x: usize = 0;
    while x < table.len()
        invariant
            x <= table.len(),
            dir.len() == x,
            bools_named(table@, context_id(*ctx)),
            forall|y: int| 0 <= y < x ==> (#[trigger] dir[y]).name@ == table[y].0@,
            entries_named(dir@, context_id(*ctx)),
        decreases table.len() - x,
    {
        dir.push(Entry { name: &table[x].0, var: &table[x].1 });
        x = x + 1;
    }
    assert(entry_names(dir@) =~= names(table@));
    dir
}

/// The directory of a table of occurrences' variables.
pub fn index_calls<'a, 'ctx>(
    ctx: &'ctx Context,
    table: &'a Vec<(String, (Bool<'ctx>, bool))>,
) -> (r: Vec<Entry<'a, 'ctx>>)
    requires
        calls_named(table@, context_id(*ctx)),
    ensures
        entry_names(r@) == names(table@),
        entries_named(r@, context_id(*ctx)),
{
    let mut dir: Vec<Entry<'a, 'ctx>> = Vec::new();
    let mut x: usize = 0;
    while x < table.len()
        invariant
            x <= table.len(),
            dir.len() == x,
            calls_named(table@, context_id(*ctx)),
            forall|y: int| 0 <= y < x ==> (#[trigger] dir[y]).name@ == table[y].0@,
            entries_named(dir@, context_id(*ctx)),
        decreases table.len() - x,
    {
        dir.push(Entry { name: &table[x].0, var: &table[x].1.0 });
        x = x + 1;
    }
    assert(entry_names(dir@) =~= names(table@));
    dir
}

/// The variable of the directory that has the name `name`.
fn find_var<'a, 'ctx>(dir: &Vec<Entry<'a, 'ctx>>, name: &String, home: Ghost<int>) -> (r: Option<
    &'a Bool<'ctx>,
>)
    requires
        entries_named(dir@, home@),
    ensures
        r is Some <==> entry_names(dir@).contains(name@),
        r matches Some(v) ==> bool_term(*v) == BoolTerm::Const(name@) && bool_home(*v) == home@,
{
    let mut x: usize = 0;
    while x < dir.len()
        invariant
            x <= dir.len(),
            entries_named(dir@, home@),
            forall|y: int| 0 <= y < x ==> (#[trigger] dir[y]).name@ != name@,
        decreases dir.len() - x,
    {
        if *dir[x].name == *name {
            assert(entry_names(dir@)[x as int] == name@);
            return Some(dir[x].var);
        }
        x = x + 1;
    }
    assert forall|y: int| 0 <= y < entry_names(dir@).len() implies entry_names(dir@)[y]
        != name@ by {
        assert(dir[y].name@ != name@);
    }
    None
}

/// The variables of the directory that `wanted` names, in the order of
/// `wanted`.
fn gather<'a, 'ctx>(ctx: &'ctx Context, dir: &Vec<Entry<'a, 'ctx>>, wanted: &Vec<String>) -> (r:
    Vec<&'a Bool<'ctx>>)
    requires
        entries_named(dir@, context_id(*ctx)),
        forall|w: int|
            0 <= w < wanted.len() ==> entry_names(dir@).contains((#[trigger] wanted[w])@),
    ensures
        r.len() == wanted.len(),
        bool_terms(r@) == consts(strings(wanted@)),
        bools_at(r@, context_id(*ctx)),
{
    let mut out: Vec<&'a Bool<'ctx>> = Vec::new();
    let mut w: usize = 0;
    while w < wanted.len()
        invariant
            w <= wanted.len(),
            out.len() == w,
            entries_named(dir@, context_id(*ctx)),
            forall|v: int|
                0 <= v < wanted.len() ==> entry_names(dir@).contains((#[trigger] wanted[v])@),
            forall|v: int|
                0 <= v < w ==> bool_term(*#[trigger] out[v]) == BoolTerm::Const(wanted[v]@),
            bools_at(out@, context_id(*ctx)),
        decreases wanted.len() - w,
    {
        assert(entry_names(dir@).contains(wanted[w as int]@));
        match find_var(dir, &wanted[w], Ghost(context_id(*ctx))) {
            Some(v) => {
                out.push(v);
            },
            None => {
                assert(false);
            },
        }
        w = w + 1;
    }
    assert(bool_terms(out@) =~= consts(strings(wanted@)));
    out
}

/// The members of a key are those of the first group that has the key.
pub proof fn lemma_members_at(gs: Seq<(Seq<char>, Seq<Seq<char>>)>, k: Seq<char>, g: int)
    requires
        0 <= g < gs.len(),
        gs[g].0 == k,
        forall|h: int| 0 <= h < g ==> (#[trigger] gs[h]).0 != k,
    ensures
        members(gs, k) == gs[g].1,
    decreases g,
{
    if g > 0 {
        let rest = gs.drop_first();
        assert forall|h: int| 0 <= h < g - 1 implies (#[trigger] rest[h]).0 != k by {
            assert(rest[h] == gs[h + 1]);
        }
        lemma_members_at(rest, k, g - 1);
    }
}

/// A key that no group has has no members.
pub proof fn lemma_members_absent(gs: Seq<(Seq<char>, Seq<Seq<char>>)>, k: Seq<char>)
    requires
        forall|h: int| 0 <= h < gs.len() ==> (#[trigger] gs[h]).0 != k,
    ensures
        members(gs, k) == Seq::<Seq<char>>::empty(),
    decreases gs.len(),
{
    if gs.len() > 0 {
        let rest = gs.drop_first();
        assert forall|h: int| 0 <= h < rest.len() implies (#[trigger] rest[h]).0 != k by {
            assert(rest[h] == gs[h + 1]);
        }
        lemma_members_absent(rest, k);
    }
}

/// The members of the group with the key `key`, if there is such a group.
fn group_of<'a>(grouped: &'a Vec<(String, Vec<String>)>, key: &String) -> (r: Option<
    &'a Vec<String>,
>)
    ensures
        match r {
            Some(ms) => strings(ms@) == members(groups_view(grouped@), key@) && exists|g: int|
                0 <= g < grouped.len() && strings(ms@) == (#[trigger] groups_view(grouped@)[g]).1,
            None => members(groups_view(grouped@), key@) == Seq::<Seq<char>>::empty()
                && forall|g: int|
                0 <= g < grouped.len() ==> (#[trigger] groups_view(grouped@)[g]).0 != key@,
        },
{
    match find_entry(grouped, key) {
        Some(g) => {
            proof {
                lemma_members_at(groups_view(grouped@), key@, g as int);
                assert(strings(grouped[g as int].1@) == groups_view(grouped@)[g as int].1);
            }
            Some(&grouped[g].1)
        },
        None => {
            proof {
                assert forall|g: int| 0 <= g < grouped.len() implies (#[trigger] groups_view(
                    grouped@,
                )[g]).0 != key@ by {
                    assert(names(grouped@)[g] == grouped[g].0@);
                }
                lemma_members_absent(groups_view(grouped@), key@);
            }
            None
        },
    }
}

/// Gives the solver, for each head, what `rule` says of the head and of
/// those variables of the directory that the grouping files under the
/// head's name.
pub fn assert_rule<'a, 'ctx>(
    ctx: &'ctx Context,
    solver: &mut Optimize<'ctx>,
    rule: Rule,
    heads: &Vec<(String, Bool<'ctx>)>,
    dir: &Vec<Entry<'a, 'ctx>>,
    grouped: &Vec<(String, Vec<String>)>,
    keys: Ghost<Seq<Seq<char>>>,
)
    requires
        solver_home(*old(solver)) == context_id(*ctx),
        bools_named(heads@, context_id(*ctx)),
        entries_named(dir@, context_id(*ctx)),
        dir.len() <= MAX_TERMS,
        keys@.len() == dir.len(),
        groups_view(grouped@) == groups(keys@, entry_names(dir@)),
        forall|h: int| 0 <= h < heads.len() ==> keys@.contains((#[trigger] heads[h]).0@),
    ensures
        asserted(*final(solver)) == asserted(*old(solver)) + rule_terms(
            rule,
            names(heads@),
            keys@,
            entry_names(dir@),
        ),
        objectives(*final(solver)) == objectives(*old(solver)),
        solver_home(*final(solver)) == solver_home(*old(solver)),
{
    let ghost start = asserted(*solver);
    let ghost items = entry_names(dir@);
    let ghost all = rule_terms(rule, names(heads@), keys@, items);
    let mut h: usize = 0;
    assert(start =~= start + all.take(0));
    while h < heads.len()
        invariant
            h <= heads.len(),
            solver_home(*solver) == context_id(*ctx),
            bools_named(heads@, context_id(*ctx)),
            entries_named(dir@, context_id(*ctx)),
            dir.len() <= MAX_TERMS,
            keys@.len() == dir.len(),
            items == entry_names(dir@),
            groups_view(grouped@) == groups(keys@, items),
            forall|g: int| 0 <= g < heads.len() ==> keys@.contains((#[trigger] heads[g]).0@),
            all == rule_terms(rule, names(heads@), keys@, items),
            asserted(*solver) == start + all.take(h as int),
            objectives(*solver) == objectives(*old(solver)),
        decreases heads.len() - h,
    {
        let head = &heads[h];
        let ghost ms = select(keys@, items, head.0@);
        proof {
            lemma_members(keys@, items, head.0@);
            lemma_select(keys@, items, head.0@);
            assert(keys@.contains(heads[h as int].0@));
        }
        match group_of(grouped, &head.0) {
            Some(wanted) => {
                assert(strings(wanted@) == ms);
                assert forall|w: int| 0 <= w < wanted.len() implies items.contains(
                    (#[trigger] wanted[w])@,
                ) by {
                    assert(strings(wanted@)[w] == wanted[w]@);
                    assert(ms[w] == wanted[w]@);
                }
                let xs = gather(ctx, dir, wanted);
                let term = mk_rule(ctx, rule, &head.1, &xs);
                solver_assert(solver, &term);
                proof {
                    assert(bool_term(term) == rule_term(rule, head.0@, ms));
                    assert(all[h as int] == rule_term(rule, names(heads@)[h as int], ms));
                    assert(all.take(h + 1) =~= all.take(h as int).push(all[h as int]));
                    assert(asserted(*solver) =~= start + all.take(h + 1));
                }
            },
            None => {
                assert(false);
            },
        }
        h = h + 1;
    }
    assert(all.take(h as int) =~= all);
}

/// The negation of each of the constants named by `ms`.
pub open spec fn not_each(ms: Seq<Seq<char>>) -> Seq<BoolTerm> {
    Seq::new(ms.len(), |a: int| BoolTerm::Not(Box::new(BoolTerm::Const(ms[a]))))
}

/// Where one of `own` holds, `other` is to answer: with exactly one that
/// holds where `own` are demands, with one at least where they are
/// supplies.
pub open spec fn balance_term(own: Seq<Seq<char>>, other: Seq<Seq<char>>, demands: bool) -> BoolTerm {
    BoolTerm::Implies(
        Box::new(any_of(consts(own))),
        Box::new(
            if demands {
                exactly_one(consts(other))
            } else {
                at_least_one(consts(other))
            },
        ),
    )
}

/// The constraints for one match key: with nothing on the other side none
/// of `own` may hold, else `own` is balanced against `other`.
pub open spec fn group_balance(own: Seq<Seq<char>>, other: Seq<Seq<char>>, demands: bool) -> Seq<
    BoolTerm,
> {
    if other.len() == 0 {
        not_each(own)
    } else {
        seq![balance_term(own, other, demands)]
    }
}

/// The constraints for the first `n` groups of `own`, each against the
/// group of `others` with the same key.
pub open spec fn balance_terms(
    own: Seq<(Seq<char>, Seq<Seq<char>>)>,
    others: Seq<(Seq<char>, Seq<Seq<char>>)>,
    demands: bool,
    n: nat,
) -> Seq<BoolTerm>
    decreases n,
{
    if n == 0 || n > own.len() {
        Seq::empty()
    } else {
        balance_terms(own, others, demands, (n - 1) as nat) + group_balance(
            own[n - 1].1,
            members(others, own[n - 1].0),
            demands,
        )
    }
}

/// Gives the solver the constraints that balance each group of `own`
/// against the group of `others` that has the same match key.
pub fn assert_balance<'a, 'ctx>(
    ctx: &'ctx Context,
    solver: &mut Optimize<'ctx>,
    dir: &Vec<Entry<'a, 'ctx>>,
    own: &Vec<(String, Vec<String>)>,
    others: &Vec<(String, Vec<String>)>,
    demands: bool,
)
    requires
        solver_home(*old(solver)) == context_id(*ctx),
        entries_named(dir@, context_id(*ctx)),
        groups_within(groups_view(own@), entry_names(dir@)),
        groups_within(groups_view(others@), entry_names(dir@)),
    ensures
        asserted(*final(solver)) == asserted(*old(solver)) + balance_terms(
            groups_view(own@),
            groups_view(others@),
            demands,
            own.len() as nat,
        ),
        objectives(*final(solver)) == objectives(*old(solver)),
        solver_home(*final(solver)) == solver_home(*old(solver)),
{
    let ghost start = asserted(*solver);
    let ghost own_view = groups_view(own@);
    let ghost others_view = groups_view(others@);
    let ghost items = entry_names(dir@);
    let mut g: usize = 0;
    assert(start =~= start + balance_terms(own_view, others_view, demands, 0));
    while g < own.len()
        invariant
            g <= own.len(),
            solver_home(*solver) == context_id(*ctx),
            entries_named(dir@, context_id(*ctx)),
            own_view == groups_view(own@),
            others_view == groups_view(others@),
            items == entry_names(dir@),
            groups_within(own_view, items),
            groups_within(others_view, items),
            asserted(*solver) == start + balance_terms(own_view, others_view, demands, g as nat),
            objectives(*solver) == objectives(*old(solver)),
        decreases own.len() - g,
    {
        let key = &own[g].0;
        let mine = &own[g].1;
        let ghost done = asserted(*solver);
        let ghost ms = own_view[g as int].1;
        let ghost theirs = members(others_view, own_view[g as int].0);
        proof {
            assert(ms == strings(mine@));
            assert(own_view[g as int].0 == key@);
            assert(1 <= ms.len() <= MAX_TERMS);
            assert forall|w: int| 0 <= w < mine.len() implies items.contains(
                (#[trigger] mine[w])@,
            ) by {
                assert(ms[w] == mine[w]@);
                assert(items.contains(own_view[g as int].1[w]));
            }
        }
        match group_of(others, key) {
            None => {
                let mut a: usize = 0;
                assert(done =~= done + not_each(ms).take(0));
                while a < mine.len()
                    invariant
                        a <= mine.len(),
                        solver_home(*solver) == context_id(*ctx),
                        entries_named(dir@, context_id(*ctx)),
                        items == entry_names(dir@),
                        ms == strings(mine@),
                        forall|w: int|
                            0 <= w < mine.len() ==> items.contains((#[trigger] mine[w])@),
                        asserted(*solver) == done + not_each(ms).take(a as int),
                        objectives(*solver) == objectives(*old(solver)),
                    decreases mine.len() - a,
                {
                    assert(items.contains(mine[a as int]@));
                    match find_var(dir, &mine[a], Ghost(context_id(*ctx))) {
                        Some(v) => {
                            let term = mk_not(v);
                            solver_assert(solver, &term);
                            proof {
                                assert(ms[a as int] == mine[a as int]@);
                                assert(not_each(ms).take(a + 1) =~= not_each(ms).take(
                                    a as int,
                                ).push(not_each(ms)[a as int]));
                                assert(asserted(*solver) =~= done + not_each(ms).take(a + 1));
                            }
                        },
                        None => {
                            assert(false);
                        },
                    }
                    a = a + 1;
                }
                proof {
                    assert(not_each(ms).take(a as int) =~= not_each(ms));
                    assert(group_balance(ms, theirs, demands) == not_each(ms));
                }
            },
            Some(wanted) => {
                proof {
                    let h = choose|h: int|
                        0 <= h < others.len() && strings(wanted@) == (#[trigger] others_view[h]).1;
                    assert(1 <= others_view[h].1.len() <= MAX_TERMS);
                    assert forall|w: int| 0 <= w < wanted.len() implies items.contains(
                        (#[trigger] wanted[w])@,
                    ) by {
                        assert(strings(wanted@)[w] == wanted[w]@);
                        assert(items.contains(others_view[h].1[w]));
                    }
                    assert(strings(wanted@).len() == wanted.len());
                }
                let xs = gather(ctx, dir, mine);
                let ys = gather(ctx, dir, wanted);
                let premise = mk_any_of(ctx, &xs);
                let answer = if demands {
                    mk_exactly_one(ctx, &ys)
                } else {
                    mk_at_least_one(ctx, &ys)
                };
                let term = mk_implies(&premise, &answer);
                solver_assert(solver, &term);
                proof {
                    assert(bool_term(term) == balance_term(ms, theirs, demands));
                    assert(group_balance(ms, theirs, demands) =~= seq![
                        balance_term(ms, theirs, demands),
                    ]);
                    assert(asserted(*solver) =~= done + group_balance(ms, theirs, demands));
                }
            },
        }
        proof {
            assert(asserted(*solver) =~= start + balance_terms(
                own_view,
                others_view,
                demands,
                (g + 1) as nat,
            ));
        }
        g = g + 1;
    }
}

/// Gives the solver the constraint that one commitment at least is
/// accepted.
pub fn assert_non_trivial<'ctx>(
    ctx: &'ctx Context,
    solver: &mut Optimize<'ctx>,
    commit_bools: &Vec<(String, Bool<'ctx>)>,
)
    requires
        solver_home(*old(solver)) == context_id(*ctx),
        bools_named(commit_bools@, context_id(*ctx)),
        1 <= commit_bools.len() <= MAX_TERMS,
    ensures
        asserted(*final(solver)) == asserted(*old(solver)).push(
            at_least_one(consts(names(commit_bools@))),
        ),
        objectives(*final(solver)) == objectives(*old(solver)),
        solver_home(*final(solver)) == solver_home(*old(solver)),
{
    let mut xs: Vec<&Bool<'ctx>> = Vec::new();
    let mut c: usize = 0;
    while c < commit_bools.len()
        invariant
            c <= commit_bools.len(),
            xs.len() == c,
            bools_named(commit_bools@, context_id(*ctx)),
            forall|d: int|
                0 <= d < c ==> bool_term(*#[trigger] xs[d]) == BoolTerm::Const(
                    commit_bools[d].0@,
                ),
            bools_at(xs@, context_id(*ctx)),
        decreases commit_bools.len() - c,
    {
        xs.push(&commit_bools[c].1);
        c = c + 1;
    }
    assert(bool_terms(xs@) =~= consts(names(commit_bools@)));
    let term = mk_at_least_one(ctx, &xs);
    solver_assert(solver, &term);
}

/// The price of the service call of the occurrence named `name`, counted
/// once where the plan demands the call and taken off once where it
/// supplies it. `on` and `fl` are the names and the flags of the
/// occurrences.
pub open spec fn signed_price(name: Seq<char>, on: Seq<Seq<char>>, fl: Seq<bool>) -> IntTerm {
    IntTerm::Mul(
        seq![
            IntTerm::Const(price_key(match_key(name))),
            IntTerm::Num(
                if fl[position(on, name) as int] {
                    1
                } else {
                    -1
                },
            ),
        ],
    )
}

/// What the first `n` of the occurrences named by `ms` cost together.
pub open spec fn cost_term(ms: Seq<Seq<char>>, on: Seq<Seq<char>>, fl: Seq<bool>, n: nat) -> IntTerm
    decreases n,
{
    if n == 0 || n > ms.len() {
        IntTerm::Num(0)
    } else {
        IntTerm::Add(seq![cost_term(ms, on, fl, (n - 1) as nat), signed_price(ms[n - 1], on, fl)])
    }
}

/// The occurrences named by `ms` cost no more than `ceil`.
pub open spec fn budget_term(ms: Seq<Seq<char>>, on: Seq<Seq<char>>, fl: Seq<bool>, ceil: int) -> BoolTerm {
    BoolTerm::Le(Box::new(cost_term(ms, on, fl, ms.len())), Box::new(IntTerm::Num(ceil)))
}

/// The budget constraint of the plan at `r`.
pub open spec fn plan_budget(p: Seq<Seq<Plan>>, on: Seq<Seq<char>>, fl: Seq<bool>, r: PlanRow) -> BoolTerm {
    budget_term(
        select(plan_prefixes(on), on, plan_name(r)),
        on,
        fl,
        p[r.commit as int][r.plan as int].cost_ceil,
    )
}

/// The budget constraints of the plans at `rows`.
pub open spec fn budget_terms(
    p: Seq<Seq<Plan>>,
    on: Seq<Seq<char>>,
    fl: Seq<bool>,
    rows: Seq<PlanRow>,
) -> Seq<BoolTerm> {
    Seq::new(rows.len(), |x: int| plan_budget(p, on, fl, rows[x]))
}

/// Every name of `ms` is a name of `on`, and its price key is among `pn`.
pub open spec fn priced(ms: Seq<Seq<char>>, on: Seq<Seq<char>>, pn: Seq<Seq<char>>) -> bool {
    forall|w: int|
        0 <= w < ms.len() ==> on.contains(#[trigger] ms[w]) && pn.contains(
            price_key(match_key(ms[w])),
        )
}

/// The term that says that the occurrences named by `ms` cost no more
/// than `ceil`.
fn mk_budget<'ctx>(
    ctx: &'ctx Context,
    ms: &Vec<String>,
    s_call_bools: &Vec<(String, (Bool<'ctx>, bool))>,
    prices: &Vec<(String, Int<'ctx>)>,
    ceil: i64,
) -> (r: Bool<'ctx>)
    requires
        prices_named(prices@, context_id(*ctx)),
        priced(strings(ms@), names(s_call_bools@), names(prices@)),
    ensures
        bool_term(r) == budget_term(
            strings(ms@),
            names(s_call_bools@),
            flags(s_call_bools@),
            ceil as int,
        ),
        bool_home(r) == context_id(*ctx),
{
    let ghost on = names(s_call_bools@);
    let ghost fl = flags(s_call_bools@);
    let ghost pn = names(prices@);
    let mut acc = int_num(ctx, 0);
    let mut w: usize = 0;
    while w < ms.len()
        invariant
            w <= ms.len(),
            on == names(s_call_bools@),
            fl == flags(s_call_bools@),
            pn == names(prices@),
            prices_named(prices@, context_id(*ctx)),
            priced(strings(ms@), on, pn),
            int_term(acc) == cost_term(strings(ms@), on, fl, w as nat),
            int_home(acc) == context_id(*ctx),
        decreases ms.len() - w,
    {
        let name = &ms[w];
        assert(strings(ms@)[w as int] == name@);
        assert(on.contains(strings(ms@)[w as int]));
        assert(pn.contains(price_key(match_key(strings(ms@)[w as int]))));
        let place = find_entry(s_call_bools, name);
        let id = decode_match_key(name.as_str());
        let key = decode_price_key(id.as_str());
        let priced_at = find_entry(prices, &key);
        match (place, priced_at) {
            (Some(x), Some(y)) => {
                let is_request = s_call_bools[x].1.1;
                let sign = int_num(
                    ctx,
                    if is_request {
                        1
                    } else {
                        -1
                    },
                );
                let mut factors: Vec<&Int<'ctx>> = Vec::new();
                factors.push(&prices[y].1);
                factors.push(&sign);
                assert(int_terms(factors@) =~= seq![
                    IntTerm::Const(price_key(match_key(name@))),
                    IntTerm::Num(
                        if fl[position(on, name@) as int] {
                            1
                        } else {
                            -1
                        },
                    ),
                ]);
                let entry = mk_mul(ctx, &factors);
                let mut both: Vec<&Int<'ctx>> = Vec::new();
                both.push(&acc);
                both.push(&entry);
                assert(int_terms(both@) =~= seq![
                    cost_term(strings(ms@), on, fl, w as nat),
                    signed_price(name@, on, fl),
                ]);
                let next = mk_add(ctx, &both);
                acc = next;
            },
            _ => {
                assert(false);
            },
        }
        w = w + 1;
    }
    let limit = int_num(ctx, ceil);
    mk_le(&acc, &limit)
}

/// Gives the solver, for each plan, the constraint that the prices of what
/// it demands, less the prices of what it supplies, stay within its cost
/// ceiling. The constraint binds whether or not the plan is chosen.
pub fn assert_budgets<'ctx>(
    ctx: &'ctx Context,
    solver: &mut Optimize<'ctx>,
    commits: &Vec<Commit>,
    s_call_bools: &Vec<(String, (Bool<'ctx>, bool))>,
    s_calls_grouped: &Vec<(String, Vec<String>)>,
    prices: &Vec<(String, Int<'ctx>)>,
)
    requires
        solver_home(*old(solver)) == context_id(*ctx),
        prices_named(prices@, context_id(*ctx)),
        groups_view(s_calls_grouped@) == groups(
            plan_prefixes(names(s_call_bools@)),
            names(s_call_bools@),
        ),
        priced(names(s_call_bools@), names(s_call_bools@), names(prices@)),
    ensures
        asserted(*final(solver)) == asserted(*old(solver)) + budget_terms(
            problem(commits@),
            names(s_call_bools@),
            flags(s_call_bools@),
            plan_rows(problem(commits@), commits.len() as nat),
        ),
        objectives(*final(solver)) == objectives(*old(solver)),
        solver_home(*final(solver)) == solver_home(*old(solver)),
{
    let ghost p = problem(commits@);
    let ghost on = names(s_call_bools@);
    let ghost fl = flags(s_call_bools@);
    let ghost pn = names(prices@);
    let ghost start = asserted(*solver);
    let ghost mut rows: Seq<PlanRow> = Seq::empty();
    let mut i: usize = 0;
    assert(start =~= start + budget_terms(p, on, fl, rows));
    while i < commits.len()
        invariant
            i <= commits.len(),
            p == problem(commits@),
            on == names(s_call_bools@),
            fl == flags(s_call_bools@),
            pn == names(prices@),
            solver_home(*solver) == context_id(*ctx),
            prices_named(prices@, context_id(*ctx)),
            groups_view(s_calls_grouped@) == groups(plan_prefixes(on), on),
            priced(on, on, pn),
            rows == plan_rows(p, i as nat),
            asserted(*solver) == start + budget_terms(p, on, fl, rows),
            objectives(*solver) == objectives(*old(solver)),
        decreases commits.len() - i,
    {
        let plans = &commits[i].allofs;
        assert(p[i as int].len() == plans.len());
        let mut j: usize = 0;
        while j < plans.len()
            invariant
                j <= plans.len(),
                i < commits.len(),
                plans == &commits[i as int].allofs,
                p == problem(commits@),
                on == names(s_call_bools@),
                fl == flags(s_call_bools@),
                pn == names(prices@),
                solver_home(*solver) == context_id(*ctx),
                prices_named(prices@, context_id(*ctx)),
                groups_view(s_calls_grouped@) == groups(plan_prefixes(on), on),
                priced(on, on, pn),
                rows == plan_rows(p, i as nat) + plan_row(i as nat, j as nat),
                asserted(*solver) == start + budget_terms(p, on, fl, rows),
                objectives(*solver) == objectives(*old(solver)),
            decreases plans.len() - j,
        {
            let name = encode_plan(i, j);
            let ceil = plans[j].cost_ceil;
            let ghost row = PlanRow { commit: i as nat, plan: j as nat };
            let ghost ms = select(plan_prefixes(on), on, plan_name(row));
            proof {
                assert(p[i as int][j as int] == plans[j as int]@);
                lemma_members(plan_prefixes(on), on, name@);
                lemma_select(plan_prefixes(on), on, name@);
            }
            let term = match group_of(s_calls_grouped, &name) {
                Some(wanted) => {
                    proof {
                        assert(strings(wanted@) == ms);
                        assert forall|w: int| 0 <= w < ms.len() implies on.contains(
                            #[trigger] ms[w],
                        ) && pn.contains(price_key(match_key(ms[w]))) by {
                            let x = choose|x: int| 0 <= x < on.len() && on[x] == ms[w];
                            assert(pn.contains(price_key(match_key(on[x]))));
                        }
                    }
                    mk_budget(ctx, wanted, s_call_bools, prices, ceil)
                },
                None => {
                    let none: Vec<String> = Vec::new();
                    assert(strings(none@) =~= ms);
                    mk_budget(ctx, &none, s_call_bools, prices, ceil)
                },
            };
            solver_assert(solver, &term);
            proof {
                let next = rows.push(row);
                assert(next =~= plan_rows(p, i as nat) + plan_row(i as nat, (j + 1) as nat));
                assert(bool_term(term) == plan_budget(p, on, fl, row));
                assert(budget_terms(p, on, fl, next) =~= budget_terms(p, on, fl, rows).push(
                    plan_budget(p, on, fl, row),
                ));
                assert(asserted(*solver) =~= start + budget_terms(p, on, fl, next));
                rows = next;
            }
            j = j + 1;
        }
        i = i + 1;
    }
}

/// One for each of the first `n` commitments that is accepted, added up.
pub open spec fn count_term(cn: Seq<Seq<char>>, n: nat) -> IntTerm
    decreases n,
{
    if n == 0 || n > cn.len() {
        IntTerm::Num(0)
    } else {
        IntTerm::Add(
            seq![
                count_term(cn, (n - 1) as nat),
                IntTerm::Ite(
                    Box::new(BoolTerm::Const(cn[n - 1])),
                    Box::new(IntTerm::Num(1)),
                    Box::new(IntTerm::Num(0)),
                ),
            ],
        )
    }
}

/// Asks the solver to accept as many commitments as it can.
pub fn maximize_commitments<'ctx>(
    ctx: &'ctx Context,
    solver: &mut Optimize<'ctx>,
    commit_bools: &Vec<(String, Bool<'ctx>)>,
)
    requires
        solver_home(*old(solver)) == context_id(*ctx),
        bools_named(commit_bools@, context_id(*ctx)),
    ensures
        asserted(*final(solver)) == asserted(*old(solver)),
        objectives(*final(solver)) == objectives(*old(solver)).push(
            count_term(names(commit_bools@), commit_bools.len() as nat),
        ),
        solver_home(*final(solver)) == solver_home(*old(solver)),
{
    let ghost cn = names(commit_bools@);
    let mut acc = int_num(ctx, 0);
    let mut c: usize = 0;
    while c < commit_bools.len()
        invariant
            c <= commit_bools.len(),
            cn == names(commit_bools@),
            bools_named(commit_bools@, context_id(*ctx)),
            int_term(acc) == count_term(cn, c as nat),
            int_home(acc) == context_id(*ctx),
        decreases commit_bools.len() - c,
    {
        let one = int_num(ctx, 1);
        let zero = int_num(ctx, 0);
        let counted = mk_ite(&commit_bools[c].1, &one, &zero);
        let mut both: Vec<&Int<'ctx>> = Vec::new();
        both.push(&acc);
        both.push(&counted);
        assert(int_terms(both@) =~= seq![
            count_term(cn, c as nat),
            IntTerm::Ite(
                Box::new(BoolTerm::Const(cn[c as int])),
                Box::new(IntTerm::Num(1)),
                Box::new(IntTerm::Num(0)),
            ),
        ]);
        let next = mk_add(ctx, &both);
        acc = next;
        c = c + 1;
    }
    solver_maximize(solver, &acc);
}

} // verus!
