//! The grouping of variables by what their names begin or end with: plans
//! by commitment, occurrences by plan, occurrences by match key.

use crate::ident::{
    commit_prefix, decode_commit, decode_match_key, decode_plan, has_sep, match_key, plan_prefix,
};
use crate::vars::{find_entry, first_occurrences, flags, names};
use vstd::prelude::*;
use z3::ast::Bool;

verus! {

/// The strings of `v` as sequences of characters.
pub open spec fn strings(v: Seq<String>) -> Seq<Seq<char>> {
    Seq::new(v.len(), |x: int| v[x]@)
}

/// Groups as mathematical values: for each key its members.
pub open spec fn groups_view(gs: Seq<(String, Vec<String>)>) -> Seq<(Seq<char>, Seq<Seq<char>>)> {
    Seq::new(gs.len(), |g: int| (gs[g].0@, strings(gs[g].1@)))
}

/// Those of `items` whose key is `k`, in order; `keys` holds the key of
/// each item.
pub open spec fn select(keys: Seq<Seq<char>>, items: Seq<Seq<char>>, k: Seq<char>) -> Seq<
    Seq<char>,
>
    decreases items.len(),
{
    if items.len() == 0 || keys.len() != items.len() {
        Seq::empty()
    } else {
        let rest = select(keys.drop_last(), items.drop_last(), k);
        if keys.last() == k {
            rest.push(items.last())
        } else {
            rest
        }
    }
}

/// The groups of `items` by their keys: one group for each key, in the
/// order in which the keys come first, each with its items in order.
pub open spec fn groups(keys: Seq<Seq<char>>, items: Seq<Seq<char>>) -> Seq<
    (Seq<char>, Seq<Seq<char>>),
> {
    let ks = first_occurrences(keys);
    Seq::new(ks.len(), |g: int| (ks[g], select(keys, items, ks[g])))
}

/// Those of `items` whose flag is `want`, in order.
pub open spec fn pick(items: Seq<Seq<char>>, marks: Seq<bool>, want: bool) -> Seq<Seq<char>>
    decreases items.len(),
{
    if items.len() == 0 || marks.len() != items.len() {
        Seq::empty()
    } else {
        let rest = pick(items.drop_last(), marks.drop_last(), want);
        if marks.last() == want {
            rest.push(items.last())
        } else {
            rest
        }
    }
}

/// For each name the commitment's name in it.
pub open spec fn commit_prefixes(ns: Seq<Seq<char>>) -> Seq<Seq<char>> {
    Seq::new(ns.len(), |x: int| commit_prefix(ns[x]))
}

/// For each name the plan's name in it.
pub open spec fn plan_prefixes(ns: Seq<Seq<char>>) -> Seq<Seq<char>> {
    Seq::new(ns.len(), |x: int| plan_prefix(ns[x]))
}

/// For each name its match key.
pub open spec fn match_keys(ns: Seq<Seq<char>>) -> Seq<Seq<char>> {
    Seq::new(ns.len(), |x: int| match_key(ns[x]))
}

/// The members of the group with key `k`; none where there is no such group.
pub open spec fn members(gs: Seq<(Seq<char>, Seq<Seq<char>>)>, k: Seq<char>) -> Seq<Seq<char>>
    decreases gs.len(),
{
    if gs.len() == 0 {
        Seq::empty()
    } else if gs[0].0 == k {
        gs[0].1
    } else {
        members(gs.drop_first(), k)
    }
}

/// A value is in `first_occurrences(s)` exactly if it is in `s`.
pub proof fn lemma_first_occurrences_contains(s: Seq<Seq<char>>, v: Seq<char>)
    ensures
        first_occurrences(s).contains(v) <==> s.contains(v),
    decreases s.len(),
{
    if s.len() > 0 {
        let before = s.drop_last();
        let fb = first_occurrences(before);
        let fo = first_occurrences(s);
        lemma_first_occurrences_contains(before, v);
        if fo.contains(v) {
            let a = choose|a: int| 0 <= a < fo.len() && fo[a] == v;
            if a < fb.len() {
                assert(fb[a] == v);
                assert(fb.contains(v));
                assert(before.contains(v));
                let b = choose|b: int| 0 <= b < before.len() && before[b] == v;
                assert(s[b] == v);
            } else {
                assert(s[s.len() - 1] == v);
            }
            assert(s.contains(v));
        }
        if s.contains(v) {
            let b = choose|b: int| 0 <= b < s.len() && s[b] == v;
            if b < before.len() {
                assert(before[b] == v);
                assert(before.contains(v));
            }
            if fb.contains(v) {
                let a = choose|a: int| 0 <= a < fb.len() && fb[a] == v;
                assert(fo[a] == v);
            } else {
                assert(s.last() == v);
                assert(fo[fo.len() - 1] == v);
            }
            assert(fo.contains(v));
        }
    }
}

/// No value occurs twice in `first_occurrences(s)`, and it holds exactly
/// the values of `s`.
pub proof fn lemma_first_occurrences(s: Seq<Seq<char>>)
    ensures
        first_occurrences(s).no_duplicates(),
        first_occurrences(s).len() <= s.len(),
        forall|v: Seq<char>| #[trigger] first_occurrences(s).contains(v) <==> s.contains(v),
    decreases s.len(),
{
    assert forall|v: Seq<char>| #[trigger] first_occurrences(s).contains(v) <==> s.contains(
        v,
    ) by {
        lemma_first_occurrences_contains(s, v);
    }
    if s.len() > 0 {
        lemma_first_occurrences(s.drop_last());
    }
}

/// What `select` returns holds items only, no more than there are, and one
/// at least where the key is among the keys.
pub proof fn lemma_select(keys: Seq<Seq<char>>, items: Seq<Seq<char>>, k: Seq<char>)
    requires
        keys.len() == items.len(),
    ensures
        select(keys, items, k).len() <= items.len(),
        forall|a: int|
            0 <= a < select(keys, items, k).len() ==> items.contains(
                #[trigger] select(keys, items, k)[a],
            ),
        keys.contains(k) ==> select(keys, items, k).len() >= 1,
    decreases items.len(),
{
    if items.len() > 0 {
        let rest = select(keys.drop_last(), items.drop_last(), k);
        lemma_select(keys.drop_last(), items.drop_last(), k);
        let sel = select(keys, items, k);
        assert forall|a: int| 0 <= a < sel.len() implies items.contains(#[trigger] sel[a]) by {
            if a < rest.len() {
                assert(items.drop_last().contains(rest[a]));
                let b = choose|b: int|
                    0 <= b < items.drop_last().len() && items.drop_last()[b] == rest[a];
                assert(items[b] == sel[a]);
            } else {
                assert(items[items.len() - 1] == sel[a]);
            }
        }
        if keys.contains(k) && keys.last() != k {
            let b = choose|b: int| 0 <= b < keys.len() && keys[b] == k;
            assert(keys.drop_last()[b] == k);
        }
    }
}

/// The group of a key is what `select` returns for it.
pub proof fn lemma_members(keys: Seq<Seq<char>>, items: Seq<Seq<char>>, k: Seq<char>)
    requires
        keys.len() == items.len(),
    ensures
        members(groups(keys, items), k) == select(keys, items, k),
{
    let gs = groups(keys, items);
    lemma_first_occurrences(keys);
    lemma_members_from(keys, items, k, 0);
    assert(gs.skip(0) =~= gs);
}

proof fn lemma_members_from(keys: Seq<Seq<char>>, items: Seq<Seq<char>>, k: Seq<char>, from: int)
    requires
        keys.len() == items.len(),
        0 <= from <= groups(keys, items).len(),
        forall|g: int| 0 <= g < from ==> (#[trigger] groups(keys, items)[g]).0 != k,
    ensures
        members(groups(keys, items).skip(from), k) == select(keys, items, k),
    decreases groups(keys, items).len() - from,
{
    let gs = groups(keys, items);
    let rest = gs.skip(from);
    if from == gs.len() {
        lemma_first_occurrences(keys);
        if keys.contains(k) {
            assert(first_occurrences(keys).contains(k));
            let g = choose|g: int|
                0 <= g < first_occurrences(keys).len() && first_occurrences(keys)[g] == k;
            assert(gs[g].0 == k);
        }
        lemma_select_absent(keys, items, k);
    } else if rest[0].0 == k {
    } else {
        assert(rest.drop_first() =~= gs.skip(from + 1));
        lemma_members_from(keys, items, k, from + 1);
    }
}

/// Nothing is selected for a key that is not among the keys.
pub proof fn lemma_select_absent(keys: Seq<Seq<char>>, items: Seq<Seq<char>>, k: Seq<char>)
    requires
        keys.len() == items.len(),
        !keys.contains(k),
    ensures
        select(keys, items, k) == Seq::<Seq<char>>::empty(),
    decreases items.len(),
{
    if items.len() > 0 {
        assert(keys[keys.len() - 1] != k);
        assert forall|b: int| 0 <= b < keys.drop_last().len() implies keys.drop_last()[b] != k by {
            assert(keys[b] != k);
        }
        lemma_select_absent(keys.drop_last(), items.drop_last(), k);
    }
}

/// Selecting from two tables set one after the other selects from each.
pub proof fn lemma_select_concat(
    k1: Seq<Seq<char>>,
    i1: Seq<Seq<char>>,
    k2: Seq<Seq<char>>,
    i2: Seq<Seq<char>>,
    k: Seq<char>,
)
    requires
        k1.len() == i1.len(),
        k2.len() == i2.len(),
    ensures
        select(k1 + k2, i1 + i2, k) == select(k1, i1, k) + select(k2, i2, k),
    decreases i2.len(),
{
    if i2.len() == 0 {
        assert(k1 + k2 =~= k1);
        assert(i1 + i2 =~= i1);
        assert(select(k1, i1, k) + select(k2, i2, k) =~= select(k1, i1, k));
    } else {
        assert((k1 + k2).drop_last() =~= k1 + k2.drop_last());
        assert((i1 + i2).drop_last() =~= i1 + i2.drop_last());
        assert((k1 + k2).last() == k2.last());
        assert((i1 + i2).last() == i2.last());
        lemma_select_concat(k1, i1, k2.drop_last(), i2.drop_last(), k);
        let a = select(k1, i1, k);
        let b = select(k2.drop_last(), i2.drop_last(), k);
        if k2.last() == k {
            assert((a + b).push(i2.last()) =~= a + b.push(i2.last()));
        }
    }
}

/// Where every item has the same key, all of them are selected for that
/// key and none for another.
pub proof fn lemma_select_uniform(
    keys: Seq<Seq<char>>,
    items: Seq<Seq<char>>,
    c: Seq<char>,
    k: Seq<char>,
)
    requires
        keys.len() == items.len(),
        forall|x: int| 0 <= x < keys.len() ==> #[trigger] keys[x] == c,
    ensures
        select(keys, items, k) == if k == c {
            items
        } else {
            Seq::empty()
        },
    decreases items.len(),
{
    if items.len() > 0 {
        assert(keys.last() == keys[keys.len() - 1]);
        assert forall|x: int| 0 <= x < keys.drop_last().len() implies #[trigger] keys.drop_last()[x]
            == c by {
            assert(keys.drop_last()[x] == keys[x]);
        }
        lemma_select_uniform(keys.drop_last(), items.drop_last(), c, k);
        if k == c {
            assert(items.drop_last().push(items.last()) =~= items);
        }
    } else {
        assert(items =~= Seq::<Seq<char>>::empty());
    }
}

/// Picking from two tables set one after the other picks from each.
pub proof fn lemma_pick_concat(
    i1: Seq<Seq<char>>,
    m1: Seq<bool>,
    i2: Seq<Seq<char>>,
    m2: Seq<bool>,
    want: bool,
)
    requires
        i1.len() == m1.len(),
        i2.len() == m2.len(),
    ensures
        pick(i1 + i2, m1 + m2, want) == pick(i1, m1, want) + pick(i2, m2, want),
    decreases i2.len(),
{
    if i2.len() == 0 {
        assert(i1 + i2 =~= i1);
        assert(m1 + m2 =~= m1);
        assert(pick(i1, m1, want) + pick(i2, m2, want) =~= pick(i1, m1, want));
    } else {
        assert((i1 + i2).drop_last() =~= i1 + i2.drop_last());
        assert((m1 + m2).drop_last() =~= m1 + m2.drop_last());
        assert((i1 + i2).last() == i2.last());
        assert((m1 + m2).last() == m2.last());
        lemma_pick_concat(i1, m1, i2.drop_last(), m2.drop_last(), want);
        let a = pick(i1, m1, want);
        let b = pick(i2.drop_last(), m2.drop_last(), want);
        if m2.last() == want {
            assert((a + b).push(i2.last()) =~= a + b.push(i2.last()));
        }
    }
}

/// Every item is in the group of its key.
pub proof fn lemma_item_in_its_group(keys: Seq<Seq<char>>, items: Seq<Seq<char>>, x: int)
    requires
        keys.len() == items.len(),
        0 <= x < items.len(),
    ensures
        select(keys, items, keys[x]).contains(items[x]),
        first_occurrences(keys).contains(keys[x]),
    decreases items.len(),
{
    let sel = select(keys, items, keys[x]);
    if x == items.len() - 1 {
        assert(sel[sel.len() - 1] == items[x]);
    } else {
        let rest = select(keys.drop_last(), items.drop_last(), keys[x]);
        lemma_item_in_its_group(keys.drop_last(), items.drop_last(), x);
        let a = choose|a: int| 0 <= a < rest.len() && rest[a] == items.drop_last()[x];
        assert(sel[a] == items[x]);
    }
    assert(keys.contains(keys[x]));
    lemma_first_occurrences(keys);
}

/// Where no item occurs twice, an item is in no group but that of its
/// key.
pub proof fn lemma_item_in_one_group(
    keys: Seq<Seq<char>>,
    items: Seq<Seq<char>>,
    k: Seq<char>,
    x: int,
)
    requires
        keys.len() == items.len(),
        0 <= x < items.len(),
        items.no_duplicates(),
        select(keys, items, k).contains(items[x]),
    ensures
        k == keys[x],
    decreases items.len(),
{
    let sel = select(keys, items, k);
    let rest = select(keys.drop_last(), items.drop_last(), k);
    let a = choose|a: int| 0 <= a < sel.len() && sel[a] == items[x];
    lemma_select(keys.drop_last(), items.drop_last(), k);
    if a < rest.len() {
        assert(rest[a] == items[x]);
        assert(items.drop_last().contains(rest[a]));
        let y = choose|y: int| 0 <= y < items.drop_last().len() && items.drop_last()[y] == rest[a];
        assert(items[y] == items[x]);
        assert(x == y);
        assert(rest.contains(items.drop_last()[x]));
        lemma_item_in_one_group(keys.drop_last(), items.drop_last(), k, x);
    } else {
        assert(sel[a] == items.last());
        assert(items[items.len() - 1] == items[x]);
    }
}

/// An item is picked where its mark is the wanted one and, where no item
/// occurs twice, nowhere else.
pub proof fn lemma_pick_parts(items: Seq<Seq<char>>, marks: Seq<bool>, want: bool, x: int)
    requires
        items.len() == marks.len(),
        0 <= x < items.len(),
    ensures
        marks[x] == want ==> pick(items, marks, want).contains(items[x]),
        items.no_duplicates() && pick(items, marks, want).contains(items[x]) ==> marks[x] == want,
        pick(items, marks, want).len() <= items.len(),
        forall|a: int|
            0 <= a < pick(items, marks, want).len() ==> items.contains(
                #[trigger] pick(items, marks, want)[a],
            ),
        items.no_duplicates() ==> pick(items, marks, want).no_duplicates(),
    decreases items.len(),
{
    let all = pick(items, marks, want);
    let rest = pick(items.drop_last(), marks.drop_last(), want);
    let last = items.len() - 1;
    if x < last {
        lemma_pick_parts(items.drop_last(), marks.drop_last(), want, x);
    } else if last > 0 {
        lemma_pick_parts(items.drop_last(), marks.drop_last(), want, 0);
    }
    assert forall|a: int| 0 <= a < all.len() implies items.contains(#[trigger] all[a]) by {
        if a < rest.len() {
            assert(items.drop_last().contains(rest[a]));
            let b = choose|b: int|
                0 <= b < items.drop_last().len() && items.drop_last()[b] == rest[a];
            assert(items[b] == all[a]);
        } else {
            assert(items[last] == all[a]);
        }
    }
    if marks[x] == want {
        if x == last {
            assert(all[all.len() - 1] == items[x]);
        } else {
            let a = choose|a: int| 0 <= a < rest.len() && rest[a] == items.drop_last()[x];
            assert(all[a] == items[x]);
        }
    }
    if items.no_duplicates() {
        assert forall|a: int| 0 <= a < rest.len() implies rest[a] != items[last] by {
            if last > 0 {
                assert(items.drop_last().contains(rest[a]));
                let b = choose|b: int|
                    0 <= b < items.drop_last().len() && items.drop_last()[b] == rest[a];
                assert(items[b] == rest[a]);
            }
        }
        if all.contains(items[x]) {
            let a = choose|a: int| 0 <= a < all.len() && all[a] == items[x];
            if a < rest.len() {
                assert(rest[a] == items[x]);
                assert(x != last);
                assert(rest.contains(items.drop_last()[x]));
            } else {
                assert(all[a] == items[last]);
                assert(x == last);
            }
        }
        assert forall|a: int, b: int| 0 <= a < all.len() && 0 <= b < all.len() && a != b implies all[a]
            != all[b] by {
            if a < rest.len() && b < rest.len() {
                assert(rest[a] != rest[b]);
            }
        }
    }
}

/// Groups `items` by `keys`, which holds the key of each item.
pub fn group_keyed(keys: &Vec<String>, items: &Vec<String>) -> (r: Vec<(String, Vec<String>)>)
    requires
        keys.len() == items.len(),
    ensures
        groups_view(r@) == groups(strings(keys@), strings(items@)),
{
    let ghost ks = strings(keys@);
    let ghost its = strings(items@);
    let mut out: Vec<(String, Vec<String>)> = Vec::new();
    let mut x: usize = 0;
    assert(groups_view(out@) =~= groups(ks.take(0), its.take(0)));
    while x < items.len()
        invariant
            x <= items.len(),
            keys.len() == items.len(),
            ks == strings(keys@),
            its == strings(items@),
            groups_view(out@) == groups(ks.take(x as int), its.take(x as int)),
        decreases items.len() - x,
    {
        let key = keys[x].clone();
        let item = items[x].clone();
        let ghost old_keys = ks.take(x as int);
        let ghost old_items = its.take(x as int);
        let ghost new_keys = ks.take(x + 1);
        let ghost new_items = its.take(x + 1);
        let ghost before = groups_view(out@);
        proof {
            assert(new_keys.drop_last() =~= old_keys);
            assert(new_items.drop_last() =~= old_items);
            assert(new_keys.last() == key@);
            assert(new_items.last() == item@);
            lemma_first_occurrences(old_keys);
            assert(before == groups(old_keys, old_items));
            assert(before.len() == out.len());
            assert(before.len() == first_occurrences(old_keys).len());
            assert forall|g: int| 0 <= g < out.len() implies names(out@)[g]
                == first_occurrences(old_keys)[g] by {
                assert(before[g].0 == out[g].0@);
                assert(groups(old_keys, old_items)[g].0 == first_occurrences(old_keys)[g]);
            }
            assert(names(out@) =~= first_occurrences(old_keys));
        }
        match find_entry(&out, &key) {
            Some(g) => {
                out[g].1.push(item);
                proof {
                    let after = groups_view(out@);
                    let want = groups(new_keys, new_items);
                    let fo = first_occurrences(old_keys);
                    assert(fo[g as int] == key@);
                    assert(fo.contains(key@));
                    assert(first_occurrences(new_keys) == fo);
                    assert(after.len() == want.len());
                    assert forall|h: int| 0 <= h < after.len() implies after[h] == want[h] by {
                        assert(before[h] == (fo[h], select(old_keys, old_items, fo[h])));
                        if h == g {
                            assert(after[h].1 =~= before[h].1.push(item@));
                        } else {
                            assert(fo[h] != fo[g as int]);
                            assert(after[h].1 =~= before[h].1);
                            assert(after[h].0 == before[h].0);
                        }
                    }
                    assert(after =~= want);
                }
            },
            None => {
                let ghost key_view = key@;
                let mut fresh: Vec<String> = Vec::new();
                fresh.push(item);
                out.push((key, fresh));
                proof {
                    let after = groups_view(out@);
                    let want = groups(new_keys, new_items);
                    let fo = first_occurrences(old_keys);
                    assert(!fo.contains(key_view));
                    assert(first_occurrences(new_keys) == fo.push(key_view));
                    assert(!old_keys.contains(key_view));
                    lemma_select_absent(old_keys, old_items, key_view);
                    assert(after.len() == want.len());
                    assert forall|h: int| 0 <= h < after.len() implies after[h] == want[h] by {
                        if h < fo.len() {
                            assert(before[h] == (fo[h], select(old_keys, old_items, fo[h])));
                            assert(fo.contains(fo[h]));
                            assert(fo[h] != key_view);
                            assert(after[h].1 =~= before[h].1);
                            assert(after[h].0 == before[h].0);
                        } else {
                            assert(after[h].1 =~= seq![item@]);
                            assert(select(new_keys, new_items, key_view) =~= seq![item@]);
                        }
                    }
                    assert(after =~= want);
                }
            },
        }
        x = x + 1;
    }
    assert(ks.take(x as int) =~= ks);
    assert(its.take(x as int) =~= its);
    out
}

/// The plans of each commitment: for each commitment's name that a plan's
/// name begins with, the names of the plans that begin with it.
pub fn group_allofs<'ctx>(allof_bools: &Vec<(String, Bool<'ctx>)>) -> (r: Vec<
    (String, Vec<String>),
>)
    ensures
        groups_view(r@) == groups(commit_prefixes(names(allof_bools@)), names(allof_bools@)),
{
    let mut keys: Vec<String> = Vec::new();
    let mut items: Vec<String> = Vec::new();
    let mut x: usize = 0;
    while x < allof_bools.len()
        invariant
            x <= allof_bools.len(),
            keys.len() == x,
            items.len() == x,
            forall|y: int| 0 <= y < x ==> (#[trigger] items[y])@ == allof_bools[y].0@,
            forall|y: int| 0 <= y < x ==> (#[trigger] keys[y])@ == commit_prefix(allof_bools[y].0@),
        decreases allof_bools.len() - x,
    {
        let name = &allof_bools[x].0;
        keys.push(decode_commit(name.as_str()));
        items.push(name.clone());
        x = x + 1;
    }
    assert(strings(items@) =~= names(allof_bools@));
    assert(strings(keys@) =~= commit_prefixes(names(allof_bools@)));
    group_keyed(&keys, &items)
}

/// The occurrences of each plan: for each plan's name that an occurrence's
/// name begins with, the names of the occurrences that begin with it.
pub fn group_s_calls<'ctx>(s_call_bools: &Vec<(String, (Bool<'ctx>, bool))>) -> (r: Vec<
    (String, Vec<String>),
>)
    requires
        forall|x: int| 0 <= x < s_call_bools.len() ==> has_sep((#[trigger] s_call_bools[x]).0@),
    ensures
        groups_view(r@) == groups(plan_prefixes(names(s_call_bools@)), names(s_call_bools@)),
{
    let mut keys: Vec<String> = Vec::new();
    let mut items: Vec<String> = Vec::new();
    let mut x: usize = 0;
    while x < s_call_bools.len()
        invariant
            x <= s_call_bools.len(),
            keys.len() == x,
            items.len() == x,
            forall|y: int| 0 <= y < x ==> (#[trigger] items[y])@ == s_call_bools[y].0@,
            forall|y: int| 0 <= y < x ==> (#[trigger] keys[y])@ == plan_prefix(s_call_bools[y].0@),
        decreases s_call_bools.len() - x,
    {
        let name = &s_call_bools[x].0;
        keys.push(decode_plan(name.as_str()));
        items.push(name.clone());
        x = x + 1;
    }
    assert(strings(items@) =~= names(s_call_bools@));
    assert(strings(keys@) =~= plan_prefixes(names(s_call_bools@)));
    group_keyed(&keys, &items)
}

/// The demands, or the supplies, of each service call, pooled over all
/// plans: for each match key the names of the occurrences that have it and
/// whose flag is `requests`.
pub fn group_by_match_key<'ctx>(
    s_call_bools: &Vec<(String, (Bool<'ctx>, bool))>,
    requests: bool,
) -> (r: Vec<(String, Vec<String>)>)
    requires
        forall|x: int| 0 <= x < s_call_bools.len() ==> has_sep((#[trigger] s_call_bools[x]).0@),
    ensures
        groups_view(r@) == groups(
            match_keys(pick(names(s_call_bools@), flags(s_call_bools@), requests)),
            pick(names(s_call_bools@), flags(s_call_bools@), requests),
        ),
{
    let ghost ns = names(s_call_bools@);
    let ghost fs = flags(s_call_bools@);
    let mut keys: Vec<String> = Vec::new();
    let mut items: Vec<String> = Vec::new();
    let mut x: usize = 0;
    assert(strings(items@) =~= pick(ns.take(0), fs.take(0), requests));
    while x < s_call_bools.len()
        invariant
            x <= s_call_bools.len(),
            ns == names(s_call_bools@),
            fs == flags(s_call_bools@),
            keys.len() == items.len(),
            strings(items@) == pick(ns.take(x as int), fs.take(x as int), requests),
            forall|y: int| 0 <= y < keys.len() ==> (#[trigger] keys[y])@ == match_key(items[y]@),
        decreases s_call_bools.len() - x,
    {
        let name = &s_call_bools[x].0;
        proof {
            assert(ns.take(x + 1).drop_last() =~= ns.take(x as int));
            assert(fs.take(x + 1).drop_last() =~= fs.take(x as int));
            assert(ns.take(x + 1).last() == name@);
            assert(fs.take(x + 1).last() == s_call_bools[x as int].1.1);
        }
        if s_call_bools[x].1.1 == requests {
            let ghost before = strings(items@);
            keys.push(decode_match_key(name.as_str()));
            items.push(name.clone());
            assert(strings(items@) =~= before.push(name@));
        }
        x = x + 1;
    }
    assert(ns.take(x as int) =~= ns);
    assert(fs.take(x as int) =~= fs);
    assert(strings(keys@) =~= match_keys(strings(items@)));
    group_keyed(&keys, &items)
}

} // verus!
