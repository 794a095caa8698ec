//! The constraint language that the library speaks to the solver, and what
//! its terms mean.

use vstd::prelude::*;

verus! {

/// A term of boolean sort.
pub enum BoolTerm {
    /// The boolean constant of that name.
    Const(Seq<char>),
    Not(Box<BoolTerm>),
    /// All of the terms.
    And(Seq<BoolTerm>),
    /// Some of the terms.
    Or(Seq<BoolTerm>),
    Implies(Box<BoolTerm>, Box<BoolTerm>),
    /// The coefficients of the terms that hold add up to the target.
    PbEq(Seq<BoolTerm>, Seq<int>, int),
    /// The coefficients of the terms that hold add up to the target or more.
    PbGe(Seq<BoolTerm>, Seq<int>, int),
    /// The first integer is at most the second.
    Le(Box<IntTerm>, Box<IntTerm>),
}

/// A term of integer sort.
pub enum IntTerm {
    /// The integer constant of that name.
    Const(Seq<char>),
    Num(int),
    Add(Seq<IntTerm>),
    Mul(Seq<IntTerm>),
    /// The second term where the first holds, else the third.
    Ite(Box<BoolTerm>, Box<IntTerm>, Box<IntTerm>),
}

/// An assignment of values to the named constants.
pub struct Interp {
    pub truth: spec_fn(Seq<char>) -> bool,
    pub number: spec_fn(Seq<char>) -> int,
}

/// Whether the boolean term `t` holds under `m`.
pub open spec fn holds(t: BoolTerm, m: Interp) -> bool
    decreases t, 0nat,
{
    match t {
        BoolTerm::Const(name) => (m.truth)(name),
        BoolTerm::Not(a) => !holds(*a, m),
        BoolTerm::And(xs) => forall|i: int| 0 <= i < xs.len() ==> holds(#[trigger] xs[i], m),
        BoolTerm::Or(xs) => exists|i: int| 0 <= i < xs.len() && holds(#[trigger] xs[i], m),
        BoolTerm::Implies(a, b) => holds(*a, m) ==> holds(*b, m),
        BoolTerm::PbEq(xs, cs, k) => weight(xs, cs, m, xs.len()) == k,
        BoolTerm::PbGe(xs, cs, k) => weight(xs, cs, m, xs.len()) >= k,
        BoolTerm::Le(a, b) => value(*a, m) <= value(*b, m),
    }
}

/// The sum of the coefficients of those of the first `n` terms that hold.
pub open spec fn weight(xs: Seq<BoolTerm>, cs: Seq<int>, m: Interp, n: nat) -> int
    decreases xs, n,
{
    if n == 0 || n > xs.len() {
        0
    } else {
        weight(xs, cs, m, (n - 1) as nat) + if holds(xs[n - 1], m) {
            cs[n - 1]
        } else {
            0
        }
    }
}

/// The value of the integer term `t` under `m`.
pub open spec fn value(t: IntTerm, m: Interp) -> int
    decreases t, 0nat,
{
    match t {
        IntTerm::Const(name) => (m.number)(name),
        IntTerm::Num(v) => v,
        IntTerm::Add(xs) => sum(xs, m, xs.len()),
        IntTerm::Mul(xs) => product(xs, m, xs.len()),
        IntTerm::Ite(c, a, b) => if holds(*c, m) {
            value(*a, m)
        } else {
            value(*b, m)
        },
    }
}

/// The sum of the values of the first `n` terms.
pub open spec fn sum(xs: Seq<IntTerm>, m: Interp, n: nat) -> int
    decreases xs, n,
{
    if n == 0 || n > xs.len() {
        0
    } else {
        sum(xs, m, (n - 1) as nat) + value(xs[n - 1], m)
    }
}

/// The product of the values of the first `n` terms.
pub open spec fn product(xs: Seq<IntTerm>, m: Interp, n: nat) -> int
    decreases xs, n,
{
    if n == 0 || n > xs.len() {
        1
    } else {
        product(xs, m, (n - 1) as nat) * value(xs[n - 1], m)
    }
}

/// Whether every term of `ts` holds under `m`.
pub open spec fn all_hold(ts: Seq<BoolTerm>, m: Interp) -> bool {
    forall|i: int| 0 <= i < ts.len() ==> holds(#[trigger] ts[i], m)
}

/// The boolean constants of the given names.
pub open spec fn consts(names: Seq<Seq<char>>) -> Seq<BoolTerm> {
    Seq::new(names.len(), |i: int| BoolTerm::Const(names[i]))
}

/// As many ones as `n`.
pub open spec fn ones(n: nat) -> Seq<int> {
    Seq::new(n, |i: int| 1int)
}

/// Exactly one of `xs` holds.
pub open spec fn exactly_one(xs: Seq<BoolTerm>) -> BoolTerm {
    if xs.len() == 1 {
        xs[0]
    } else {
        BoolTerm::PbEq(xs, ones(xs.len()), 1)
    }
}

/// None of `xs` holds.
pub open spec fn none_of(xs: Seq<BoolTerm>) -> BoolTerm {
    if xs.len() == 1 {
        BoolTerm::Not(Box::new(xs[0]))
    } else {
        BoolTerm::PbEq(xs, ones(xs.len()), 0)
    }
}

/// All of `xs` hold.
pub open spec fn all_of(xs: Seq<BoolTerm>) -> BoolTerm {
    if xs.len() == 1 {
        xs[0]
    } else {
        BoolTerm::And(xs)
    }
}

/// Some of `xs` holds, as a disjunction.
pub open spec fn any_of(xs: Seq<BoolTerm>) -> BoolTerm {
    if xs.len() == 1 {
        xs[0]
    } else {
        BoolTerm::Or(xs)
    }
}

/// Some of `xs` holds, as a cardinality constraint.
pub open spec fn at_least_one(xs: Seq<BoolTerm>) -> BoolTerm {
    if xs.len() == 1 {
        xs[0]
    } else {
        BoolTerm::PbGe(xs, ones(xs.len()), 1)
    }
}

/// How many of the first `n` terms hold.
pub open spec fn count_holding(xs: Seq<BoolTerm>, m: Interp, n: nat) -> nat
    decreases n,
{
    if n == 0 || n > xs.len() {
        0
    } else {
        count_holding(xs, m, (n - 1) as nat) + if holds(xs[n - 1], m) {
            1nat
        } else {
            0nat
        }
    }
}

/// With all coefficients one, the weight is the number of terms that hold.
pub proof fn lemma_weight_counts(xs: Seq<BoolTerm>, m: Interp, n: nat)
    requires
        n <= xs.len(),
    ensures
        weight(xs, ones(xs.len()), m, n) == count_holding(xs, m, n),
    decreases n,
{
    if n > 0 {
        lemma_weight_counts(xs, m, (n - 1) as nat);
    }
}

/// The count is zero exactly if none of the terms holds, and never more
/// than the number of terms.
pub proof fn lemma_count_bounds(xs: Seq<BoolTerm>, m: Interp, n: nat)
    requires
        n <= xs.len(),
    ensures
        count_holding(xs, m, n) <= n,
        count_holding(xs, m, n) == 0 <==> forall|i: int| 0 <= i < n ==> !holds(#[trigger] xs[i], m),
        count_holding(xs, m, n) == n <==> forall|i: int| 0 <= i < n ==> holds(#[trigger] xs[i], m),
    decreases n,
{
    if n > 0 {
        lemma_count_bounds(xs, m, (n - 1) as nat);
    }
}

/// A conjunction holds exactly if each of its terms does, a disjunction
/// exactly if one of them does.
pub proof fn lemma_connectives(xs: Seq<BoolTerm>, m: Interp)
    ensures
        holds(BoolTerm::And(xs), m) <==> forall|i: int|
            0 <= i < xs.len() ==> holds(#[trigger] xs[i], m),
        holds(BoolTerm::Or(xs), m) <==> exists|i: int|
            0 <= i < xs.len() && holds(#[trigger] xs[i], m),
{
    assert(BoolTerm::And(xs)->And_0 == xs);
    assert(BoolTerm::Or(xs)->Or_0 == xs);
}

/// What the five shapes of group constraint mean, whatever the size of the
/// group.
pub proof fn lemma_group_terms(xs: Seq<BoolTerm>, m: Interp)
    requires
        xs.len() >= 1,
    ensures
        holds(exactly_one(xs), m) <==> count_holding(xs, m, xs.len()) == 1,
        holds(none_of(xs), m) <==> count_holding(xs, m, xs.len()) == 0,
        holds(all_of(xs), m) <==> count_holding(xs, m, xs.len()) == xs.len(),
        holds(any_of(xs), m) <==> count_holding(xs, m, xs.len()) >= 1,
        holds(at_least_one(xs), m) <==> count_holding(xs, m, xs.len()) >= 1,
{
    lemma_weight_counts(xs, m, xs.len());
    lemma_count_bounds(xs, m, xs.len());
    lemma_connectives(xs, m);
    if xs.len() == 1 {
        assert(count_holding(xs, m, 0) == 0);
        assert(count_holding(xs, m, 1) == if holds(xs[0], m) {
            1nat
        } else {
            0nat
        });
    }
}

/// The truth values of the constants of the given names.
pub open spec fn truths(names: Seq<Seq<char>>, m: Interp) -> Seq<bool> {
    Seq::new(names.len(), |x: int| (m.truth)(names[x]))
}

/// How many of the first `n` values are true.
pub open spec fn count_true(s: Seq<bool>, n: nat) -> nat
    decreases n,
{
    if n == 0 || n > s.len() {
        0
    } else {
        count_true(s, (n - 1) as nat) + if s[n - 1] {
            1nat
        } else {
            0nat
        }
    }
}

/// As many constants hold as have the value true.
pub proof fn lemma_count_consts(names: Seq<Seq<char>>, m: Interp, n: nat)
    requires
        n <= names.len(),
    ensures
        count_holding(consts(names), m, n) == count_true(truths(names, m), n),
    decreases n,
{
    if n > 0 {
        lemma_count_consts(names, m, (n - 1) as nat);
    }
}

/// The count of a prefix does not depend on what follows it.
pub proof fn lemma_count_true_prefix(a: Seq<bool>, b: Seq<bool>, n: nat)
    requires
        n <= a.len(),
        n <= b.len(),
        forall|x: int| 0 <= x < n ==> a[x] == b[x],
    ensures
        count_true(a, n) == count_true(b, n),
    decreases n,
{
    if n > 0 {
        lemma_count_true_prefix(a, b, (n - 1) as nat);
    }
}

/// The count over two sequences set one after the other is the sum of
/// their counts.
pub proof fn lemma_count_true_concat(a: Seq<bool>, b: Seq<bool>, n: nat)
    requires
        n <= b.len(),
    ensures
        count_true(a + b, a.len() + n) == count_true(a, a.len()) + count_true(b, n),
    decreases n,
{
    if n == 0 {
        lemma_count_true_prefix(a + b, a, a.len());
    } else {
        lemma_count_true_concat(a, b, (n - 1) as nat);
        assert((a + b)[a.len() + n - 1] == b[n - 1]);
    }
}

/// The count is zero exactly if no value is true, the length exactly if
/// all are, and one at least exactly if one is.
pub proof fn lemma_count_true_bounds(s: Seq<bool>, n: nat)
    requires
        n <= s.len(),
    ensures
        count_true(s, n) <= n,
        count_true(s, n) == 0 <==> forall|i: int| 0 <= i < n ==> !#[trigger] s[i],
        count_true(s, n) == n <==> forall|i: int| 0 <= i < n ==> #[trigger] s[i],
        count_true(s, n) >= 1 <==> exists|i: int| 0 <= i < n && #[trigger] s[i],
    decreases n,
{
    if n > 0 {
        lemma_count_true_bounds(s, (n - 1) as nat);
        if s[n - 1] {
        } else if count_true(s, n) >= 1 {
            let i = choose|i: int| 0 <= i < n - 1 && #[trigger] s[i];
            assert(s[i]);
        }
    }
}

/// All terms of two lists hold exactly if all of each do.
pub proof fn lemma_all_hold_concat(a: Seq<BoolTerm>, b: Seq<BoolTerm>, m: Interp)
    ensures
        all_hold(a + b, m) <==> all_hold(a, m) && all_hold(b, m),
{
    if all_hold(a + b, m) {
        assert forall|i: int| 0 <= i < a.len() implies holds(#[trigger] a[i], m) by {
            assert((a + b)[i] == a[i]);
        }
        assert forall|i: int| 0 <= i < b.len() implies holds(#[trigger] b[i], m) by {
            assert((a + b)[a.len() + i] == b[i]);
        }
    }
    if all_hold(a, m) && all_hold(b, m) {
        assert forall|i: int| 0 <= i < (a + b).len() implies holds(#[trigger] (a + b)[i], m) by {
            if i < a.len() {
                assert((a + b)[i] == a[i]);
            } else {
                assert((a + b)[i] == b[i - a.len()]);
            }
        }
    }
}

} // verus!
