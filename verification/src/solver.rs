//! The solver: the types and functions of the `z3` crate that the library
//! uses, with what is taken on trust about each of them.
//!
//! Nothing in this file is proved. A term of the solver is told apart by the
//! term that it stands for and by the context that it lives in; the solver
//! itself by the terms that it was given.

use crate::term::{all_hold, BoolTerm, Interp, IntTerm};
use vstd::prelude::*;
use z3::{Config, Context, Model, Optimize, SatResult};
use z3::ast::{Bool, Int};

verus! {

#[verifier::external_type_specification]
#[verifier::external_body]
pub struct ExConfig(Config);

#[verifier::external_type_specification]
#[verifier::external_body]
pub struct ExContext(Context);

#[verifier::external_type_specification]
#[verifier::external_body]
pub struct ExBool<'ctx>(Bool<'ctx>);

#[verifier::external_type_specification]
#[verifier::external_body]
pub struct ExInt<'ctx>(Int<'ctx>);

#[verifier::external_type_specification]
#[verifier::external_body]
pub struct ExOptimize<'ctx>(Optimize<'ctx>);

#[verifier::external_type_specification]
#[verifier::external_body]
pub struct ExModel<'ctx>(Model<'ctx>);

/// What the solver says of the constraints that it was given.
#[derive(Clone, Copy, Debug, PartialEq, Eq, Structural)]
pub enum Verdict {
    /// They can be met.
    Sat,
    /// They cannot be met.
    Unsat,
    /// The solver gave up.
    Unknown,
}

/// Which context `c` is.
pub uninterp spec fn context_id(c: Context) -> int;

/// The context that the boolean term `a` lives in.
pub uninterp spec fn bool_home(a: Bool) -> int;

/// The context that the integer term `a` lives in.
pub uninterp spec fn int_home(a: Int) -> int;

/// The context that the solver `s` lives in.
pub uninterp spec fn solver_home(s: Optimize) -> int;

/// The context that the model `m` lives in.
pub uninterp spec fn model_home(m: Model) -> int;

/// The term that `a` stands for.
pub uninterp spec fn bool_term(a: Bool) -> BoolTerm;

/// The term that `a` stands for.
pub uninterp spec fn int_term(a: Int) -> IntTerm;

/// The constraints that `s` was given, in the order in which they came.
pub uninterp spec fn asserted(s: Optimize) -> Seq<BoolTerm>;

/// The terms that `s` was asked to make as large as it can.
pub uninterp spec fn objectives(s: Optimize) -> Seq<IntTerm>;

/// The term for the value that the model `m` gives the boolean term `t`,
/// if it gives one.
pub uninterp spec fn evaluated_bool(m: Model, t: BoolTerm) -> Option<BoolTerm>;

/// The term for the value that the model `m` gives the integer term `t`,
/// if it gives one.
pub uninterp spec fn evaluated_int(m: Model, t: IntTerm) -> Option<IntTerm>;

/// The truth value that the term `t` is, if it is one.
pub uninterp spec fn literal_of(t: BoolTerm) -> Option<bool>;

/// The number that the term `t` is, if it is a numeral that fits 64 bits
/// with a sign.
pub uninterp spec fn numeral_of(t: IntTerm) -> Option<i64>;

/// The truth value that the model `m` gives the boolean term `t`, where it
/// gives one that can be read.
pub open spec fn truth_in(m: Model, t: BoolTerm) -> Option<bool> {
    match evaluated_bool(m, t) {
        Some(v) => literal_of(v),
        None => None,
    }
}

/// The number that the model `m` gives the integer term `t`, where it
/// gives one that can be read.
pub open spec fn number_in(m: Model, t: IntTerm) -> Option<i64> {
    match evaluated_int(m, t) {
        Some(v) => numeral_of(v),
        None => None,
    }
}

/// The terms that `xs` stand for.
pub open spec fn bool_terms(xs: Seq<&Bool>) -> Seq<BoolTerm> {
    Seq::new(xs.len(), |i: int| bool_term(*xs[i]))
}

/// The terms that `xs` stand for.
pub open spec fn int_terms(xs: Seq<&Int>) -> Seq<IntTerm> {
    Seq::new(xs.len(), |i: int| int_term(*xs[i]))
}

/// The coefficients `cs` as integers.
pub open spec fn coefficients(cs: Seq<i32>) -> Seq<int> {
    Seq::new(cs.len(), |i: int| cs[i] as int)
}

/// All of `xs` live in the context `home`.
pub open spec fn bools_at(xs: Seq<&Bool>, home: int) -> bool {
    forall|i: int| 0 <= i < xs.len() ==> bool_home(*#[trigger] xs[i]) == home
}

/// All of `xs` live in the context `home`.
pub open spec fn ints_at(xs: Seq<&Int>, home: int) -> bool {
    forall|i: int| 0 <= i < xs.len() ==> int_home(*#[trigger] xs[i]) == home
}

/// `z3::Config::new`: a configuration with the solver's defaults.
#[verifier::external_body]
pub(crate) fn new_config() -> Config {
    Config::new()
}

/// `z3::Context::new`: a context of its own, made from a configuration.
#[verifier::external_body]
pub(crate) fn new_context(cfg: &Config) -> Context {
    Context::new(cfg)
}

/// `z3::ast::Bool::new_const`: the boolean constant of the given name, in
/// the given context. The name goes through a C string, so it holds no NUL.
#[verifier::external_body]
pub(crate) fn bool_const<'ctx>(ctx: &'ctx Context, name: &str) -> (r: Bool<'ctx>)
    requires
        forall|k: int| 0 <= k < name@.len() ==> #[trigger] name@[k] != '\0',
    ensures
        bool_term(r) == BoolTerm::Const(name@),
        bool_home(r) == context_id(*ctx),
{
    Bool::new_const(ctx, name)
}

/// `z3::ast::Int::new_const`: the integer constant of the given name, in
/// the given context. The name goes through a C string, so it holds no NUL.
#[verifier::external_body]
pub(crate) fn int_const<'ctx>(ctx: &'ctx Context, name: &str) -> (r: Int<'ctx>)
    requires
        forall|k: int| 0 <= k < name@.len() ==> #[trigger] name@[k] != '\0',
    ensures
        int_term(r) == IntTerm::Const(name@),
        int_home(r) == context_id(*ctx),
{
    Int::new_const(ctx, name)
}

/// `z3::ast::Int::from_i64`: the numeral for `v`.
#[verifier::external_body]
pub(crate) fn int_num<'ctx>(ctx: &'ctx Context, v: i64) -> (r: Int<'ctx>)
    ensures
        int_term(r) == IntTerm::Num(v as int),
        int_home(r) == context_id(*ctx),
{
    Int::from_i64(ctx, v)
}

/// `Clone::clone` of `z3::ast::Bool`: another handle on the same term.
#[verifier::external_body]
pub(crate) fn bool_clone<'ctx>(a: &Bool<'ctx>) -> (r: Bool<'ctx>)
    ensures
        bool_term(r) == bool_term(*a),
        bool_home(r) == bool_home(*a),
{
    a.clone()
}

/// `z3::ast::Bool::not`: the negation of `a`.
#[verifier::external_body]
pub(crate) fn mk_not<'ctx>(a: &Bool<'ctx>) -> (r: Bool<'ctx>)
    ensures
        bool_term(r) == BoolTerm::Not(Box::new(bool_term(*a))),
        bool_home(r) == bool_home(*a),
{
    a.not()
}

/// `z3::ast::Bool::implies`: `a` implies `b`. It panics unless both live in
/// one context.
#[verifier::external_body]
pub(crate) fn mk_implies<'ctx>(a: &Bool<'ctx>, b: &Bool<'ctx>) -> (r: Bool<'ctx>)
    requires
        bool_home(*a) == bool_home(*b),
    ensures
        bool_term(r) == BoolTerm::Implies(Box::new(bool_term(*a)), Box::new(bool_term(*b))),
        bool_home(r) == bool_home(*a),
{
    a.implies(b)
}

/// `z3::ast::Bool::and`: the conjunction of `xs`. It panics unless all live
/// in the given context and their number fits 32 bits; the library gives it
/// one term at least.
#[verifier::external_body]
pub(crate) fn mk_and<'ctx>(ctx: &'ctx Context, xs: &Vec<&Bool<'ctx>>) -> (r: Bool<'ctx>)
    requires
        1 <= xs.len() <= 0xffff_ffff,
        bools_at(xs@, context_id(*ctx)),
    ensures
        bool_term(r) == BoolTerm::And(bool_terms(xs@)),
        bool_home(r) == context_id(*ctx),
{
    Bool::and(ctx, xs.as_slice())
}

/// `z3::ast::Bool::or`: the disjunction of `xs`. It panics unless all live
/// in the given context and their number fits 32 bits; the library gives it
/// one term at least.
#[verifier::external_body]
pub(crate) fn mk_or<'ctx>(ctx: &'ctx Context, xs: &Vec<&Bool<'ctx>>) -> (r: Bool<'ctx>)
    requires
        1 <= xs.len() <= 0xffff_ffff,
        bools_at(xs@, context_id(*ctx)),
    ensures
        bool_term(r) == BoolTerm::Or(bool_terms(xs@)),
        bool_home(r) == context_id(*ctx),
{
    Bool::or(ctx, xs.as_slice())
}

/// `z3::ast::Bool::pb_eq`: the coefficients of those of `xs` that hold add
/// up to `k`. It panics if there are more than fit 32 bits; the terms are
/// to live in the given context, one coefficient for each.
#[verifier::external_body]
pub(crate) fn mk_pb_eq<'ctx>(
    ctx: &'ctx Context,
    xs: &Vec<&Bool<'ctx>>,
    cs: &Vec<i32>,
    k: i32,
) -> (r: Bool<'ctx>)
    requires
        1 <= xs.len() <= 0xffff_ffff,
        xs.len() == cs.len(),
        bools_at(xs@, context_id(*ctx)),
    ensures
        bool_term(r) == BoolTerm::PbEq(bool_terms(xs@), coefficients(cs@), k as int),
        bool_home(r) == context_id(*ctx),
{
    let pairs: Vec<(&Bool<'ctx>, i32)> = xs.iter().copied().zip(cs.iter().copied()).collect();
    Bool::pb_eq(ctx, &pairs, k)
}

/// `z3::ast::Bool::pb_ge`: the coefficients of those of `xs` that hold add
/// up to `k` or more. It panics if there are more than fit 32 bits; the
/// terms are to live in the given context, one coefficient for each.
#[verifier::external_body]
pub(crate) fn mk_pb_ge<'ctx>(
    ctx: &'ctx Context,
    xs: &Vec<&Bool<'ctx>>,
    cs: &Vec<i32>,
    k: i32,
) -> (r: Bool<'ctx>)
    requires
        1 <= xs.len() <= 0xffff_ffff,
        xs.len() == cs.len(),
        bools_at(xs@, context_id(*ctx)),
    ensures
        bool_term(r) == BoolTerm::PbGe(bool_terms(xs@), coefficients(cs@), k as int),
        bool_home(r) == context_id(*ctx),
{
    let pairs: Vec<(&Bool<'ctx>, i32)> = xs.iter().copied().zip(cs.iter().copied()).collect();
    Bool::pb_ge(ctx, &pairs, k)
}

/// `z3::ast::Bool::ite` at integers: `a` where `c` holds, else `b`. All
/// three are to live in one context.
#[verifier::external_body]
pub(crate) fn mk_ite<'ctx>(c: &Bool<'ctx>, a: &Int<'ctx>, b: &Int<'ctx>) -> (r: Int<'ctx>)
    requires
        bool_home(*c) == int_home(*a),
        bool_home(*c) == int_home(*b),
    ensures
        int_term(r) == IntTerm::Ite(
            Box::new(bool_term(*c)),
            Box::new(int_term(*a)),
            Box::new(int_term(*b)),
        ),
        int_home(r) == bool_home(*c),
{
    c.ite(a, b)
}

/// `z3::ast::Int::add`: the sum of `xs`. It panics unless all live in the
/// given context and their number fits 32 bits; the library gives it one
/// term at least.
#[verifier::external_body]
pub(crate) fn mk_add<'ctx>(ctx: &'ctx Context, xs: &Vec<&Int<'ctx>>) -> (r: Int<'ctx>)
    requires
        1 <= xs.len() <= 0xffff_ffff,
        ints_at(xs@, context_id(*ctx)),
    ensures
        int_term(r) == IntTerm::Add(int_terms(xs@)),
        int_home(r) == context_id(*ctx),
{
    Int::add(ctx, xs.as_slice())
}

/// `z3::ast::Int::mul`: the product of `xs`. It panics unless all live in
/// the given context and their number fits 32 bits; the library gives it
/// one term at least.
#[verifier::external_body]
pub(crate) fn mk_mul<'ctx>(ctx: &'ctx Context, xs: &Vec<&Int<'ctx>>) -> (r: Int<'ctx>)
    requires
        1 <= xs.len() <= 0xffff_ffff,
        ints_at(xs@, context_id(*ctx)),
    ensures
        int_term(r) == IntTerm::Mul(int_terms(xs@)),
        int_home(r) == context_id(*ctx),
{
    Int::mul(ctx, xs.as_slice())
}

/// `z3::ast::Int::le`: `a` is at most `b`. It panics unless both live in
/// one context.
#[verifier::external_body]
pub(crate) fn mk_le<'ctx>(a: &Int<'ctx>, b: &Int<'ctx>) -> (r: Bool<'ctx>)
    requires
        int_home(*a) == int_home(*b),
    ensures
        bool_term(r) == BoolTerm::Le(Box::new(int_term(*a)), Box::new(int_term(*b))),
        bool_home(r) == int_home(*a),
{
    a.le(b)
}

/// `z3::Optimize::new`: a solver in the given context, with nothing
/// given to it yet.
#[verifier::external_body]
pub(crate) fn new_solver<'ctx>(ctx: &'ctx Context) -> (r: Optimize<'ctx>)
    ensures
        asserted(r) == Seq::<BoolTerm>::empty(),
        objectives(r) == Seq::<IntTerm>::empty(),
        solver_home(r) == context_id(*ctx),
{
    Optimize::new(ctx)
}

/// `z3::Optimize::assert`: gives the solver one more constraint that an
/// answer has to meet. The term is to live in the solver's context.
#[verifier::external_body]
pub(crate) fn solver_assert<'ctx>(s: &mut Optimize<'ctx>, a: &Bool<'ctx>)
    requires
        bool_home(*a) == solver_home(*old(s)),
    ensures
        asserted(*final(s)) == asserted(*old(s)).push(bool_term(*a)),
        objectives(*final(s)) == objectives(*old(s)),
        solver_home(*final(s)) == solver_home(*old(s)),
{
    s.assert(a)
}

/// `z3::Optimize::maximize`: asks the solver to make the term as large
/// as it can. The term is to live in the solver's context.
#[verifier::external_body]
pub(crate) fn solver_maximize<'ctx>(s: &mut Optimize<'ctx>, a: &Int<'ctx>)
    requires
        int_home(*a) == solver_home(*old(s)),
    ensures
        asserted(*final(s)) == asserted(*old(s)),
        objectives(*final(s)) == objectives(*old(s)).push(int_term(*a)),
        solver_home(*final(s)) == solver_home(*old(s)),
{
    s.maximize(a)
}

/// `z3::Optimize::check`, without assumptions: has the solver decide
/// whether what it was given can be met. As `z3::SatResult` says of its
/// variants, the verdict is `Unsat` only where no assignment meets the
/// constraints, and `Sat` only where one does; which of the three verdicts
/// comes is left open.
#[verifier::external_body]
pub(crate) fn solver_check<'ctx>(s: &mut Optimize<'ctx>) -> (r: Verdict)
    ensures
        asserted(*final(s)) == asserted(*old(s)),
        objectives(*final(s)) == objectives(*old(s)),
        solver_home(*final(s)) == solver_home(*old(s)),
        r == Verdict::Unsat ==> forall|m: Interp| !#[trigger] all_hold(asserted(*old(s)), m),
        r == Verdict::Sat ==> exists|m: Interp| #[trigger] all_hold(asserted(*old(s)), m),
{
    match s.check(&[]) {
        SatResult::Sat => Verdict::Sat,
        SatResult::Unsat => Verdict::Unsat,
        SatResult::Unknown => Verdict::Unknown,
    }
}

/// `z3::Optimize::get_model`: the assignment that the last check found, if
/// the solver has one. Nothing is claimed of what it assigns.
#[verifier::external_body]
pub(crate) fn solver_model<'ctx>(s: &Optimize<'ctx>) -> (r: Option<Model<'ctx>>)
    ensures
        r matches Some(m) ==> model_home(m) == solver_home(*s),
{
    s.get_model()
}

/// `z3::Model::eval` at a boolean term: the term's value in the model, as
/// a term again. The term is to live in the model's context. Which value
/// it is is left open; it depends on the model and the term alone.
#[verifier::external_body]
pub(crate) fn model_eval_bool<'ctx>(m: &Model<'ctx>, a: &Bool<'ctx>) -> (r: Option<Bool<'ctx>>)
    requires
        bool_home(*a) == model_home(*m),
    ensures
        match r {
            Some(v) => evaluated_bool(*m, bool_term(*a)) == Some(bool_term(v)),
            None => evaluated_bool(*m, bool_term(*a)) is None,
        },
{
    m.eval(a)
}

/// `z3::Model::eval` at an integer term: the term's value in the model, as
/// a term again. The term is to live in the model's context. Which value
/// it is is left open; it depends on the model and the term alone.
#[verifier::external_body]
pub(crate) fn model_eval_int<'ctx>(m: &Model<'ctx>, a: &Int<'ctx>) -> (r: Option<Int<'ctx>>)
    requires
        int_home(*a) == model_home(*m),
    ensures
        match r {
            Some(v) => evaluated_int(*m, int_term(*a)) == Some(int_term(v)),
            None => evaluated_int(*m, int_term(*a)) is None,
        },
{
    m.eval(a)
}

/// `z3::ast::Bool::as_bool`: the truth value that the term is, if it is
/// one. Which it is is left open; it depends on the term alone.
#[verifier::external_body]
pub(crate) fn bool_value<'ctx>(a: &Bool<'ctx>) -> (r: Option<bool>)
    ensures
        r == literal_of(bool_term(*a)),
{
    a.as_bool()
}

/// `z3::ast::Int::as_i64`: the number that the term is, if it is a numeral
/// that fits 64 bits with a sign. Which it is is left open; it depends on
/// the term alone.
#[verifier::external_body]
pub(crate) fn int_value<'ctx>(a: &Int<'ctx>) -> (r: Option<i64>)
    ensures
        r == numeral_of(int_term(*a)),
{
    a.as_i64()
}

} // verus!
