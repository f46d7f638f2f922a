//! Trusted interface to egglog: expression builders, term DAGs and the
//! matches a rule hands to a scheduler.
//!
//! egglog's `Expr` is opaque here: it is produced only by the builders of
//! `egglog::prelude::exprs`, and each builder's result is named by an
//! uninterpreted spec function of its arguments. egglog's `TermDag` is
//! opaque too; its nodes are named by `termdag_terms`, each node by the
//! library's own `Term`. A rule's `Matches` are opaque as well, named by
//! their number and by the matches chosen so far.
use vstd::prelude::*;
use egglog_experimental::ast::{Expr, GenericExpr, Literal};
use egglog_experimental::prelude::exprs;
use crate::termdag::{Lit, Term};

verus! {

#[verifier::external_type_specification]
#[verifier::external_body]
#[verifier::reject_recursive_types(Head)]
#[verifier::reject_recursive_types(Leaf)]
pub struct ExGenericExpr<Head, Leaf>(GenericExpr<Head, Leaf>);

/// What `exprs::var(name)` returns: `Expr::Var` of `name`, with the span of
/// the builder's own source location.
pub uninterp spec fn egglog_var(name: Seq<char>) -> Expr;

/// What `exprs::int(value)` returns: `Expr::Lit` of `Literal::Int(value)`,
/// with the span of the builder's own source location.
pub uninterp spec fn egglog_int(value: i64) -> Expr;

/// What `exprs::call(f, xs)` returns: `Expr::Call` of the head `f` applied to
/// the arguments `xs` in order, with the span of the builder's own source
/// location.
pub uninterp spec fn egglog_call(head: Seq<char>, args: Seq<Expr>) -> Expr;

/// The integer an expression holds when it is an integer literal
/// (`Expr::Lit(_, Literal::Int(n))`), whatever its span; `None` for any
/// other expression.
pub uninterp spec fn egglog_int_literal(e: Expr) -> Option<i64>;

/// Calls `egglog::prelude::exprs::var`. Trusted: the result is the named
/// value `egglog_var(name)`, a function of the name alone.
#[verifier::external_body]
pub(crate) fn egglog_var_expr(name: &str) -> (e: Expr)
    ensures
        e == egglog_var(name@),
{
    exprs::var(name)
}

/// Calls `egglog::prelude::exprs::int`. Trusted: the result is the named
/// value `egglog_int(value)`, a function of the value alone.
#[verifier::external_body]
pub(crate) fn egglog_int_expr(value: i64) -> (e: Expr)
    ensures
        e == egglog_int(value),
{
    exprs::int(value)
}

/// Calls `egglog::prelude::exprs::call`. Trusted: the result is the named
/// value `egglog_call(f, xs)`, a function of the head and the arguments.
#[verifier::external_body]
pub(crate) fn egglog_call_expr(f: &str, xs: Vec<Expr>) -> (e: Expr)
    ensures
        e == egglog_call(f@, xs@),
{
    exprs::call(f, xs)
}

/// Reads the integer of an integer-literal expression. Trusted: the result
/// is the named value `egglog_int_literal(*e)`, and it is `Some(v)` on what
/// `exprs::int(v)` builds. Which other expressions are integer literals
/// (those parsed from egglog source, with other spans) is not stated.
#[verifier::external_body]
pub(crate) fn egglog_int_literal_of(e: &Expr) -> (r: Option<i64>)
    ensures
        r == egglog_int_literal(*e),
        forall|v: i64| *e == egglog_int(v) ==> r == Some(v),
{
    match e {
        GenericExpr::Lit(_, Literal::Int(n)) => Some(*n),
        _ => None,
    }
}

#[verifier::external_type_specification]
#[verifier::external_body]
pub struct ExTermDag(egglog_experimental::TermDag);

/// The nodes of an egglog term DAG, in id order, each as the library's
/// `Term`: an application keeps its head and child ids, a variable its name,
/// and a literal its integer or string (other literals become `Lit::Other`).
pub uninterp spec fn termdag_terms(dag: egglog_experimental::TermDag) -> Seq<Term>;

/// Calls `TermDag::size`. Trusted: the result is the number of nodes.
#[verifier::external_body]
pub(crate) fn termdag_size(dag: &egglog_experimental::TermDag) -> (n: usize)
    ensures
        n == termdag_terms(*dag).len(),
{
    dag.size()
}

/// Calls `TermDag::get`, which panics on an id out of range, and converts
/// the node. Trusted: the result is the node with that id.
#[verifier::external_body]
pub(crate) fn termdag_get(dag: &egglog_experimental::TermDag, id: usize) -> (t: Term)
    requires
        id < termdag_terms(*dag).len(),
    ensures
        t == termdag_terms(*dag)[id as int],
{
    match dag.get(id) {
        egglog_experimental::Term::Lit(Literal::Int(n)) => Term::Lit(Lit::Int(*n)),
        egglog_experimental::Term::Lit(Literal::String(s)) => Term::Lit(Lit::Str(s.clone())),
        egglog_experimental::Term::Lit(_) => Term::Lit(Lit::Other),
        egglog_experimental::Term::Var(v) => Term::Var(v.clone()),
        egglog_experimental::Term::App(op, args) => Term::App(op.clone(), args.clone()),
    }
}

#[verifier::external_type_specification]
#[verifier::external_body]
pub struct ExEGraph(egglog_experimental::EGraph);

#[verifier::external_type_specification]
#[verifier::external_body]
pub struct ExMatches(egglog_experimental::scheduler::Matches);

/// The number of matches a rule produced.
pub uninterp spec fn matches_count(m: egglog_experimental::scheduler::Matches) -> nat;

/// The indices of the matches chosen one by one so far, in order.
pub uninterp spec fn matches_chosen(m: egglog_experimental::scheduler::Matches) -> Seq<usize>;

/// Whether all matches have been chosen at once.
pub uninterp spec fn matches_all_chosen(m: egglog_experimental::scheduler::Matches) -> bool;

/// Calls `Matches::match_size`. Trusted: the result is the number of
/// matches.
#[verifier::external_body]
pub(crate) fn matches_size(m: &egglog_experimental::scheduler::Matches) -> (n: usize)
    ensures
        n == matches_count(*m),
{
    m.match_size()
}

/// Calls `Matches::choose`, which records `idx` as chosen. Trusted: `idx` is
/// appended to the chosen indices, and nothing else changes.
#[verifier::external_body]
pub(crate) fn matches_choose(m: &mut egglog_experimental::scheduler::Matches, idx: usize)
    ensures
        matches_count(*final(m)) == matches_count(*old(m)),
        matches_chosen(*final(m)) == matches_chosen(*old(m)).push(idx),
        matches_all_chosen(*final(m)) == matches_all_chosen(*old(m)),
{
    m.choose(idx)
}

/// Calls `Matches::choose_all`, which marks every match as chosen. Trusted:
/// all matches are chosen, and nothing else changes.
#[verifier::external_body]
pub(crate) fn matches_choose_all(m: &mut egglog_experimental::scheduler::Matches)
    ensures
        matches_count(*final(m)) == matches_count(*old(m)),
        matches_chosen(*final(m)) == matches_chosen(*old(m)),
        matches_all_chosen(*final(m)),
{
    m.choose_all()
}

} // verus!
