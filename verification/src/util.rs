//! Conversions between core expressions and egglog terms.
use vstd::prelude::*;
use crate::ast::CoreExpr;
use crate::strings::str_eq;
use crate::egglog_api::{
    egglog_call, egglog_call_expr, egglog_int, egglog_int_expr, egglog_var, egglog_var_expr,
};
use egglog_experimental::ast::Expr;

verus! {

/// The egglog constructor name of a binary core expression.
pub open spec fn binary_name(e: CoreExpr) -> Seq<char> {
    match e {
        CoreExpr::SAdd(..) => "SAdd"@,
        CoreExpr::SMul(..) => "SMul"@,
        CoreExpr::MAdd(..) => "MAdd"@,
        CoreExpr::MMul(..) => "MMul"@,
        CoreExpr::Scale(..) => "Scale"@,
        CoreExpr::SSub(..) => "SSub"@,
        CoreExpr::SDiv(..) => "SDiv"@,
        _ => Seq::empty(),
    }
}

/// Whether `name` names one of the binary constructors.
pub open spec fn is_binary_name(name: Seq<char>) -> bool {
    ||| name == "SAdd"@
    ||| name == "SMul"@
    ||| name == "MAdd"@
    ||| name == "MMul"@
    ||| name == "Scale"@
    ||| name == "SSub"@
    ||| name == "SDiv"@
}

/// The binary expression built by the constructor named `name`.
pub open spec fn binary_from_name(name: Seq<char>, l: CoreExpr, r: CoreExpr) -> CoreExpr
    recommends
        is_binary_name(name),
{
    if name == "SAdd"@ {
        CoreExpr::SAdd(Box::new(l), Box::new(r))
    } else if name == "SMul"@ {
        CoreExpr::SMul(Box::new(l), Box::new(r))
    } else if name == "MAdd"@ {
        CoreExpr::MAdd(Box::new(l), Box::new(r))
    } else if name == "MMul"@ {
        CoreExpr::MMul(Box::new(l), Box::new(r))
    } else if name == "Scale"@ {
        CoreExpr::Scale(Box::new(l), Box::new(r))
    } else if name == "SSub"@ {
        CoreExpr::SSub(Box::new(l), Box::new(r))
    } else {
        CoreExpr::SDiv(Box::new(l), Box::new(r))
    }
}

proof fn reveal_names()
    ensures
        "SAdd"@ == seq!['S', 'A', 'd', 'd'],
        "SMul"@ == seq!['S', 'M', 'u', 'l'],
        "MAdd"@ == seq!['M', 'A', 'd', 'd'],
        "MMul"@ == seq!['M', 'M', 'u', 'l'],
        "Scale"@ == seq!['S', 'c', 'a', 'l', 'e'],
        "SSub"@ == seq!['S', 'S', 'u', 'b'],
        "SDiv"@ == seq!['S', 'D', 'i', 'v'],
{
    reveal_strlit("SAdd");
    reveal_strlit("SMul");
    reveal_strlit("MAdd");
    reveal_strlit("MMul");
    reveal_strlit("Scale");
    reveal_strlit("SSub");
    reveal_strlit("SDiv");
}

/// The constructor name of a binary expression.
pub fn constructor_to_string(constructor: &CoreExpr) -> (s: &str)
    requires
        constructor.is_binary(),
    ensures
        s@ == binary_name(*constructor),
{
    proof {
        reveal_names();
    }
    match constructor {
        CoreExpr::SAdd(..) => "SAdd",
        CoreExpr::SMul(..) => "SMul",
        CoreExpr::MAdd(..) => "MAdd",
        CoreExpr::MMul(..) => "MMul",
        CoreExpr::Scale(..) => "Scale",
        CoreExpr::SSub(..) => "SSub",
        CoreExpr::SDiv(..) => "SDiv",
        _ => {
            proof {
                assert(false);
            }
            ""
        },
    }
}

/// Builds the binary expression whose constructor is named `constructor`.
pub fn string_to_binary_constructor(constructor: &str, l: CoreExpr, r: CoreExpr) -> (e: CoreExpr)
    requires
        is_binary_name(constructor@),
    ensures
        e == binary_from_name(constructor@, l, r),
{
    if str_eq(constructor, "SAdd") {
        CoreExpr::SAdd(Box::new(l), Box::new(r))
    } else if str_eq(constructor, "SMul") {
        CoreExpr::SMul(Box::new(l), Box::new(r))
    } else if str_eq(constructor, "MAdd") {
        CoreExpr::MAdd(Box::new(l), Box::new(r))
    } else if str_eq(constructor, "MMul") {
        CoreExpr::MMul(Box::new(l), Box::new(r))
    } else if str_eq(constructor, "Scale") {
        CoreExpr::Scale(Box::new(l), Box::new(r))
    } else if str_eq(constructor, "SSub") {
        CoreExpr::SSub(Box::new(l), Box::new(r))
    } else {
        CoreExpr::SDiv(Box::new(l), Box::new(r))
    }
}

/// The binary constructor names differ from the heads `MVar`, `SVar` and
/// `Num`.
pub proof fn lemma_heads_distinct(name: Seq<char>)
    requires
        is_binary_name(name),
    ensures
        name != "MVar"@,
        name != "SVar"@,
        name != "Num"@,
{
    reveal_names();
    reveal_strlit("MVar");
    reveal_strlit("SVar");
    reveal_strlit("Num");
}

/// The two constructor-name conversions undo each other on binary
/// expressions: naming a binary expression and rebuilding it from that name
/// and its operands gives the expression back.
pub proof fn lemma_binary_name_roundtrip(e: CoreExpr)
    requires
        e.is_binary(),
    ensures
        is_binary_name(binary_name(e)),
        binary_from_name(binary_name(e), e.left(), e.right()) == e,
{
    reveal_names();
}

/// Rebuilding from a constructor name and then naming the result gives the
/// name back, and the operands are kept in place.
pub proof fn lemma_binary_from_name_roundtrip(name: Seq<char>, l: CoreExpr, r: CoreExpr)
    requires
        is_binary_name(name),
    ensures
        binary_from_name(name, l, r).is_binary(),
        binary_name(binary_from_name(name, l, r)) == name,
        binary_from_name(name, l, r).left() == l,
        binary_from_name(name, l, r).right() == r,
{
    reveal_names();
}

/// The egglog expression of a core expression: variables become egglog
/// variables, numbers become `(Num n)`, and a binary expression becomes a
/// call of its constructor name on the converted operands.
pub open spec fn egglog_expr_of(e: CoreExpr) -> Expr
    decreases e,
{
    match e {
        CoreExpr::SVar(name) => egglog_var(name@),
        CoreExpr::MVar(name) => egglog_var(name@),
        CoreExpr::Num(value) => egglog_call("Num"@, seq![egglog_int(value)]),
        CoreExpr::SAdd(l, r) => egglog_call("SAdd"@, seq![egglog_expr_of(*l), egglog_expr_of(*r)]),
        CoreExpr::SMul(l, r) => egglog_call("SMul"@, seq![egglog_expr_of(*l), egglog_expr_of(*r)]),
        CoreExpr::MAdd(l, r) => egglog_call("MAdd"@, seq![egglog_expr_of(*l), egglog_expr_of(*r)]),
        CoreExpr::MMul(l, r) => egglog_call("MMul"@, seq![egglog_expr_of(*l), egglog_expr_of(*r)]),
        CoreExpr::Scale(l, r) => egglog_call(
            "Scale"@,
            seq![egglog_expr_of(*l), egglog_expr_of(*r)],
        ),
        CoreExpr::SSub(l, r) => egglog_call("SSub"@, seq![egglog_expr_of(*l), egglog_expr_of(*r)]),
        CoreExpr::SDiv(l, r) => egglog_call("SDiv"@, seq![egglog_expr_of(*l), egglog_expr_of(*r)]),
    }
}

/// The egglog expression of a binary core expression is the call of its
/// constructor name on the converted left operand followed by the converted
/// right operand, whatever the operands are; a variable becomes the egglog
/// variable of its name, and a number `n` the call `(Num n)`.
pub proof fn lemma_egglog_expr_of_shape(e: CoreExpr)
    ensures
        e.is_binary() ==> egglog_expr_of(e) == egglog_call(
            binary_name(e),
            seq![egglog_expr_of(e.left()), egglog_expr_of(e.right())],
        ),
        e matches CoreExpr::SVar(x) ==> egglog_expr_of(e) == egglog_var(x@),
        e matches CoreExpr::MVar(x) ==> egglog_expr_of(e) == egglog_var(x@),
        e matches CoreExpr::Num(v) ==> egglog_expr_of(e) == egglog_call(
            "Num"@,
            seq![egglog_int(v)],
        ),
{
}

/// Converts a core expression into an egglog expression.
pub fn to_egglog_expr(expr: &CoreExpr) -> (r: Expr)
    ensures
        r == egglog_expr_of(*expr),
        expr.is_binary() ==> r == egglog_call(
            binary_name(*expr),
            seq![egglog_expr_of(expr.left()), egglog_expr_of(expr.right())],
        ),
        *expr matches CoreExpr::SVar(x) ==> r == egglog_var(x@),
        *expr matches CoreExpr::MVar(x) ==> r == egglog_var(x@),
        *expr matches CoreExpr::Num(v) ==> r == egglog_call("Num"@, seq![egglog_int(v)]),
    decreases expr,
{
    proof {
        lemma_egglog_expr_of_shape(*expr);
    }
    match expr {
        CoreExpr::SVar(name) => egglog_var_expr(name.as_str()),
        CoreExpr::MVar(name) => egglog_var_expr(name.as_str()),
        CoreExpr::Num(value) => {
            let args = vec![egglog_int_expr(*value)];
            assert(args@ =~= seq![egglog_int(*value)]);
            egglog_call_expr("Num", args)
        },
        CoreExpr::SAdd(left, right)
        | CoreExpr::SMul(left, right)
        | CoreExpr::MAdd(left, right)
        | CoreExpr::MMul(left, right)
        | CoreExpr::Scale(left, right)
        | CoreExpr::SSub(left, right)
        | CoreExpr::SDiv(left, right) => {
            let left_expr = to_egglog_expr(left);
            let right_expr = to_egglog_expr(right);
            let constructor = constructor_to_string(expr);
            proof {
                reveal_names();
            }
            let args = vec![left_expr, right_expr];
            assert(args@ =~= seq![egglog_expr_of(**left), egglog_expr_of(**right)]);
            egglog_call_expr(constructor, args)
        },
    }
}

} // verus!
