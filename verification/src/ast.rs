//! The core language: scalar and matrix expressions and let-bindings.
use vstd::prelude::*;

verus! {

/// A core expression. `S*` constructors act on scalars, `M*` constructors
/// on matrices, and `Scale` multiplies a matrix by a scalar.
#[derive(Debug, PartialEq, Eq)]
pub enum CoreExpr {
    SVar(String),
    MVar(String),
    Num(i64),
    SAdd(Box<CoreExpr>, Box<CoreExpr>),
    SMul(Box<CoreExpr>, Box<CoreExpr>),
    MAdd(Box<CoreExpr>, Box<CoreExpr>),
    MMul(Box<CoreExpr>, Box<CoreExpr>),
    Scale(Box<CoreExpr>, Box<CoreExpr>),
    SSub(Box<CoreExpr>, Box<CoreExpr>),
    SDiv(Box<CoreExpr>, Box<CoreExpr>),
}

/// The type of a declared variable.
#[derive(Clone, Debug, PartialEq, Eq)]
pub enum Type {
    Scalar,
    Matrix { nrows: i64, ncols: i64 },
}

/// A variable declaration `var : ty`.
#[derive(Clone, Debug, PartialEq, Eq)]
pub struct Declare {
    pub var: String,
    pub ty: Type,
}

/// A binding `var = expr`.
#[derive(Debug, PartialEq, Eq)]
pub struct CoreBinding {
    pub var: String,
    pub expr: CoreExpr,
}

/// A whole program: its declarations and its bindings, in order.
#[derive(Debug, PartialEq, Eq)]
pub struct CoreBindings {
    pub bindings: Vec<CoreBinding>,
    pub declares: Vec<Declare>,
}

/// The mathematical view of a core expression: variables by their names,
/// and every binary expression as its constructor name and operands.
pub enum ExprV {
    SVar(Seq<char>),
    MVar(Seq<char>),
    Num(i64),
    Bin(Seq<char>, Box<ExprV>, Box<ExprV>),
}

/// The view of a core expression.
pub open spec fn expr_view(e: CoreExpr) -> ExprV
    decreases e,
{
    match e {
        CoreExpr::SVar(x) => ExprV::SVar(x@),
        CoreExpr::MVar(x) => ExprV::MVar(x@),
        CoreExpr::Num(v) => ExprV::Num(v),
        CoreExpr::SAdd(l, r) => ExprV::Bin("SAdd"@, Box::new(expr_view(*l)), Box::new(expr_view(*r))),
        CoreExpr::SMul(l, r) => ExprV::Bin("SMul"@, Box::new(expr_view(*l)), Box::new(expr_view(*r))),
        CoreExpr::MAdd(l, r) => ExprV::Bin("MAdd"@, Box::new(expr_view(*l)), Box::new(expr_view(*r))),
        CoreExpr::MMul(l, r) => ExprV::Bin("MMul"@, Box::new(expr_view(*l)), Box::new(expr_view(*r))),
        CoreExpr::Scale(l, r) => ExprV::Bin(
            "Scale"@,
            Box::new(expr_view(*l)),
            Box::new(expr_view(*r)),
        ),
        CoreExpr::SSub(l, r) => ExprV::Bin("SSub"@, Box::new(expr_view(*l)), Box::new(expr_view(*r))),
        CoreExpr::SDiv(l, r) => ExprV::Bin("SDiv"@, Box::new(expr_view(*l)), Box::new(expr_view(*r))),
    }
}

impl View for CoreExpr {
    type V = ExprV;

    open spec fn view(&self) -> ExprV {
        expr_view(*self)
    }
}

impl CoreExpr {
    /// Whether this expression is built by one of the binary constructors.
    pub open spec fn is_binary(self) -> bool {
        !(self is SVar || self is MVar || self is Num)
    }

    /// The left operand of a binary expression.
    pub open spec fn left(self) -> CoreExpr
        recommends
            self.is_binary(),
    {
        match self {
            CoreExpr::SAdd(l, _) => *l,
            CoreExpr::SMul(l, _) => *l,
            CoreExpr::MAdd(l, _) => *l,
            CoreExpr::MMul(l, _) => *l,
            CoreExpr::Scale(l, _) => *l,
            CoreExpr::SSub(l, _) => *l,
            CoreExpr::SDiv(l, _) => *l,
            _ => self,
        }
    }

    /// The right operand of a binary expression.
    pub open spec fn right(self) -> CoreExpr
        recommends
            self.is_binary(),
    {
        match self {
            CoreExpr::SAdd(_, r) => *r,
            CoreExpr::SMul(_, r) => *r,
            CoreExpr::MAdd(_, r) => *r,
            CoreExpr::MMul(_, r) => *r,
            CoreExpr::Scale(_, r) => *r,
            CoreExpr::SSub(_, r) => *r,
            CoreExpr::SDiv(_, r) => *r,
            _ => self,
        }
    }
}

} // verus!
