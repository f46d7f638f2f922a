use egglog_experimental::prelude::exprs;
use linear_algebra_compiler::ast::CoreExpr;
use linear_algebra_compiler::strings::{decimal_string, starts_with_char, str_eq};
use linear_algebra_compiler::util::{
    constructor_to_string, string_to_binary_constructor, to_egglog_expr,
};

fn svar(x: &str) -> CoreExpr {
    CoreExpr::SVar(x.to_string())
}

fn mvar(x: &str) -> CoreExpr {
    CoreExpr::MVar(x.to_string())
}

fn bx(e: CoreExpr) -> Box<CoreExpr> {
    Box::new(e)
}

#[test]
fn constructor_names_of_each_binary_expression() {
    let cases = vec![
        (CoreExpr::SAdd(bx(svar("a")), bx(svar("b"))), "SAdd"),
        (CoreExpr::SMul(bx(svar("a")), bx(svar("b"))), "SMul"),
        (CoreExpr::MAdd(bx(mvar("A")), bx(mvar("B"))), "MAdd"),
        (CoreExpr::MMul(bx(mvar("A")), bx(mvar("B"))), "MMul"),
        (CoreExpr::Scale(bx(svar("a")), bx(mvar("B"))), "Scale"),
        (CoreExpr::SSub(bx(svar("a")), bx(svar("b"))), "SSub"),
        (CoreExpr::SDiv(bx(svar("a")), bx(svar("b"))), "SDiv"),
    ];
    for (e, name) in cases {
        assert_eq!(constructor_to_string(&e), name);
    }
}

#[test]
fn binary_constructors_from_names() {
    assert_eq!(
        string_to_binary_constructor("SAdd", svar("x"), svar("y")),
        CoreExpr::SAdd(bx(svar("x")), bx(svar("y")))
    );
    assert_eq!(
        string_to_binary_constructor("SMul", svar("x"), svar("y")),
        CoreExpr::SMul(bx(svar("x")), bx(svar("y")))
    );
    assert_eq!(
        string_to_binary_constructor("MAdd", mvar("X"), mvar("Y")),
        CoreExpr::MAdd(bx(mvar("X")), bx(mvar("Y")))
    );
    assert_eq!(
        string_to_binary_constructor("MMul", mvar("X"), mvar("Y")),
        CoreExpr::MMul(bx(mvar("X")), bx(mvar("Y")))
    );
    assert_eq!(
        string_to_binary_constructor("Scale", svar("x"), mvar("Y")),
        CoreExpr::Scale(bx(svar("x")), bx(mvar("Y")))
    );
    assert_eq!(
        string_to_binary_constructor("SSub", svar("x"), svar("y")),
        CoreExpr::SSub(bx(svar("x")), bx(svar("y")))
    );
    assert_eq!(
        string_to_binary_constructor("SDiv", svar("x"), svar("y")),
        CoreExpr::SDiv(bx(svar("x")), bx(svar("y")))
    );
}

#[test]
fn constructor_name_roundtrip() {
    let e = CoreExpr::Scale(bx(CoreExpr::Num(2)), bx(mvar("M")));
    let name = constructor_to_string(&e).to_string();
    let rebuilt = string_to_binary_constructor(&name, CoreExpr::Num(2), mvar("M"));
    assert_eq!(rebuilt, e);
}

#[test]
fn egglog_expr_of_variables_and_numbers() {
    assert_eq!(to_egglog_expr(&svar("x")), exprs::var("x"));
    assert_eq!(to_egglog_expr(&mvar("A")), exprs::var("A"));
    assert_eq!(
        to_egglog_expr(&CoreExpr::Num(7)),
        exprs::call("Num", vec![exprs::int(7)])
    );
}

#[test]
fn egglog_expr_of_nested_expression() {
    let e = CoreExpr::MAdd(
        bx(CoreExpr::Scale(bx(CoreExpr::Num(3)), bx(mvar("A")))),
        bx(CoreExpr::MMul(bx(mvar("A")), bx(mvar("B")))),
    );
    let expected = exprs::call(
        "MAdd",
        vec![
            exprs::call(
                "Scale",
                vec![exprs::call("Num", vec![exprs::int(3)]), exprs::var("A")],
            ),
            exprs::call("MMul", vec![exprs::var("A"), exprs::var("B")]),
        ],
    );
    assert_eq!(to_egglog_expr(&e), expected);
    assert_eq!(
        to_egglog_expr(&e).to_string(),
        "(MAdd (Scale (Num 3) A) (MMul A B))"
    );
}

#[test]
fn egglog_expr_of_scalar_arithmetic() {
    let e = CoreExpr::SDiv(
        bx(CoreExpr::SSub(bx(svar("x")), bx(CoreExpr::Num(-1)))),
        bx(CoreExpr::SMul(bx(svar("y")), bx(CoreExpr::SAdd(bx(svar("x")), bx(svar("y")))))),
    );
    assert_eq!(
        to_egglog_expr(&e).to_string(),
        "(SDiv (SSub x (Num -1)) (SMul y (SAdd x y)))"
    );
}

#[test]
fn string_helpers() {
    assert!(str_eq("Scale", "Scale"));
    assert!(!str_eq("Scale", "Scal"));
    assert!(!str_eq("SAdd", "MAdd"));
    assert!(str_eq("", ""));
    assert!(starts_with_char("SAdd", 'S'));
    assert!(!starts_with_char("MAdd", 'S'));
    assert!(!starts_with_char("", 'S'));
    assert_eq!(decimal_string(0), "0");
    assert_eq!(decimal_string(7), "7");
    assert_eq!(decimal_string(10), "10");
    assert_eq!(decimal_string(4096), "4096");
    assert_eq!(decimal_string(usize::MAX), usize::MAX.to_string());
}
