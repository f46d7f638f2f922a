use egglog_experimental::ast::Literal;
use linear_algebra_compiler::ast::{CoreBinding, CoreExpr, Declare, Type};
use linear_algebra_compiler::util::{constructor_to_string, to_egglog_expr};
use linear_algebra_compiler::termdag::{
    dag_from_termdag, is_convertible, termdag_to_bindings, Dag, Lit, Term,
};

fn s(x: &str) -> String {
    x.to_string()
}

fn app(op: &str, args: Vec<usize>) -> Term {
    Term::App(s(op), args)
}

fn binding(var: &str, expr: CoreExpr) -> CoreBinding {
    CoreBinding { var: s(var), expr }
}

fn bx(e: CoreExpr) -> Box<CoreExpr> {
    Box::new(e)
}

/// a + 3 scaled onto B, with a a scalar and B a matrix.
fn scale_dag() -> Dag {
    Dag {
        nodes: vec![
            Term::Lit(Lit::Str(s("a"))),
            app("SVar", vec![0]),
            Term::Lit(Lit::Str(s("B"))),
            app("MVar", vec![2]),
            Term::Lit(Lit::Int(3)),
            app("Num", vec![4]),
            app("SAdd", vec![1, 5]),
        ],
    }
}

#[test]
fn bindings_of_scaled_sum() {
    let dag = scale_dag();
    let root = app("Scale", vec![6, 3]);
    assert!(is_convertible(&dag, &root));
    let out = termdag_to_bindings(vec![], &dag, &root);
    assert_eq!(
        out.bindings,
        vec![
            binding("v5", CoreExpr::Num(3)),
            binding(
                "v6",
                CoreExpr::SAdd(bx(CoreExpr::SVar(s("a"))), bx(CoreExpr::SVar(s("v5"))))
            ),
            binding(
                "e",
                CoreExpr::Scale(bx(CoreExpr::SVar(s("v6"))), bx(CoreExpr::MVar(s("B"))))
            ),
        ]
    );
    assert!(out.declares.is_empty());
}

#[test]
fn shared_subterms_are_bound_once() {
    let dag = Dag {
        nodes: vec![
            Term::Lit(Lit::Str(s("A"))),
            app("MVar", vec![0]),
            app("MMul", vec![1, 1]),
            app("MAdd", vec![2, 2]),
        ],
    };
    let root = app("MMul", vec![3, 2]);
    let out = termdag_to_bindings(vec![], &dag, &root);
    assert_eq!(
        out.bindings,
        vec![
            binding(
                "v2",
                CoreExpr::MMul(bx(CoreExpr::MVar(s("A"))), bx(CoreExpr::MVar(s("A"))))
            ),
            binding(
                "v3",
                CoreExpr::MAdd(bx(CoreExpr::MVar(s("v2"))), bx(CoreExpr::MVar(s("v2"))))
            ),
            binding(
                "e",
                CoreExpr::MMul(bx(CoreExpr::MVar(s("v3"))), bx(CoreExpr::MVar(s("v2"))))
            ),
        ]
    );
}

#[test]
fn variable_root_makes_no_bindings() {
    let dag = Dag { nodes: vec![Term::Lit(Lit::Str(s("x")))] };
    let root = app("SVar", vec![0]);
    let declares = vec![Declare { var: s("x"), ty: Type::Scalar }];
    let out = termdag_to_bindings(declares.clone(), &dag, &root);
    assert!(out.bindings.is_empty());
    assert_eq!(out.declares, declares);
}

#[test]
fn number_root_is_bound_to_e() {
    let dag = Dag { nodes: vec![Term::Lit(Lit::Int(-4))] };
    let root = app("Num", vec![0]);
    let out = termdag_to_bindings(vec![], &dag, &root);
    assert_eq!(out.bindings, vec![binding("e", CoreExpr::Num(-4))]);
}

#[test]
fn declarations_pass_through() {
    let dag = scale_dag();
    let root = app("Scale", vec![6, 3]);
    let declares = vec![
        Declare { var: s("a"), ty: Type::Scalar },
        Declare { var: s("B"), ty: Type::Matrix { nrows: 2, ncols: 3 } },
    ];
    let out = termdag_to_bindings(declares.clone(), &dag, &root);
    assert_eq!(out.declares, declares);
    assert_eq!(out.bindings.len(), 3);
}

#[test]
fn scalar_and_matrix_operands_by_constructor() {
    let dag = Dag {
        nodes: vec![
            Term::Lit(Lit::Str(s("x"))),
            app("SVar", vec![0]),
            Term::Lit(Lit::Str(s("M"))),
            app("MVar", vec![2]),
            app("SSub", vec![1, 1]),
            app("SDiv", vec![4, 1]),
            app("SMul", vec![5, 4]),
            app("MAdd", vec![3, 3]),
        ],
    };
    let root = app("Scale", vec![6, 7]);
    let out = termdag_to_bindings(vec![], &dag, &root);
    let sv = |x: &str| bx(CoreExpr::SVar(s(x)));
    let mv = |x: &str| bx(CoreExpr::MVar(s(x)));
    assert_eq!(
        out.bindings,
        vec![
            binding("v4", CoreExpr::SSub(sv("x"), sv("x"))),
            binding("v5", CoreExpr::SDiv(sv("v4"), sv("x"))),
            binding("v6", CoreExpr::SMul(sv("v5"), sv("v4"))),
            binding("v7", CoreExpr::MAdd(mv("M"), mv("M"))),
            binding("e", CoreExpr::Scale(sv("v6"), mv("v7"))),
        ]
    );
}

#[test]
fn egglog_termdag_is_read_node_by_node() {
    let mut td = egglog_experimental::TermDag::default();
    let a = td.lit(Literal::String(s("a")));
    let va = td.app(s("SVar"), vec![a]);
    let three = td.lit(Literal::Int(3));
    let num = td.app(s("Num"), vec![three]);
    let add = td.app(s("SAdd"), vec![va, num]);
    let flag = td.lit(Literal::Bool(true));
    let unit = td.lit(Literal::Unit);
    let v = td.var(s("q"));
    let dag = dag_from_termdag(&td);
    assert_eq!(
        dag.nodes,
        vec![
            Term::Lit(Lit::Str(s("a"))),
            app("SVar", vec![a]),
            Term::Lit(Lit::Int(3)),
            app("Num", vec![three]),
            app("SAdd", vec![va, num]),
            Term::Lit(Lit::Other),
            Term::Lit(Lit::Other),
            Term::Var(s("q")),
        ]
    );
    assert_eq!((flag, unit, v), (5, 6, 7));
    let root = dag.nodes[add].clone();
    assert!(is_convertible(&dag, &root));
    let out = termdag_to_bindings(vec![], &dag, &root);
    assert_eq!(
        out.bindings,
        vec![
            binding("v3", CoreExpr::Num(3)),
            binding(
                "e",
                CoreExpr::SAdd(bx(CoreExpr::SVar(s("a"))), bx(CoreExpr::SVar(s("v3"))))
            ),
        ]
    );
}

#[test]
fn unconvertible_terms_are_detected() {
    let dag = scale_dag();
    // unknown constructor
    assert!(!is_convertible(&dag, &app("Transpose", vec![3])));
    // child out of range
    assert!(!is_convertible(&dag, &app("SAdd", vec![1, 9])));
    // too few children
    assert!(!is_convertible(&dag, &app("SAdd", vec![1])));
    // a variable whose child is not a string
    assert!(!is_convertible(&dag, &app("SVar", vec![4])));
    // a number whose child is not an integer
    assert!(!is_convertible(&dag, &app("Num", vec![0])));
    // literals and variables are not terms of the language
    assert!(!is_convertible(&dag, &Term::Lit(Lit::Int(1))));
    assert!(!is_convertible(&dag, &Term::Var(s("x"))));
    // a cycle
    let cyclic = Dag { nodes: vec![app("SAdd", vec![0, 0])] };
    assert!(!is_convertible(&cyclic, &app("SAdd", vec![0, 0])));
}

#[test]
fn convertible_terms_are_detected() {
    let dag = scale_dag();
    assert!(is_convertible(&dag, &app("Scale", vec![6, 3])));
    assert!(is_convertible(&dag, &app("SVar", vec![0])));
    assert!(is_convertible(&dag, &app("Num", vec![4])));
    assert!(is_convertible(&dag, &app("MMul", vec![3, 3])));
}

/// Reads the expression `e` of binding `upto` back as an s-expression,
/// replacing each name bound earlier by what it stands for.
fn show(bindings: &[CoreBinding], upto: usize, e: &CoreExpr) -> String {
    match e {
        CoreExpr::SVar(x) | CoreExpr::MVar(x) => {
            match bindings[..upto].iter().rposition(|b| &b.var == x) {
                Some(i) => show(bindings, i, &bindings[i].expr),
                None => x.clone(),
            }
        }
        CoreExpr::Num(v) => format!("(Num {})", v),
        CoreExpr::SAdd(l, r)
        | CoreExpr::SMul(l, r)
        | CoreExpr::MAdd(l, r)
        | CoreExpr::MMul(l, r)
        | CoreExpr::Scale(l, r)
        | CoreExpr::SSub(l, r)
        | CoreExpr::SDiv(l, r) => format!(
            "({} {} {})",
            constructor_to_string(e),
            show(bindings, upto, l),
            show(bindings, upto, r)
        ),
    }
}

#[test]
fn bindings_read_back_to_the_term() {
    let dag = Dag {
        nodes: vec![
            Term::Lit(Lit::Str(s("x"))),
            app("SVar", vec![0]),
            Term::Lit(Lit::Str(s("M"))),
            app("MVar", vec![2]),
            app("SSub", vec![1, 1]),
            app("SDiv", vec![4, 1]),
            app("SMul", vec![5, 4]),
            app("MAdd", vec![3, 3]),
        ],
    };
    let root = app("Scale", vec![6, 7]);
    let out = termdag_to_bindings(vec![], &dag, &root);
    let last = out.bindings.len() - 1;
    assert_eq!(out.bindings[last].var, "e");
    let x = || bx(CoreExpr::SVar(s("x")));
    let sub = || bx(CoreExpr::SSub(x(), x()));
    let tree = CoreExpr::Scale(
        bx(CoreExpr::SMul(bx(CoreExpr::SDiv(sub(), x())), sub())),
        bx(CoreExpr::MAdd(bx(CoreExpr::MVar(s("M"))), bx(CoreExpr::MVar(s("M"))))),
    );
    assert_eq!(
        show(&out.bindings, last, &out.bindings[last].expr),
        to_egglog_expr(&tree).to_string()
    );
}

#[test]
fn bindings_come_in_dependency_order_with_distinct_names() {
    let dag = scale_dag();
    let root = app("Scale", vec![6, 3]);
    let out = termdag_to_bindings(vec![], &dag, &root);
    let term_vars = ["a", "B"];
    for (i, b) in out.bindings.iter().enumerate() {
        let used: Vec<&String> = match &b.expr {
            CoreExpr::Num(_) => vec![],
            CoreExpr::SVar(x) | CoreExpr::MVar(x) => vec![x],
            CoreExpr::SAdd(l, r)
            | CoreExpr::SMul(l, r)
            | CoreExpr::MAdd(l, r)
            | CoreExpr::MMul(l, r)
            | CoreExpr::Scale(l, r)
            | CoreExpr::SSub(l, r)
            | CoreExpr::SDiv(l, r) => {
                let name = |e: &CoreExpr| -> String {
                    match e {
                        CoreExpr::SVar(x) | CoreExpr::MVar(x) => x.clone(),
                        _ => panic!("operands of a binding are variables"),
                    }
                };
                let (ln, rn) = (name(l), name(r));
                assert!(out.bindings[..i].iter().any(|p| p.var == ln) || term_vars.contains(&ln.as_str()));
                assert!(out.bindings[..i].iter().any(|p| p.var == rn) || term_vars.contains(&rn.as_str()));
                vec![]
            }
        };
        assert!(used.is_empty());
        assert!(out.bindings[..i].iter().all(|p| p.var != b.var));
    }
}
