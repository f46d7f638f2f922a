//! Term DAGs produced by extraction, and their conversion into let-bindings.
use vstd::prelude::*;
use indexmap::IndexMap;
use crate::ast::{CoreBinding, CoreBindings, CoreExpr, Declare, ExprV};
use crate::egglog_api::{termdag_get, termdag_size, termdag_terms};
use crate::index_map::{
    distinct_keys, has_key, index_map_contains_key, index_map_entries, index_map_insert,
    index_map_into_entries, index_map_new,
};
use crate::strings::{decimal, decimal_string, starts_with_char, str_eq};
use crate::util::{binary_from_name, is_binary_name, string_to_binary_constructor};
use crate::termdag_laws::{
    env_of, expr_uses, is_var_node, lemma_bindings_denote_term, lemma_bindings_distinct,
    lemma_bindings_ordered, lemma_convertible_root_ok, lemma_root_ok_convertible, term_expr,
    term_mentions,
};

verus! {

/// A literal in a term DAG: an integer, a string, or any other literal.
#[derive(Clone, Debug, PartialEq, Eq)]
pub enum Lit {
    Int(i64),
    Str(String),
    Other,
}

/// A node of a term DAG. An application refers to its children by their
/// ids, that is their positions in the DAG.
#[derive(Clone, Debug, PartialEq, Eq)]
pub enum Term {
    Lit(Lit),
    Var(String),
    App(String, Vec<usize>),
}

/// A term DAG: the node with id `i` is `nodes[i]`.
#[derive(Clone, Debug, PartialEq, Eq)]
pub struct Dag {
    pub nodes: Vec<Term>,
}

/// Reads every node of an egglog term DAG into the library's `Dag`.
pub fn dag_from_termdag(dag: &egglog_experimental::TermDag) -> (d: Dag)
    ensures
        d.nodes@ == termdag_terms(*dag),
{
    let n = termdag_size(dag);
    let mut nodes: Vec<Term> = Vec::new();
    let mut i: usize = 0;
    while i < n
        invariant
            n == termdag_terms(*dag).len(),
            i <= n,
            nodes@ == termdag_terms(*dag).subrange(0, i as int),
        decreases n - i,
    {
        let t = termdag_get(dag, i);
        nodes.push(t);
        i = i + 1;
        assert(nodes@ =~= termdag_terms(*dag).subrange(0, i as int));
    }
    assert(nodes@ =~= termdag_terms(*dag));
    Dag { nodes }
}

/// The entries of a binding map: names with the views of their expressions.
pub type Entries = Seq<(Seq<char>, ExprV)>;

/// Whether `op` is the head of a variable node: `MVar` or `SVar`.
pub open spec fn is_var_head(op: Seq<char>) -> bool {
    op == "MVar"@ || op == "SVar"@
}

/// The string of a string-literal node.
pub open spec fn lit_str(t: Term) -> Option<Seq<char>> {
    match t {
        Term::Lit(Lit::Str(s)) => Some(s@),
        _ => None,
    }
}

/// The integer of an integer-literal node.
pub open spec fn lit_int(t: Term) -> Option<i64> {
    match t {
        Term::Lit(Lit::Int(v)) => Some(v),
        _ => None,
    }
}

/// The name under which the node with id `id` is bound: `v` and the id in
/// decimal.
pub open spec fn node_name(id: nat) -> Seq<char> {
    seq!['v'] + decimal(id)
}

/// Whether `t` can be turned into bindings when every path down from it
/// passes at most `fuel` binary nodes: each binary node has two children in
/// the DAG, each `MVar` or `SVar` node a string literal as first child, each
/// `Num` node an integer literal as first child, and no other node occurs.
pub open spec fn valid_term(dag: Seq<Term>, t: Term, fuel: nat) -> bool
    decreases fuel,
{
    match t {
        Term::App(op, args) => {
            if is_binary_name(op@) {
                &&& fuel > 0
                &&& args@.len() >= 2
                &&& args@[0] < dag.len()
                &&& args@[1] < dag.len()
                &&& valid_term(dag, dag[args@[0] as int], (fuel - 1) as nat)
                &&& valid_term(dag, dag[args@[1] as int], (fuel - 1) as nat)
            } else if is_var_head(op@) {
                &&& args@.len() >= 1
                &&& args@[0] < dag.len()
                &&& lit_str(dag[args@[0] as int]) is Some
            } else if op@ == "Num"@ {
                &&& args@.len() >= 1
                &&& args@[0] < dag.len()
                &&& lit_int(dag[args@[0] as int]) is Some
            } else {
                false
            }
        },
        _ => false,
    }
}

/// Whether `t` can be turned into bindings at all.
pub open spec fn convertible(dag: Seq<Term>, t: Term) -> bool {
    exists|fuel: nat| valid_term(dag, t, fuel)
}

/// A variable of the given kind: a matrix variable or a scalar one.
pub open spec fn var_expr(matrix: bool, x: Seq<char>) -> ExprV {
    if matrix {
        ExprV::MVar(x)
    } else {
        ExprV::SVar(x)
    }
}

/// Whether the left operand of the constructor named `op` is a matrix: it
/// is for the `M*` constructors, and not for the `S*` ones (`Scale`
/// included).
pub open spec fn left_is_matrix(op: Seq<char>) -> bool {
    !(op.len() > 0 && op[0] == 'S')
}

/// Whether the right operand of the constructor named `op` is a matrix: it
/// is for `Scale` and the `M*` constructors.
pub open spec fn right_is_matrix(op: Seq<char>) -> bool {
    op == "Scale"@ || !(op.len() > 0 && op[0] == 'S')
}

/// The variables that stand for the two operands of a binary node named
/// `op`: `Scale` takes a scalar and a matrix, the other `S*` constructors two
/// scalars, and the `M*` constructors two matrices.
pub open spec fn child_vars(op: Seq<char>, l: Seq<char>, r: Seq<char>) -> (ExprV, ExprV) {
    (var_expr(left_is_matrix(op), l), var_expr(right_is_matrix(op), r))
}

/// The entries after inserting `(k, v)` into a map: a new key goes last, an
/// existing one keeps its place and takes the new value.
pub open spec fn insert_entry(m: Entries, k: Seq<char>, v: ExprV) -> Entries {
    if has_key(m, k) {
        let i = choose|i: int| 0 <= i < m.len() && m[i].0 == k;
        m.update(i, (k, v))
    } else {
        m.push((k, v))
    }
}

/// Turns term `t` into bindings, starting from the entries `m`, under the
/// name `name`; the result is the new entries and the name that stands for
/// `t`. A name that is already bound is kept as it is. A binary node first
/// binds its left and then its right child, each under its node name, and
/// is then bound to its constructor applied to the children's names. A
/// variable node stands for its own name and binds nothing; a `Num` node is
/// bound to its number.
pub open spec fn process(dag: Seq<Term>, t: Term, m: Entries, name: Seq<char>, fuel: nat) -> (
    Entries,
    Seq<char>,
)
    decreases fuel,
{
    if has_key(m, name) {
        (m, name)
    } else {
        match t {
            Term::App(op, args) => {
                if is_binary_name(op@) && fuel > 0 && args@.len() >= 2 && args@[0] < dag.len()
                    && args@[1] < dag.len() {
                    let (m1, lvar) = process(
                        dag,
                        dag[args@[0] as int],
                        m,
                        node_name(args@[0] as nat),
                        (fuel - 1) as nat,
                    );
                    let (m2, rvar) = process(
                        dag,
                        dag[args@[1] as int],
                        m1,
                        node_name(args@[1] as nat),
                        (fuel - 1) as nat,
                    );
                    let (lc, rc) = child_vars(op@, lvar, rvar);
                    (insert_entry(m2, name, ExprV::Bin(op@, Box::new(lc), Box::new(rc))), name)
                } else if is_var_head(op@) && args@.len() >= 1 && args@[0] < dag.len() && lit_str(
                    dag[args@[0] as int],
                ) is Some {
                    (m, lit_str(dag[args@[0] as int])->0)
                } else if op@ == "Num"@ && args@.len() >= 1 && args@[0] < dag.len() && lit_int(
                    dag[args@[0] as int],
                ) is Some {
                    (insert_entry(m, name, ExprV::Num(lit_int(dag[args@[0] as int])->0)), name)
                } else {
                    (m, name)
                }
            },
            _ => (m, name),
        }
    }
}

/// The bindings of a convertible term `t`: the entries that `process` makes
/// from no entries, with `t` itself named `e`.
pub open spec fn bindings_of(dag: Seq<Term>, t: Term) -> Entries {
    process(dag, t, Seq::empty(), "e"@, choose|fuel: nat| valid_term(dag, t, fuel)).0
}

/// The entries of a sequence of bindings.
pub open spec fn bindings_view(bs: Seq<CoreBinding>) -> Entries {
    bs.map_values(|b: CoreBinding| (b.var@, b.expr@))
}

fn node_name_string(id: usize) -> (s: String)
    ensures
        s@ == node_name(id as nat),
{
    proof {
        reveal_strlit("v");
    }
    let mut s = String::from_str("v");
    let digits = decimal_string(id);
    s.append(digits.as_str());
    s
}

fn is_binary_op(op: &str) -> (r: bool)
    ensures
        r == is_binary_name(op@),
{
    str_eq(op, "SAdd") || str_eq(op, "SMul") || str_eq(op, "SSub") || str_eq(op, "SDiv")
        || str_eq(op, "Scale") || str_eq(op, "MAdd") || str_eq(op, "MMul")
}

proof fn lemma_binary_view(op: Seq<char>, l: CoreExpr, r: CoreExpr)
    requires
        is_binary_name(op),
    ensures
        binary_from_name(op, l, r)@ == ExprV::Bin(op, Box::new(l@), Box::new(r@)),
{
}

fn process_term(
    termdag: &Dag,
    term: &Term,
    bindings: &mut IndexMap<String, CoreExpr>,
    name: String,
    Ghost(fuel): Ghost<nat>,
) -> (r: String)
    requires
        valid_term(termdag.nodes@, *term, fuel),
    ensures
        (index_map_entries(*final(bindings)), r@) == process(
            termdag.nodes@,
            *term,
            index_map_entries(*old(bindings)),
            name@,
            fuel,
        ),
    decreases fuel,
{
    if index_map_contains_key(bindings, &name) {
        return name;
    }
    match term {
        Term::App(op, args) => {
            if is_binary_op(op.as_str()) {
                let left = &termdag.nodes[args[0]];
                let lvar = process_term(
                    termdag,
                    left,
                    bindings,
                    node_name_string(args[0]),
                    Ghost((fuel - 1) as nat),
                );
                let right = &termdag.nodes[args[1]];
                let rvar = process_term(
                    termdag,
                    right,
                    bindings,
                    node_name_string(args[1]),
                    Ghost((fuel - 1) as nat),
                );
                proof {
                    reveal_strlit("Scale");
                }
                let (lchild, rchild) = if str_eq(op.as_str(), "Scale") {
                    (CoreExpr::SVar(lvar), CoreExpr::MVar(rvar))
                } else if starts_with_char(op.as_str(), 'S') {
                    (CoreExpr::SVar(lvar), CoreExpr::SVar(rvar))
                } else {
                    (CoreExpr::MVar(lvar), CoreExpr::MVar(rvar))
                };
                let expr = string_to_binary_constructor(op.as_str(), lchild, rchild);
                proof {
                    lemma_binary_view(op@, lchild, rchild);
                }
                index_map_insert(bindings, name.clone(), expr);
                name
            } else if str_eq(op.as_str(), "MVar") || str_eq(op.as_str(), "SVar") {
                let arg = &termdag.nodes[args[0]];
                match arg {
                    Term::Lit(Lit::Str(s)) => s.clone(),
                    _ => {
                        proof {
                            assert(false);
                        }
                        name
                    },
                }
            } else if str_eq(op.as_str(), "Num") {
                let arg = &termdag.nodes[args[0]];
                match arg {
                    Term::Lit(Lit::Int(value)) => {
                        index_map_insert(bindings, name.clone(), CoreExpr::Num(*value));
                        name
                    },
                    _ => {
                        proof {
                            assert(false);
                        }
                        name
                    },
                }
            } else {
                proof {
                    assert(false);
                }
                name
            }
        },
        _ => {
            proof {
                assert(false);
            }
            name
        },
    }
}

/// Whether `t` has the shape `process` expects, looking only at `t` and its
/// direct children: a binary node has two children in the DAG, an `MVar` or
/// `SVar` node a string literal as first child, a `Num` node an integer
/// literal as first child.
pub open spec fn locally_ok(dag: Seq<Term>, t: Term) -> bool {
    match t {
        Term::App(op, args) => {
            if is_binary_name(op@) {
                args@.len() >= 2 && args@[0] < dag.len() && args@[1] < dag.len()
            } else if is_var_head(op@) {
                args@.len() >= 1 && args@[0] < dag.len() && lit_str(dag[args@[0] as int]) is Some
            } else if op@ == "Num"@ {
                args@.len() >= 1 && args@[0] < dag.len() && lit_int(dag[args@[0] as int]) is Some
            } else {
                false
            }
        },
        _ => false,
    }
}

/// Whether every binary node of the DAG refers only to nodes with smaller
/// ids, as in a DAG built bottom-up.
pub open spec fn children_first(dag: Seq<Term>) -> bool {
    forall|i: int|
        0 <= i < dag.len() ==> match #[trigger] dag[i] {
            Term::App(op, args) => is_binary_name(op@) && args@.len() >= 2 ==> args@[0] < i
                && args@[1] < i,
            _ => true,
        }
}

/// Whether node `i` has the expected shape, and so has every node below it,
/// each binary node referring to nodes with smaller ids.
pub open spec fn ordered_ok(dag: Seq<Term>, i: int) -> bool
    decreases i,
{
    &&& 0 <= i < dag.len()
    &&& locally_ok(dag, dag[i])
    &&& match dag[i] {
        Term::App(op, args) => is_binary_name(op@) ==> {
            &&& args@[0] < i
            &&& args@[1] < i
            &&& ordered_ok(dag, args@[0] as int)
            &&& ordered_ok(dag, args@[1] as int)
        },
        _ => true,
    }
}

/// Whether the root `t` has the expected shape and each of its binary
/// children is `ordered_ok`.
pub open spec fn root_ok(dag: Seq<Term>, t: Term) -> bool {
    &&& locally_ok(dag, t)
    &&& match t {
        Term::App(op, args) => is_binary_name(op@) ==> ordered_ok(dag, args@[0] as int)
            && ordered_ok(dag, args@[1] as int),
        _ => true,
    }
}

fn is_locally_ok(termdag: &Dag, t: &Term) -> (r: bool)
    ensures
        r == locally_ok(termdag.nodes@, *t),
{
    match t {
        Term::App(op, args) => {
            let n = termdag.nodes.len();
            if is_binary_op(op.as_str()) {
                args.len() >= 2 && args[0] < n && args[1] < n
            } else if str_eq(op.as_str(), "MVar") || str_eq(op.as_str(), "SVar") {
                args.len() >= 1 && args[0] < n && match &termdag.nodes[args[0]] {
                    Term::Lit(Lit::Str(_)) => true,
                    _ => false,
                }
            } else if str_eq(op.as_str(), "Num") {
                args.len() >= 1 && args[0] < n && match &termdag.nodes[args[0]] {
                    Term::Lit(Lit::Int(_)) => true,
                    _ => false,
                }
            } else {
                false
            }
        },
        _ => false,
    }
}

/// Decides whether `term` can be turned into bindings, for a DAG whose
/// binary nodes refer only to earlier nodes (as the DAGs of egglog's
/// extraction do); on any DAG, `true` means that it can.
pub fn is_convertible(termdag: &Dag, term: &Term) -> (r: bool)
    ensures
        r ==> convertible(termdag.nodes@, *term),
        children_first(termdag.nodes@) && convertible(termdag.nodes@, *term) ==> r,
{
    let ghost dag = termdag.nodes@;
    let n = termdag.nodes.len();
    let mut ok: Vec<bool> = Vec::new();
    let mut i: usize = 0;
    while i < n
        invariant
            n == dag.len(),
            dag == termdag.nodes@,
            i <= n,
            ok@.len() == i,
            forall|j: int| 0 <= j < i ==> ok@[j] == ordered_ok(dag, j),
        decreases n - i,
    {
        let node = &termdag.nodes[i];
        let mut good = is_locally_ok(termdag, node);
        if good {
            if let Term::App(op, args) = node {
                if is_binary_op(op.as_str()) {
                    good = args[0] < i && args[1] < i && ok[args[0]] && ok[args[1]];
                    assert(dag[i as int] == Term::App(*op, *args));
                    if args[0] < i && args[1] < i {
                        assert(ok@[args@[0] as int] == ordered_ok(dag, args@[0] as int));
                        assert(ok@[args@[1] as int] == ordered_ok(dag, args@[1] as int));
                    }
                }
            }
        }
        assert(good == ordered_ok(dag, i as int));
        ok.push(good);
        i = i + 1;
    }
    let mut r = is_locally_ok(termdag, term);
    if r {
        if let Term::App(op, args) = term {
            if is_binary_op(op.as_str()) {
                r = ok[args[0]] && ok[args[1]];
            }
        }
    }
    proof {
        if r {
            lemma_root_ok_convertible(dag, *term);
        }
        if children_first(dag) && convertible(dag, *term) {
            lemma_convertible_root_ok(dag, *term);
        }
    }
    r
}

/// Turns an extracted term into let-bindings: every binary or `Num` node
/// reachable from `term` is bound once, children before parents, each under
/// its node name and `term` itself under `e`; variables stand for
/// themselves. The declarations are passed through.
///
/// Every name is bound once, each binding uses only names bound before it
/// and variables of the term, and, when no variable of the term is also the
/// name of a binding, reading the bindings in order makes `e` stand for the
/// term unfolded as a tree.
pub fn termdag_to_bindings(declares: Vec<Declare>, termdag: &Dag, term: &Term) -> (r:
    CoreBindings)
    requires
        convertible(termdag.nodes@, *term),
    ensures
        r.declares == declares,
        bindings_view(r.bindings@) == bindings_of(termdag.nodes@, *term),
        distinct_keys(bindings_view(r.bindings@)),
        forall|i: int, x: Seq<char>|
            0 <= i < r.bindings@.len() && #[trigger] expr_uses(r.bindings@[i].expr@, x) ==> has_key(
                bindings_view(r.bindings@).subrange(0, i),
                x,
            ) || term_mentions(termdag.nodes@, *term, x),
        (forall|x: Seq<char>|
            #[trigger] term_mentions(termdag.nodes@, *term, x) ==> !has_key(
                bindings_view(r.bindings@),
                x,
            )) ==> if is_var_node(termdag.nodes@, *term) {
            r.bindings@.len() == 0
        } else {
            &&& r.bindings@.len() > 0
            &&& r.bindings@.last().var@ == "e"@
            &&& env_of(bindings_view(r.bindings@)).contains_key("e"@)
            &&& env_of(bindings_view(r.bindings@))["e"@] == term_expr(termdag.nodes@, *term)
        },
{
    let ghost fuel = choose|fuel: nat| valid_term(termdag.nodes@, *term, fuel);
    let mut bindings = index_map_new();
    proof {
        reveal_strlit("e");
    }
    let _root = process_term(termdag, term, &mut bindings, String::from_str("e"), Ghost(fuel));
    let ghost entries = index_map_entries(bindings);
    let pairs = index_map_into_entries(bindings);
    let mut out: Vec<CoreBinding> = Vec::new();
    for pair in it: pairs.into_iter()
        invariant
            it.seq() == pairs@,
            pairs@.len() == entries.len(),
            forall|i: int|
                0 <= i < pairs@.len() ==> pairs@[i].0@ == entries[i].0 && pairs@[i].1@
                    == entries[i].1,
            out@.len() == it.index(),
            forall|i: int|
                0 <= i < it.index() ==> (#[trigger] out@[i]).var@ == entries[i].0
                    && out@[i].expr@ == entries[i].1,
    {
        let (name, expr) = pair;
        out.push(CoreBinding { var: name, expr });
    }
    assert(bindings_view(out@) =~= entries);
    proof {
        let dag = termdag.nodes@;
        lemma_bindings_distinct(dag, *term);
        lemma_bindings_ordered(dag, *term);
        if forall|x: Seq<char>| #[trigger] term_mentions(dag, *term, x) ==> !has_key(entries, x) {
            lemma_bindings_denote_term(dag, *term);
        }
        assert forall|i: int, x: Seq<char>|
            0 <= i < out@.len() && #[trigger] expr_uses(out@[i].expr@, x) implies has_key(
            entries.subrange(0, i),
            x,
        ) || term_mentions(dag, *term, x) by {
            assert(entries[i].1 == out@[i].expr@);
        }
    }
    CoreBindings { bindings: out, declares }
}

} // verus!
