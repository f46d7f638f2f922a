//! Laws of the conversion of extracted terms into let-bindings.
use vstd::prelude::*;
use crate::ast::ExprV;
use crate::index_map::{distinct_keys, has_key};
use crate::strings::{decimal, lemma_decimal_injective};
use crate::termdag::{
    Entries, Term, bindings_of, child_vars, children_first, convertible, ordered_ok,
    root_ok, insert_entry, is_var_head, left_is_matrix, lit_int,
    lit_str, node_name, process, right_is_matrix, valid_term, var_expr,
};
use crate::util::{is_binary_name, lemma_heads_distinct};

verus! {

/// Whether `t` is a variable node: `MVar` or `SVar` on a string literal.
pub open spec fn is_var_node(dag: Seq<Term>, t: Term) -> bool {
    &&& t matches Term::App(op, args)
    &&& is_var_head(t->App_0@)
    &&& t->App_1@.len() >= 1
    &&& t->App_1@[0] < dag.len()
    &&& lit_str(dag[t->App_1@[0] as int]) is Some
}

/// The name of a variable node.
pub open spec fn var_name(dag: Seq<Term>, t: Term) -> Seq<char> {
    lit_str(dag[t->App_1@[0] as int])->0
}

/// Node `j` lies `s` binary-child steps below `t`.
pub open spec fn reaches(dag: Seq<Term>, t: Term, j: int, s: nat) -> bool
    decreases s,
{
    match t {
        Term::App(op, args) => {
            &&& is_binary_name(op@)
            &&& args@.len() >= 2
            &&& s >= 1
            &&& if s == 1 {
                j == args@[0] || j == args@[1]
            } else {
                ||| (args@[0] < dag.len() && reaches(dag, dag[args@[0] as int], j, (s - 1) as nat))
                ||| (args@[1] < dag.len() && reaches(dag, dag[args@[1] as int], j, (s - 1) as nat))
            }
        },
        _ => false,
    }
}

/// A node name that belongs to some node below `t`.
pub open spec fn names_below(dag: Seq<Term>, t: Term, key: Seq<char>) -> bool {
    exists|j: int, s: nat| s >= 1 && reaches(dag, t, j, s) && key == node_name(j as nat)
}

/// A valid term stays valid at every node below it, with that much less
/// fuel.
pub proof fn lemma_valid_below(dag: Seq<Term>, t: Term, f: nat, j: int, s: nat)
    requires
        valid_term(dag, t, f),
        reaches(dag, t, j, s),
    ensures
        s <= f,
        0 <= j < dag.len(),
        valid_term(dag, dag[j], (f - s) as nat),
    decreases s,
{
    if let Term::App(op, args) = t {
        if s > 1 {
            if args@[0] < dag.len() && reaches(dag, dag[args@[0] as int], j, (s - 1) as nat) {
                lemma_valid_below(dag, dag[args@[0] as int], (f - 1) as nat, j, (s - 1) as nat);
            } else {
                lemma_valid_below(dag, dag[args@[1] as int], (f - 1) as nat, j, (s - 1) as nat);
            }
        }
    }
}

/// No node of a valid term lies below itself: the DAG has no cycle through
/// it.
pub proof fn lemma_no_cycle(dag: Seq<Term>, k: int, f: nat, s: nat)
    requires
        0 <= k < dag.len(),
        valid_term(dag, dag[k], f),
        s >= 1,
    ensures
        !reaches(dag, dag[k], k, s),
    decreases f,
{
    if reaches(dag, dag[k], k, s) {
        lemma_valid_below(dag, dag[k], f, k, s);
        lemma_no_cycle(dag, k, (f - s) as nat, s);
    }
}

proof fn lemma_reaches_step(dag: Seq<Term>, t: Term, c: int, j: int, s: nat)
    requires
        t matches Term::App(op, args) && is_binary_name(op@) && args@.len() >= 2 && (c
            == args@[0] || c == args@[1]),
        0 <= c < dag.len(),
        reaches(dag, dag[c], j, s),
    ensures
        reaches(dag, t, j, s + 1),
{
    assert(reaches(dag, dag[c], j, s) ==> s >= 1);
}

/// The name a term is processed under: `e` for the root, or the node name
/// of a node that holds the term.
pub open spec fn name_fits(dag: Seq<Term>, t: Term, name: Seq<char>) -> bool {
    ||| name == seq!['e']
    ||| exists|k: int| 0 <= k < dag.len() && dag[k] == t && name == node_name(k as nat)
}

proof fn lemma_node_name_injective(j: nat, k: nat)
    requires
        node_name(j) == node_name(k),
    ensures
        j == k,
{
    assert(decimal(j) =~= node_name(j).subrange(1, node_name(j).len() as int));
    assert(decimal(k) =~= node_name(k).subrange(1, node_name(k).len() as int));
    lemma_decimal_injective(j, k);
}

proof fn lemma_node_name_not_root(j: nat)
    ensures
        node_name(j) != seq!['e'],
{
    assert(node_name(j)[0] == 'v');
}

/// A binary term's own name is not bound while its children are processed.
proof fn lemma_fresh_name(dag: Seq<Term>, t: Term, m: Entries, name: Seq<char>, f: nat)
    requires
        valid_term(dag, t, f),
        name_fits(dag, t, name),
        !has_key(m, name),
        t matches Term::App(op, _) && is_binary_name(op@),
    ensures
        ({
            let a0 = t->App_1@[0] as int;
            let a1 = t->App_1@[1] as int;
            let m1 = process(dag, dag[a0], m, node_name(a0 as nat), (f - 1) as nat).0;
            let m2 = process(dag, dag[a1], m1, node_name(a1 as nat), (f - 1) as nat).0;
            !has_key(m2, name)
        }),
    decreases f, 0nat,
{
    let args = t->App_1;
    let a0 = args@[0] as int;
    let a1 = args@[1] as int;
    let n0 = node_name(a0 as nat);
    let n1 = node_name(a1 as nat);
    assert(name_fits(dag, dag[a0], n0));
    assert(name_fits(dag, dag[a1], n1));
    lemma_process_appends(dag, dag[a0], m, n0, (f - 1) as nat);
    let m1 = process(dag, dag[a0], m, n0, (f - 1) as nat).0;
    lemma_process_appends(dag, dag[a1], m1, n1, (f - 1) as nat);
    let m2 = process(dag, dag[a1], m1, n1, (f - 1) as nat).0;
    if has_key(m2, name) {
        let i = choose|i: int| 0 <= i < m2.len() && m2[i].0 == name;
        // every key of m2 beyond m lies below t
        let key = m2[i].0;
        if i < m.len() {
            assert(m2.subrange(0, m1.len() as int)[i] == m2[i]);
            assert(m1.subrange(0, m.len() as int)[i] == m1[i]);
            assert(m[i].0 == name);
            assert(false);
        }
        let (j, s): (int, nat) = if i < m1.len() {
            assert(m2.subrange(0, m1.len() as int)[i] == m2[i]);
            assert(m1[i].0 == key);
            if key == n0 {
                (a0, 1nat)
            } else {
                let (j, s) = choose|j: int, s: nat|
                    s >= 1 && reaches(dag, dag[a0], j, s) && key == node_name(j as nat);
                lemma_reaches_step(dag, t, a0, j, s);
                (j, s + 1)
            }
        } else {
            if key == n1 {
                (a1, 1nat)
            } else {
                let (j, s) = choose|j: int, s: nat|
                    s >= 1 && reaches(dag, dag[a1], j, s) && key == node_name(j as nat);
                lemma_reaches_step(dag, t, a1, j, s);
                (j, s + 1)
            }
        };
        assert(reaches(dag, t, j, s));
        assert(s >= 1);
        assert(name == node_name(j as nat));
        if name == seq!['e'] {
            lemma_node_name_not_root(j as nat);
        } else {
            let k = choose|k: int| 0 <= k < dag.len() && dag[k] == t && name == node_name(k as nat);
            lemma_node_name_injective(j as nat, k as nat);
            lemma_valid_below(dag, t, f, j, s);
            lemma_no_cycle(dag, k, f, s);
        }
    }
}

/// Processing a valid term only appends entries to the map, and each new
/// key is the term's own name or the node name of a node below it.
pub proof fn lemma_process_appends(
    dag: Seq<Term>,
    t: Term,
    m: Entries,
    name: Seq<char>,
    f: nat,
)
    requires
        valid_term(dag, t, f),
        name_fits(dag, t, name),
    ensures
        process(dag, t, m, name, f).0.len() >= m.len(),
        process(dag, t, m, name, f).0.subrange(0, m.len() as int) == m,
        forall|i: int|
            m.len() <= i < process(dag, t, m, name, f).0.len() ==> {
                let key = #[trigger] process(dag, t, m, name, f).0[i].0;
                key == name || names_below(dag, t, key)
            },
    decreases f, 1nat,
{
    let out = process(dag, t, m, name, f).0;
    if has_key(m, name) {
        assert(out.subrange(0, m.len() as int) =~= m);
        return;
    }
    if let Term::App(op, args) = t {
        if is_binary_name(op@) {
            let a0 = args@[0] as int;
            let a1 = args@[1] as int;
            let n0 = node_name(a0 as nat);
            let n1 = node_name(a1 as nat);
            assert(name_fits(dag, dag[a0], n0));
            assert(name_fits(dag, dag[a1], n1));
            lemma_process_appends(dag, dag[a0], m, n0, (f - 1) as nat);
            let (m1, lvar) = process(dag, dag[a0], m, n0, (f - 1) as nat);
            lemma_process_appends(dag, dag[a1], m1, n1, (f - 1) as nat);
            let (m2, rvar) = process(dag, dag[a1], m1, n1, (f - 1) as nat);
            assert forall|i: int| m.len() <= i < m2.len() implies names_below(dag, t, #[trigger] m2[i].0) by {
                if i < m1.len() {
                    assert(m2[i] == m1[i]) by {
                        assert(m2.subrange(0, m1.len() as int)[i] == m2[i]);
                    }
                    let key = m1[i].0;
                    if key == n0 {
                        assert(reaches(dag, t, a0, 1));
                    } else {
                        let (j, s) = choose|j: int, s: nat|
                            s >= 1 && reaches(dag, dag[a0], j, s) && key == node_name(j as nat);
                        lemma_reaches_step(dag, t, a0, j, s);
                    }
                } else {
                    let key = m2[i].0;
                    if key == n1 {
                        assert(reaches(dag, t, a1, 1));
                    } else {
                        let (j, s) = choose|j: int, s: nat|
                            s >= 1 && reaches(dag, dag[a1], j, s) && key == node_name(j as nat);
                        lemma_reaches_step(dag, t, a1, j, s);
                    }
                }
            }
            assert(m2.subrange(0, m.len() as int) =~= m) by {
                assert(m2.subrange(0, m1.len() as int) == m1);
                assert forall|i: int| 0 <= i < m.len() implies m2[i] == m[i] by {
                    assert(m2.subrange(0, m1.len() as int)[i] == m2[i]);
                    assert(m1.subrange(0, m.len() as int)[i] == m1[i]);
                }
            }
            lemma_fresh_name(dag, t, m, name, f);
            assert(out.subrange(0, m.len() as int) =~= m);
        } else if op@ == "Num"@ && !is_var_head(op@) {
            assert(out.subrange(0, m.len() as int) =~= m);
        } else {
            assert(out.subrange(0, m.len() as int) =~= m);
        }
    }
}

/// Inserting keeps keys distinct.
proof fn lemma_insert_distinct(m: Entries, k: Seq<char>, v: ExprV)
    requires
        distinct_keys(m),
    ensures
        distinct_keys(insert_entry(m, k, v)),
{
    let out = insert_entry(m, k, v);
    if has_key(m, k) {
        let i = choose|i: int| 0 <= i < m.len() && m[i].0 == k;
        assert forall|a: int, b: int|
            0 <= a < out.len() && 0 <= b < out.len() && a != b implies out[a].0 != out[b].0 by {
            assert(out[a].0 == m[a].0);
            assert(out[b].0 == m[b].0);
        }
    } else {
        assert forall|a: int, b: int|
            0 <= a < out.len() && 0 <= b < out.len() && a != b implies out[a].0 != out[b].0 by {
            if a < m.len() && b < m.len() {
            } else if a < m.len() {
                assert(m[a].0 != k);
            } else {
                assert(m[b].0 != k);
            }
        }
    }
}

/// Processing keeps the keys of the map distinct.
pub proof fn lemma_process_distinct(dag: Seq<Term>, t: Term, m: Entries, name: Seq<char>, f: nat)
    requires
        distinct_keys(m),
    ensures
        distinct_keys(process(dag, t, m, name, f).0),
    decreases f,
{
    if !has_key(m, name) {
        if let Term::App(op, args) = t {
            if is_binary_name(op@) && f > 0 && args@.len() >= 2 && args@[0] < dag.len()
                && args@[1] < dag.len() {
                let a0 = args@[0] as int;
                let a1 = args@[1] as int;
                lemma_process_distinct(dag, dag[a0], m, node_name(a0 as nat), (f - 1) as nat);
                let (m1, lvar) = process(dag, dag[a0], m, node_name(a0 as nat), (f - 1) as nat);
                lemma_process_distinct(dag, dag[a1], m1, node_name(a1 as nat), (f - 1) as nat);
                let (m2, rvar) = process(dag, dag[a1], m1, node_name(a1 as nat), (f - 1) as nat);
                let (lc, rc) = child_vars(op@, lvar, rvar);
                lemma_insert_distinct(m2, name, ExprV::Bin(op@, Box::new(lc), Box::new(rc)));
            } else if !is_var_head(op@) && op@ == "Num"@ && args@.len() >= 1 && args@[0]
                < dag.len() && lit_int(dag[args@[0] as int]) is Some {
                lemma_insert_distinct(m, name, ExprV::Num(lit_int(dag[args@[0] as int])->0));
            }
        }
    }
}

/// The bindings made from a term bind every name at most once.
pub proof fn lemma_bindings_distinct(dag: Seq<Term>, t: Term)
    ensures
        distinct_keys(bindings_of(dag, t)),
{
    lemma_process_distinct(
        dag,
        t,
        Seq::empty(),
        "e"@,
        choose|fuel: nat| valid_term(dag, t, fuel),
    );
}

/// The expression a valid term stands for, unfolded as a tree: a binary
/// node applies its constructor to its unfolded children, except that a
/// variable child appears as a variable of the kind the constructor expects;
/// a `Num` node stands for its number.
pub open spec fn unfold(dag: Seq<Term>, t: Term, f: nat) -> ExprV
    decreases f,
{
    match t {
        Term::App(op, args) => {
            if is_binary_name(op@) && f > 0 && args@.len() >= 2 && args@[0] < dag.len()
                && args@[1] < dag.len() {
                let c0 = dag[args@[0] as int];
                let c1 = dag[args@[1] as int];
                let (lt, rt) = child_vars(op@, var_name(dag, c0), var_name(dag, c1));
                let l = if is_var_node(dag, c0) {
                    lt
                } else {
                    unfold(dag, c0, (f - 1) as nat)
                };
                let r = if is_var_node(dag, c1) {
                    rt
                } else {
                    unfold(dag, c1, (f - 1) as nat)
                };
                ExprV::Bin(op@, Box::new(l), Box::new(r))
            } else if op@ == "Num"@ && args@.len() >= 1 && args@[0] < dag.len() && lit_int(
                dag[args@[0] as int],
            ) is Some {
                ExprV::Num(lit_int(dag[args@[0] as int])->0)
            } else {
                ExprV::SVar(Seq::empty())
            }
        },
        _ => ExprV::SVar(Seq::empty()),
    }
}

/// The expression tree that a convertible term stands for.
pub open spec fn term_expr(dag: Seq<Term>, t: Term) -> ExprV {
    unfold(dag, t, choose|f: nat| valid_term(dag, t, f))
}

/// Whether the variable named `x` occurs as an operand below `t`.
pub open spec fn mentions_var(dag: Seq<Term>, t: Term, x: Seq<char>, f: nat) -> bool
    decreases f,
{
    match t {
        Term::App(op, args) => {
            if is_binary_name(op@) && f > 0 && args@.len() >= 2 && args@[0] < dag.len()
                && args@[1] < dag.len() {
                let c0 = dag[args@[0] as int];
                let c1 = dag[args@[1] as int];
                ||| is_var_node(dag, c0) && var_name(dag, c0) == x
                ||| is_var_node(dag, c1) && var_name(dag, c1) == x
                ||| !is_var_node(dag, c0) && mentions_var(dag, c0, x, (f - 1) as nat)
                ||| !is_var_node(dag, c1) && mentions_var(dag, c1, x, (f - 1) as nat)
            } else {
                false
            }
        },
        _ => false,
    }
}

/// Replaces each variable bound in `env` by its value.
pub open spec fn subst(env: Map<Seq<char>, ExprV>, e: ExprV) -> ExprV
    decreases e,
{
    match e {
        ExprV::SVar(x) => if env.contains_key(x) {
            env[x]
        } else {
            e
        },
        ExprV::MVar(x) => if env.contains_key(x) {
            env[x]
        } else {
            e
        },
        ExprV::Num(_) => e,
        ExprV::Bin(op, a, b) => ExprV::Bin(op, Box::new(subst(env, *a)), Box::new(subst(env, *b))),
    }
}

/// What each name of a sequence of bindings stands for, read in order: each
/// binding's expression with the names bound before it replaced by what
/// they stand for.
pub open spec fn env_of(entries: Entries) -> Map<Seq<char>, ExprV>
    decreases entries.len(),
{
    if entries.len() == 0 {
        Map::empty()
    } else {
        let prev = env_of(entries.drop_last());
        prev.insert(entries.last().0, subst(prev, entries.last().1))
    }
}

/// The fuel of a valid term does not change what it unfolds to.
pub proof fn lemma_unfold_fuel(dag: Seq<Term>, t: Term, f1: nat, f2: nat)
    requires
        valid_term(dag, t, f1),
        valid_term(dag, t, f2),
    ensures
        unfold(dag, t, f1) == unfold(dag, t, f2),
    decreases f1,
{
    if let Term::App(op, args) = t {
        if is_binary_name(op@) {
            lemma_unfold_fuel(dag, dag[args@[0] as int], (f1 - 1) as nat, (f2 - 1) as nat);
            lemma_unfold_fuel(dag, dag[args@[1] as int], (f1 - 1) as nat, (f2 - 1) as nat);
        }
    }
}

proof fn lemma_env_keys(entries: Entries, k: Seq<char>)
    ensures
        env_of(entries).contains_key(k) == has_key(entries, k),
    decreases entries.len(),
{
    if entries.len() > 0 {
        let p = entries.drop_last();
        lemma_env_keys(p, k);
        if has_key(p, k) {
            let i = choose|i: int| 0 <= i < p.len() && p[i].0 == k;
            assert(entries[i] == p[i]);
        }
        if has_key(entries, k) && entries.last().0 != k {
            let i = choose|i: int| 0 <= i < entries.len() && entries[i].0 == k;
            assert(p[i] == entries[i]);
        }
    }
}

proof fn lemma_env_push(m: Entries, k: Seq<char>, v: ExprV)
    ensures
        env_of(m.push((k, v))) == env_of(m).insert(k, subst(env_of(m), v)),
{
    assert(m.push((k, v)).drop_last() =~= m);
}

/// Appending bindings with fresh names keeps what earlier names stand for.
proof fn lemma_env_prefix(out: Entries, m: Entries, k: Seq<char>)
    requires
        out.len() >= m.len(),
        out.subrange(0, m.len() as int) == m,
        distinct_keys(out),
        has_key(m, k),
    ensures
        env_of(out).contains_key(k),
        env_of(out)[k] == env_of(m)[k],
    decreases out.len(),
{
    lemma_env_keys(out, k);
    if out.len() > m.len() {
        let p = out.drop_last();
        assert(p.subrange(0, m.len() as int) =~= m) by {
            assert forall|i: int| 0 <= i < m.len() implies p[i] == m[i] by {
                assert(out.subrange(0, m.len() as int)[i] == out[i]);
            }
        }
        let i = choose|i: int| 0 <= i < m.len() && m[i].0 == k;
        assert(out[i] == m[i]) by {
            assert(out.subrange(0, m.len() as int)[i] == out[i]);
        }
        assert(out.last().0 != k);
        assert(distinct_keys(p)) by {
            assert forall|a: int, b: int|
                0 <= a < p.len() && 0 <= b < p.len() && a != b implies p[a].0 != p[b].0 by {
                assert(p[a] == out[a]);
                assert(p[b] == out[b]);
            }
        }
        lemma_env_prefix(p, m, k);
    } else {
        assert(out =~= m);
    }
}

/// The name `key` of a map stands for what it should: `e` for the root
/// term, and a node name for its node.
pub open spec fn key_denotes(dag: Seq<Term>, root: Term, m: Entries, key: Seq<char>) -> bool {
    ||| key == seq!['e'] && env_of(m).contains_key(key) && env_of(m)[key] == term_expr(dag, root)
    ||| exists|j: int|
        0 <= j < dag.len() && key == node_name(j as nat) && !is_var_node(dag, dag[j])
            && env_of(m).contains_key(key) && env_of(m)[key] == term_expr(dag, dag[j])
}

/// Every name bound in `m` stands for what it should.
pub open spec fn entries_denote(dag: Seq<Term>, root: Term, m: Entries) -> bool {
    forall|i: int| 0 <= i < m.len() ==> key_denotes(dag, root, m, #[trigger] m[i].0)
}

proof fn lemma_has_key_prefix(out: Entries, m: Entries, k: Seq<char>)
    requires
        out.len() >= m.len(),
        out.subrange(0, m.len() as int) == m,
        has_key(m, k),
    ensures
        has_key(out, k),
{
    let i = choose|i: int| 0 <= i < m.len() && m[i].0 == k;
    assert(out.subrange(0, m.len() as int)[i] == out[i]);
}

proof fn lemma_denote_prefix(dag: Seq<Term>, root: Term, out: Entries, m: Entries)
    requires
        out.len() >= m.len(),
        out.subrange(0, m.len() as int) == m,
        distinct_keys(out),
        entries_denote(dag, root, m),
    ensures
        forall|i: int| 0 <= i < m.len() ==> key_denotes(dag, root, out, #[trigger] out[i].0),
{
    assert forall|i: int| 0 <= i < m.len() implies key_denotes(dag, root, out, #[trigger] out[i].0) by {
        assert(out.subrange(0, m.len() as int)[i] == out[i]);
        let k = m[i].0;
        assert(key_denotes(dag, root, m, k));
        assert(has_key(m, k));
        lemma_env_prefix(out, m, k);
    }
}

proof fn lemma_term_expr(dag: Seq<Term>, t: Term, f: nat)
    requires
        valid_term(dag, t, f),
    ensures
        term_expr(dag, t) == unfold(dag, t, f),
{
    let g = choose|g: nat| valid_term(dag, t, g);
    lemma_unfold_fuel(dag, t, f, g);
}

/// Whether `a` is a prefix of `b`.
pub open spec fn is_prefix(a: Entries, b: Entries) -> bool {
    a.len() <= b.len() && b.subrange(0, a.len() as int) == a
}

proof fn lemma_prefix_trans(a: Entries, b: Entries, c: Entries)
    requires
        is_prefix(a, b),
        is_prefix(b, c),
    ensures
        is_prefix(a, c),
{
    assert forall|i: int| 0 <= i < a.len() implies c[i] == a[i] by {
        assert(c.subrange(0, b.len() as int)[i] == c[i]);
        assert(b.subrange(0, a.len() as int)[i] == b[i]);
    }
    assert(c.subrange(0, a.len() as int) =~= a);
}

/// What the children of a binary term leave behind: the entries after each
/// child, and the name that stands for each child.
pub open spec fn children_result(dag: Seq<Term>, t: Term, m: Entries, f: nat) -> (
    Entries,
    Seq<char>,
    Entries,
    Seq<char>,
) {
    let a0 = t->App_1@[0] as int;
    let a1 = t->App_1@[1] as int;
    let (m1, lvar) = process(dag, dag[a0], m, node_name(a0 as nat), (f - 1) as nat);
    let (m2, rvar) = process(dag, dag[a1], m1, node_name(a1 as nat), (f - 1) as nat);
    (m1, lvar, m2, rvar)
}

/// A processed child stands for what it should: a variable node for its own
/// name, any other node for its node name, bound to its expression.
pub open spec fn child_denotes(dag: Seq<Term>, c: int, var: Seq<char>, mc: Entries) -> bool {
    &&& is_var_node(dag, dag[c]) ==> var == var_name(dag, dag[c])
    &&& !is_var_node(dag, dag[c]) ==> env_of(mc).contains_key(var) && env_of(mc)[var]
        == term_expr(dag, dag[c])
}

proof fn lemma_children(dag: Seq<Term>, root: Term, t: Term, m: Entries, name: Seq<char>, f: nat)
    requires
        valid_term(dag, t, f),
        t matches Term::App(op, _) && is_binary_name(op@),
        name_fits(dag, t, name),
        !has_key(m, name),
        distinct_keys(m),
        entries_denote(dag, root, m),
        forall|x: Seq<char>|
            #[trigger] mentions_var(dag, t, x, f) ==> !has_key(process(dag, t, m, name, f).0, x),
    ensures
        ({
            let (m1, lvar, m2, rvar) = children_result(dag, t, m, f);
            let out = process(dag, t, m, name, f).0;
            &&& is_prefix(m, m1)
            &&& is_prefix(m1, m2)
            &&& is_prefix(m2, out)
            &&& !has_key(m2, name)
            &&& out == m2.push(
                (
                    name,
                    ExprV::Bin(
                        t->App_0@,
                        Box::new(child_vars(t->App_0@, lvar, rvar).0),
                        Box::new(child_vars(t->App_0@, lvar, rvar).1),
                    ),
                ),
            )
            &&& distinct_keys(m2)
            &&& entries_denote(dag, root, m2)
            &&& child_denotes(dag, t->App_1@[0] as int, lvar, m1)
            &&& child_denotes(dag, t->App_1@[1] as int, rvar, m2)
        }),
    decreases f, 0nat,
{
    let op = t->App_0;
    let args = t->App_1;
    let a0 = args@[0] as int;
    let a1 = args@[1] as int;
    let c0 = dag[a0];
    let c1 = dag[a1];
    let n0 = node_name(a0 as nat);
    let n1 = node_name(a1 as nat);
    let out = process(dag, t, m, name, f).0;
    lemma_node_name_not_root(a0 as nat);
    lemma_node_name_not_root(a1 as nat);
    assert(name_fits(dag, c0, n0));
    assert(name_fits(dag, c1, n1));
    let (m1, lvar) = process(dag, c0, m, n0, (f - 1) as nat);
    let (m2, rvar) = process(dag, c1, m1, n1, (f - 1) as nat);
    lemma_process_appends(dag, c0, m, n0, (f - 1) as nat);
    lemma_process_appends(dag, c1, m1, n1, (f - 1) as nat);
    lemma_fresh_name(dag, t, m, name, f);
    assert(is_prefix(m2, out)) by {
        assert(out.subrange(0, m2.len() as int) =~= m2);
    }
    lemma_prefix_trans(m1, m2, out);
    assert forall|x: Seq<char>| #[trigger] mentions_var(dag, c0, x, (f - 1) as nat) implies !has_key(
        process(dag, c0, m, n0, (f - 1) as nat).0,
        x,
    ) by {
        lemma_mentions_child(dag, t, f, a0, x);
        if has_key(m1, x) {
            lemma_has_key_prefix(out, m1, x);
        }
    }
    lemma_process_denotes(dag, root, c0, m, n0, (f - 1) as nat);
    assert forall|x: Seq<char>| #[trigger] mentions_var(dag, c1, x, (f - 1) as nat) implies !has_key(
        process(dag, c1, m1, n1, (f - 1) as nat).0,
        x,
    ) by {
        lemma_mentions_child(dag, t, f, a1, x);
        if has_key(m2, x) {
            lemma_has_key_prefix(out, m2, x);
        }
    }
    lemma_process_denotes(dag, root, c1, m1, n1, (f - 1) as nat);
    if !is_var_node(dag, c0) {
        lemma_env_keys(m1, n0);
        lemma_env_prefix(m2, m1, n0);
    }
}

/// One operand of a binary term: its variable, with the entries bound before
/// the term, stands for what the term's unfolding puts there.
proof fn lemma_operand(
    dag: Seq<Term>,
    t: Term,
    f: nat,
    c: int,
    var: Seq<char>,
    m2: Entries,
    out: Entries,
    matrix: bool,
)
    requires
        valid_term(dag, t, f),
        t matches Term::App(op, args) && is_binary_name(op@) && (c == args@[0] || c == args@[1]),
        is_prefix(m2, out),
        child_denotes(dag, c, var, m2),
        forall|x: Seq<char>| #[trigger] mentions_var(dag, t, x, f) ==> !has_key(out, x),
    ensures
        subst(env_of(m2), var_expr(matrix, var)) == if is_var_node(dag, dag[c]) {
            var_expr(matrix, var_name(dag, dag[c]))
        } else {
            unfold(dag, dag[c], (f - 1) as nat)
        },
{
    if is_var_node(dag, dag[c]) {
        let xv = var_name(dag, dag[c]);
        assert(mentions_var(dag, t, xv, f));
        lemma_env_keys(m2, xv);
        if has_key(m2, xv) {
            lemma_has_key_prefix(out, m2, xv);
        }
    } else {
        lemma_term_expr(dag, dag[c], (f - 1) as nat);
    }
}

/// The binary case of `lemma_process_denotes`.
proof fn lemma_denotes_binary(
    dag: Seq<Term>,
    root: Term,
    t: Term,
    m: Entries,
    name: Seq<char>,
    f: nat,
)
    requires
        valid_term(dag, t, f),
        t matches Term::App(op, _) && is_binary_name(op@),
        name_fits(dag, t, name),
        name == seq!['e'] ==> t == root,
        !has_key(m, name),
        distinct_keys(m),
        entries_denote(dag, root, m),
        forall|x: Seq<char>|
            #[trigger] mentions_var(dag, t, x, f) ==> !has_key(process(dag, t, m, name, f).0, x),
    ensures
        entries_denote(dag, root, process(dag, t, m, name, f).0),
        env_of(process(dag, t, m, name, f).0).contains_key(name),
        env_of(process(dag, t, m, name, f).0)[name] == term_expr(dag, t),
    decreases f, 1nat,
{
    let out = process(dag, t, m, name, f).0;
    let op = t->App_0;
    let args = t->App_1;
    let a0 = args@[0] as int;
    let a1 = args@[1] as int;
    lemma_children(dag, root, t, m, name, f);
    let (m1, lvar, m2, rvar) = children_result(dag, t, m, f);
    let (lc, rc) = child_vars(op@, lvar, rvar);
    let v = ExprV::Bin(op@, Box::new(lc), Box::new(rc));
    assert(child_denotes(dag, a0, lvar, m2)) by {
        if !is_var_node(dag, dag[a0]) {
            lemma_env_keys(m1, lvar);
            lemma_env_prefix(m2, m1, lvar);
        }
    }
    lemma_operand(dag, t, f, a0, lvar, m2, out, left_is_matrix(op@));
    lemma_operand(dag, t, f, a1, rvar, m2, out, right_is_matrix(op@));
    lemma_env_push(m2, name, v);
    lemma_term_expr(dag, t, f);
    assert(env_of(out)[name] == term_expr(dag, t));
    lemma_heads_distinct(op@);
    lemma_denote_push(dag, root, t, m2, name, v);
}

/// Binding a term's own name last keeps every bound name standing for what
/// it should.
proof fn lemma_denote_push(dag: Seq<Term>, root: Term, t: Term, m: Entries, name: Seq<char>, v: ExprV)
    requires
        name_fits(dag, t, name),
        name == seq!['e'] ==> t == root,
        !is_var_node(dag, t),
        !has_key(m, name),
        distinct_keys(m),
        entries_denote(dag, root, m),
        env_of(m.push((name, v))).contains_key(name),
        env_of(m.push((name, v)))[name] == term_expr(dag, t),
    ensures
        distinct_keys(m.push((name, v))),
        entries_denote(dag, root, m.push((name, v))),
{
    let out = m.push((name, v));
    assert(out.subrange(0, m.len() as int) =~= m);
    assert(distinct_keys(out)) by {
        assert forall|a: int, b: int|
            0 <= a < out.len() && 0 <= b < out.len() && a != b implies out[a].0 != out[b].0 by {
            if a < m.len() && b < m.len() {
            } else if a < m.len() {
                assert(m[a].0 != name);
            } else {
                assert(m[b].0 != name);
            }
        }
    }
    lemma_denote_prefix(dag, root, out, m);
    assert(key_denotes(dag, root, out, name)) by {
        if name != seq!['e'] {
            let k = choose|k: int| 0 <= k < dag.len() && dag[k] == t && name == node_name(k as nat);
            assert(dag[k] == t);
        }
    }
    assert(entries_denote(dag, root, out)) by {
        assert forall|i: int| 0 <= i < out.len() implies key_denotes(
            dag,
            root,
            out,
            #[trigger] out[i].0,
        ) by {
            if i == m.len() {
                assert(out[i].0 == name);
            }
        }
    }
}

proof fn lemma_mentions_child(dag: Seq<Term>, t: Term, f: nat, c: int, x: Seq<char>)
    requires
        valid_term(dag, t, f),
        t matches Term::App(op, args) && is_binary_name(op@) && (c == args@[0] || c == args@[1]),
        mentions_var(dag, dag[c], x, (f - 1) as nat),
    ensures
        !is_var_node(dag, dag[c]),
        mentions_var(dag, t, x, f),
{
    let op2 = dag[c]->App_0;
    lemma_heads_distinct(op2@);
}

/// Processing a valid term keeps every bound name standing for what it
/// should, and binds the term's own name to the expression the term stands
/// for (a variable node binds nothing and stands for its own name), provided
/// no variable below the term is bound.
pub proof fn lemma_process_denotes(
    dag: Seq<Term>,
    root: Term,
    t: Term,
    m: Entries,
    name: Seq<char>,
    f: nat,
)
    requires
        valid_term(dag, t, f),
        name_fits(dag, t, name),
        name == seq!['e'] ==> t == root && !has_key(m, name),
        distinct_keys(m),
        entries_denote(dag, root, m),
        forall|x: Seq<char>|
            #[trigger] mentions_var(dag, t, x, f) ==> !has_key(process(dag, t, m, name, f).0, x),
    ensures
        distinct_keys(process(dag, t, m, name, f).0),
        entries_denote(dag, root, process(dag, t, m, name, f).0),
        is_var_node(dag, t) ==> process(dag, t, m, name, f) == (m, var_name(dag, t)),
        !is_var_node(dag, t) && !has_key(m, name) ==> process(dag, t, m, name, f).0.len() > 0
            && process(dag, t, m, name, f).0.last().0 == name,
        !is_var_node(dag, t) ==> {
            let (out, x) = process(dag, t, m, name, f);
            &&& x == name
            &&& env_of(out).contains_key(name)
            &&& env_of(out)[name] == term_expr(dag, t)
        },
    decreases f, 2nat,
{
    let (out, x) = process(dag, t, m, name, f);
    lemma_process_distinct(dag, t, m, name, f);
    lemma_process_appends(dag, t, m, name, f);
    if has_key(m, name) {
        let i = choose|i: int| 0 <= i < m.len() && m[i].0 == name;
        assert(key_denotes(dag, root, m, m[i].0));
        let k = choose|k: int| 0 <= k < dag.len() && dag[k] == t && name == node_name(k as nat);
        lemma_node_name_not_root(k as nat);
        let j = choose|j: int|
            0 <= j < dag.len() && name == node_name(j as nat) && !is_var_node(dag, dag[j])
                && env_of(m).contains_key(name) && env_of(m)[name] == term_expr(dag, dag[j]);
        lemma_node_name_injective(j as nat, k as nat);
        return;
    }
    let op = t->App_0;
    let args = t->App_1;
    if is_binary_name(op@) {
        lemma_heads_distinct(op@);
        lemma_denotes_binary(dag, root, t, m, name, f);
        lemma_children(dag, root, t, m, name, f);
    } else if is_var_head(op@) {
    } else {
        reveal_strlit("MVar");
        reveal_strlit("SVar");
        reveal_strlit("Num");
        let v = ExprV::Num(lit_int(dag[args@[0] as int])->0);
        assert(out == m.push((name, v)));
        lemma_env_push(m, name, v);
        lemma_term_expr(dag, t, f);
        lemma_denote_push(dag, root, t, m, name, v);
    }
}

/// Whether the variable named `x` occurs as an operand in a convertible
/// term.
pub open spec fn term_mentions(dag: Seq<Term>, t: Term, x: Seq<char>) -> bool {
    mentions_var(dag, t, x, choose|f: nat| valid_term(dag, t, f))
}

/// The bindings made from a convertible term stand for the term: read in
/// order, the name `e`, bound last, stands for the term unfolded as a tree
/// (a term that is a bare variable makes no bindings). Every name is bound
/// once. This holds when no variable of the term is also the name of a
/// binding.
pub proof fn lemma_bindings_denote_term(dag: Seq<Term>, t: Term)
    requires
        convertible(dag, t),
        forall|x: Seq<char>| #[trigger] term_mentions(dag, t, x) ==> !has_key(bindings_of(dag, t), x),
    ensures
        distinct_keys(bindings_of(dag, t)),
        is_var_node(dag, t) ==> bindings_of(dag, t) == Seq::<(Seq<char>, ExprV)>::empty(),
        !is_var_node(dag, t) ==> {
            &&& bindings_of(dag, t).len() > 0
            &&& bindings_of(dag, t).last().0 == "e"@
            &&& env_of(bindings_of(dag, t)).contains_key("e"@)
            &&& env_of(bindings_of(dag, t))["e"@] == term_expr(dag, t)
        },
{
    reveal_strlit("e");
    assert("e"@ =~= seq!['e']);
    let f = choose|f: nat| valid_term(dag, t, f);
    let m = Seq::<(Seq<char>, ExprV)>::empty();
    assert(!has_key(m, seq!['e']));
    assert(entries_denote(dag, t, m));
    assert forall|x: Seq<char>| #[trigger] mentions_var(dag, t, x, f) implies !has_key(
        process(dag, t, m, seq!['e'], f).0,
        x,
    ) by {
        assert(term_mentions(dag, t, x));
    }
    lemma_process_denotes(dag, t, t, m, seq!['e'], f);
}

/// Whether the expression `e` uses the variable named `x`.
pub open spec fn expr_uses(e: ExprV, x: Seq<char>) -> bool
    decreases e,
{
    match e {
        ExprV::SVar(y) => y == x,
        ExprV::MVar(y) => y == x,
        ExprV::Num(_) => false,
        ExprV::Bin(_, a, b) => expr_uses(*a, x) || expr_uses(*b, x),
    }
}

/// Every variable that an entry uses is bound by an earlier entry or is in
/// `leaves`.
pub open spec fn refs_ordered(m: Entries, leaves: Set<Seq<char>>) -> bool {
    forall|i: int, x: Seq<char>|
        0 <= i < m.len() && #[trigger] expr_uses(m[i].1, x) ==> has_key(m.subrange(0, i), x)
            || leaves.contains(x)
}

/// Processing a term that is not a variable node leaves its name bound, and
/// the term stands for that name.
proof fn lemma_process_binds_name(dag: Seq<Term>, t: Term, m: Entries, name: Seq<char>, f: nat)
    requires
        valid_term(dag, t, f),
        !is_var_node(dag, t),
    ensures
        has_key(process(dag, t, m, name, f).0, name),
        process(dag, t, m, name, f).1 == name,
{
    if !has_key(m, name) {
        let op = t->App_0;
        if is_binary_name(op@) {
            lemma_heads_distinct(op@);
        } else {
            reveal_strlit("MVar");
            reveal_strlit("SVar");
            reveal_strlit("Num");
        }
        let args = t->App_1;
        if is_binary_name(op@) {
            let a0 = args@[0] as int;
            let a1 = args@[1] as int;
            let (m1, lvar) = process(dag, dag[a0], m, node_name(a0 as nat), (f - 1) as nat);
            let (m2, rvar) = process(dag, dag[a1], m1, node_name(a1 as nat), (f - 1) as nat);
            let (lc, rc) = child_vars(op@, lvar, rvar);
            lemma_insert_has_key(m2, name, ExprV::Bin(op@, Box::new(lc), Box::new(rc)));
        } else {
            lemma_insert_has_key(m, name, ExprV::Num(lit_int(dag[args@[0] as int])->0));
        }
    }
}

proof fn lemma_insert_has_key(m: Entries, k: Seq<char>, v: ExprV)
    ensures
        has_key(insert_entry(m, k, v), k),
{
    let out = insert_entry(m, k, v);
    if has_key(m, k) {
        let i = choose|i: int| 0 <= i < m.len() && m[i].0 == k;
        assert(out[i].0 == k);
    } else {
        assert(out[m.len() as int].0 == k);
    }
}

/// The name that stands for a processed child is bound afterwards or is one
/// of the given leaves.
proof fn lemma_child_ref(
    dag: Seq<Term>,
    t: Term,
    f: nat,
    c: int,
    m: Entries,
    leaves: Set<Seq<char>>,
)
    requires
        valid_term(dag, t, f),
        t matches Term::App(op, args) && is_binary_name(op@) && (c == args@[0] || c == args@[1]),
        forall|x: Seq<char>| #[trigger] mentions_var(dag, t, x, f) ==> leaves.contains(x),
    ensures
        ({
            let (mc, var) = process(dag, dag[c], m, node_name(c as nat), (f - 1) as nat);
            has_key(mc, var) || leaves.contains(var)
        }),
{
    let (mc, var) = process(dag, dag[c], m, node_name(c as nat), (f - 1) as nat);
    if has_key(m, node_name(c as nat)) {
    } else if is_var_node(dag, dag[c]) {
        lemma_heads_distinct_rev(dag[c]->App_0@);
        assert(var == var_name(dag, dag[c]));
        assert(mentions_var(dag, t, var, f));
    } else {
        lemma_process_binds_name(dag, dag[c], m, node_name(c as nat), (f - 1) as nat);
    }
}

/// Processing a valid term keeps every entry's variables bound before it or
/// among the given leaves, when the term's own variables are leaves.
pub proof fn lemma_process_ordered(
    dag: Seq<Term>,
    t: Term,
    m: Entries,
    name: Seq<char>,
    f: nat,
    leaves: Set<Seq<char>>,
)
    requires
        valid_term(dag, t, f),
        name_fits(dag, t, name),
        refs_ordered(m, leaves),
        forall|x: Seq<char>| #[trigger] mentions_var(dag, t, x, f) ==> leaves.contains(x),
    ensures
        refs_ordered(process(dag, t, m, name, f).0, leaves),
    decreases f,
{
    if has_key(m, name) {
        return;
    }
    let op = t->App_0;
    let args = t->App_1;
    let out = process(dag, t, m, name, f).0;
    if is_binary_name(op@) {
        lemma_heads_distinct(op@);
        let a0 = args@[0] as int;
        let a1 = args@[1] as int;
        let c0 = dag[a0];
        let c1 = dag[a1];
        let n0 = node_name(a0 as nat);
        let n1 = node_name(a1 as nat);
        assert(name_fits(dag, c0, n0));
        assert(name_fits(dag, c1, n1));
        let (m1, lvar) = process(dag, c0, m, n0, (f - 1) as nat);
        let (m2, rvar) = process(dag, c1, m1, n1, (f - 1) as nat);
        assert forall|x: Seq<char>| #[trigger] mentions_var(dag, c0, x, (f - 1) as nat) implies leaves.contains(x) by {
            lemma_mentions_child(dag, t, f, a0, x);
        }
        assert forall|x: Seq<char>| #[trigger] mentions_var(dag, c1, x, (f - 1) as nat) implies leaves.contains(x) by {
            lemma_mentions_child(dag, t, f, a1, x);
        }
        lemma_process_ordered(dag, c0, m, n0, (f - 1) as nat, leaves);
        lemma_process_ordered(dag, c1, m1, n1, (f - 1) as nat, leaves);
        lemma_process_appends(dag, c1, m1, n1, (f - 1) as nat);
        lemma_fresh_name(dag, t, m, name, f);
        let (lc, rc) = child_vars(op@, lvar, rvar);
        let v = ExprV::Bin(op@, Box::new(lc), Box::new(rc));
        assert(out == m2.push((name, v)));
        assert(out.subrange(0, m2.len() as int) =~= m2);
        // the new entry's operands are bound before it or are leaves
        lemma_child_ref(dag, t, f, a0, m, leaves);
        lemma_child_ref(dag, t, f, a1, m1, leaves);
        if has_key(m1, lvar) {
            lemma_has_key_prefix(m2, m1, lvar);
        }
        assert forall|i: int, x: Seq<char>|
            0 <= i < out.len() && #[trigger] expr_uses(out[i].1, x) implies has_key(
            out.subrange(0, i),
            x,
        ) || leaves.contains(x) by {
            if i < m2.len() {
                assert(out[i] == m2[i]);
                assert(out.subrange(0, i) =~= m2.subrange(0, i));
            } else {
                assert(out.subrange(0, i) =~= m2);
                assert(out[i].1 == v);
                assert(expr_uses(lc, x) ==> x == lvar);
                assert(expr_uses(rc, x) ==> x == rvar);
                assert(x == lvar || x == rvar);
            }
        }
    } else if is_var_head(op@) {
    } else {
        reveal_strlit("MVar");
        reveal_strlit("SVar");
        reveal_strlit("Num");
        let v = ExprV::Num(lit_int(dag[args@[0] as int])->0);
        assert(out == m.push((name, v)));
        assert forall|i: int, x: Seq<char>|
            0 <= i < out.len() && #[trigger] expr_uses(out[i].1, x) implies has_key(
            out.subrange(0, i),
            x,
        ) || leaves.contains(x) by {
            if i < m.len() {
                assert(out[i] == m[i]);
                assert(out.subrange(0, i) =~= m.subrange(0, i));
            }
        }
    }
}

/// The bindings made from a convertible term come in dependency order:
/// every variable a binding uses is bound by an earlier binding or is a
/// variable of the term.
pub proof fn lemma_bindings_ordered(dag: Seq<Term>, t: Term)
    requires
        convertible(dag, t),
    ensures
        forall|i: int, x: Seq<char>|
            0 <= i < bindings_of(dag, t).len() && #[trigger] expr_uses(bindings_of(dag, t)[i].1, x)
                ==> has_key(bindings_of(dag, t).subrange(0, i), x) || term_mentions(dag, t, x),
{
    reveal_strlit("e");
    assert("e"@ =~= seq!['e']);
    let f = choose|f: nat| valid_term(dag, t, f);
    let leaves = Set::new(|x: Seq<char>| term_mentions(dag, t, x));
    lemma_process_ordered(dag, t, Seq::empty(), seq!['e'], f, leaves);
}

/// More fuel keeps a term valid.
pub proof fn lemma_valid_more_fuel(dag: Seq<Term>, t: Term, f: nat, g: nat)
    requires
        valid_term(dag, t, f),
        f <= g,
    ensures
        valid_term(dag, t, g),
    decreases f,
{
    if let Term::App(op, args) = t {
        if is_binary_name(op@) {
            lemma_valid_more_fuel(dag, dag[args@[0] as int], (f - 1) as nat, (g - 1) as nat);
            lemma_valid_more_fuel(dag, dag[args@[1] as int], (f - 1) as nat, (g - 1) as nat);
        }
    }
}

proof fn lemma_ordered_ok_valid(dag: Seq<Term>, i: int)
    requires
        ordered_ok(dag, i),
    ensures
        valid_term(dag, dag[i], (i + 1) as nat),
    decreases i,
{
    if let Term::App(op, args) = dag[i] {
        if is_binary_name(op@) {
            let a0 = args@[0] as int;
            let a1 = args@[1] as int;
            lemma_ordered_ok_valid(dag, a0);
            lemma_ordered_ok_valid(dag, a1);
            lemma_valid_more_fuel(dag, dag[a0], (a0 + 1) as nat, i as nat);
            lemma_valid_more_fuel(dag, dag[a1], (a1 + 1) as nat, i as nat);
        }
    }
}

/// A root whose children are `ordered_ok` is convertible.
pub proof fn lemma_root_ok_convertible(dag: Seq<Term>, t: Term)
    requires
        root_ok(dag, t),
    ensures
        convertible(dag, t),
{
    let f = (dag.len() + 1) as nat;
    if let Term::App(op, args) = t {
        if is_binary_name(op@) {
            let a0 = args@[0] as int;
            let a1 = args@[1] as int;
            lemma_ordered_ok_valid(dag, a0);
            lemma_ordered_ok_valid(dag, a1);
            lemma_valid_more_fuel(dag, dag[a0], (a0 + 1) as nat, dag.len() as nat);
            lemma_valid_more_fuel(dag, dag[a1], (a1 + 1) as nat, dag.len() as nat);
        }
    }
    assert(valid_term(dag, t, f));
}

proof fn lemma_valid_ordered_ok(dag: Seq<Term>, i: int, f: nat)
    requires
        children_first(dag),
        0 <= i < dag.len(),
        valid_term(dag, dag[i], f),
    ensures
        ordered_ok(dag, i),
    decreases i,
{
    let t = dag[i];
    if let Term::App(op, args) = t {
        if is_binary_name(op@) {
            assert(args@[0] < i && args@[1] < i);
            lemma_valid_ordered_ok(dag, args@[0] as int, (f - 1) as nat);
            lemma_valid_ordered_ok(dag, args@[1] as int, (f - 1) as nat);
        } else {
            lemma_heads_distinct_rev(op@);
        }
    }
}

proof fn lemma_heads_distinct_rev(op: Seq<char>)
    ensures
        is_binary_name(op) ==> !is_var_head(op) && op != "Num"@,
{
    if is_binary_name(op) {
        lemma_heads_distinct(op);
    }
}

/// In a DAG whose binary nodes refer to earlier nodes, a convertible root
/// has children that are `ordered_ok`.
pub proof fn lemma_convertible_root_ok(dag: Seq<Term>, t: Term)
    requires
        children_first(dag),
        convertible(dag, t),
    ensures
        root_ok(dag, t),
{
    let f = choose|f: nat| valid_term(dag, t, f);
    if let Term::App(op, args) = t {
        lemma_heads_distinct_rev(op@);
        if is_binary_name(op@) {
            lemma_valid_ordered_ok(dag, args@[0] as int, (f - 1) as nat);
            lemma_valid_ordered_ok(dag, args@[1] as int, (f - 1) as nat);
        }
    }
}

} // verus!
