//! A satisfiability driver for quantifier-free equality with uninterpreted
//! functions: normal forms of the Boolean skeleton, and one congruence graph
//! per clause.
use vstd::prelude::*;
use crate::congruence::{CongruenceGraph, GraphView, NodeIndex, NodesView, SymbolIndex, respects};
use crate::fol::{Formula, FormulaV, FunctionSymbol, Language, SymbolV, Term, TermV, VarV, formulas_view, terms_view};
use crate::normal_form::{
    all_lits,
    dnf_holds,
    holds,
    lemma_normal_forms_equivalent,
    lit_holds,
    Clause,
    ClauseList,
    LitV,
    clause_view,
    clauses_view,
    cnf,
    cnf_and,
    cnf_or,
    copy_clause,
    dnf,
    dnf_and,
    dnf_or,
    flip,
    flip_clauses,
    product,
    product_clauses,
};

verus! {

#[derive(PartialEq, Eq, Structural, Clone, Copy, Debug)]
pub enum SatResult {
    Sat,
    Unsat,
    Unknown,
}

/// Why a term could not be put in the graph.
#[derive(PartialEq, Eq, Structural, Clone, Copy, Debug)]
pub enum Unsupported {
    /// The term holds a free variable.
    Variable,
    /// The graph has as many nodes as an index can name.
    GraphFull,
}

/// A solver for the quantifier-free theory of equality and uninterpreted
/// functions.
pub struct QFEUFSolver {
    pub congruence_graph: CongruenceGraph,
    symbol_table: Vec<FunctionSymbol>,
}

/// A term without variables.
pub open spec fn is_ground(t: TermV) -> bool
    decreases t,
{
    match t {
        TermV::Var(_) => false,
        TermV::App(_, args) => forall|i: int| 0 <= i < args.len() ==> is_ground(#[trigger] args[i]),
    }
}

/// Number of symbol occurrences and variables in a term.
pub open spec fn tsize(t: TermV) -> nat
    decreases t,
{
    match t {
        TermV::Var(_) => 1,
        TermV::App(_, args) => 1 + args_size(args),
    }
}

pub open spec fn args_size(ts: Seq<TermV>) -> nat
    decreases ts,
{
    if ts.len() == 0 {
        0
    } else {
        args_size(ts.drop_last()) + tsize(ts.last())
    }
}

/// The term that node `n` stands for, reading symbol indices in `syms`.
pub open spec fn node_term(nodes: NodesView, syms: Seq<SymbolV>, n: int) -> TermV
    decreases n,
{
    if 0 <= n < nodes.len() && nodes.symbols[n] < syms.len() {
        TermV::App(
            syms[nodes.symbols[n] as int],
            Seq::new(
                nodes.children[n].len(),
                |k: int|
                    if 0 <= nodes.children[n][k] < n {
                        node_term(nodes, syms, nodes.children[n][k])
                    } else {
                        TermV::Var(VarV { index: 0, sort: Seq::empty() })
                    },
            ),
        )
    } else {
        TermV::Var(VarV { index: 0, sort: Seq::empty() })
    }
}

/// `r` is an equivalence on terms that is closed under congruence.
pub open spec fn is_term_congruence(r: spec_fn(TermV, TermV) -> bool) -> bool {
    &&& forall|t: TermV| #[trigger] r(t, t)
    &&& forall|t: TermV, u: TermV| #[trigger] r(t, u) ==> r(u, t)
    &&& forall|t: TermV, u: TermV, v: TermV| #[trigger] r(t, u) && #[trigger] r(u, v) ==> r(t, v)
    &&& forall|f: SymbolV, a: Seq<TermV>, b: Seq<TermV>|
        a.len() == b.len() && (forall|k: int| 0 <= k < a.len() ==> r(a[k], b[k])) ==> #[trigger] r(
            TermV::App(f, a),
            TermV::App(f, b),
        )
}

/// `r` relates the two sides of every unnegated equality of `c`.
pub open spec fn respects_equalities(c: Seq<LitV>, r: spec_fn(TermV, TermV) -> bool) -> bool {
    forall|i: int|
        0 <= i < c.len() && !(#[trigger] c[i]).0 ==> match c[i].1 {
            FormulaV::Eq(t, u) => r(t, u),
            _ => true,
        }
}

/// Every congruence relating the unnegated equalities of `c` relates `t` and `u`.
pub open spec fn entailed_in(c: Seq<LitV>, t: TermV, u: TermV) -> bool {
    forall|r: spec_fn(TermV, TermV) -> bool|
        #[trigger] is_term_congruence(r) && respects_equalities(c, r) ==> r(t, u)
}

pub open spec fn is_ground_equality(f: FormulaV) -> bool {
    match f {
        FormulaV::Eq(t, u) => is_ground(t) && is_ground(u),
        _ => false,
    }
}

/// Every literal of `c` is an equality of ground terms, negated or not.
pub open spec fn clause_in_fragment(c: Seq<LitV>) -> bool {
    forall|i: int| 0 <= i < c.len() ==> is_ground_equality((#[trigger] c[i]).1)
}

/// `c` is within the fragment and one of its negated equalities is entailed
/// by its unnegated ones: no interpretation satisfies `c`.
pub open spec fn clause_refuted(c: Seq<LitV>) -> bool {
    &&& clause_in_fragment(c)
    &&& exists|i: int|
        0 <= i < c.len() && (#[trigger] c[i]).0 && match c[i].1 {
            FormulaV::Eq(t, u) => entailed_in(c, t, u),
            _ => false,
        }
}

pub open spec fn lit_size(l: LitV) -> nat {
    match l.1 {
        FormulaV::Eq(t, u) => tsize(t) + tsize(u),
        _ => 0,
    }
}

/// Sum of the sizes of the terms of the equalities of `c`.
pub open spec fn clause_size(c: Seq<LitV>) -> nat
    decreases c.len(),
{
    if c.len() == 0 {
        0
    } else {
        clause_size(c.drop_last()) + lit_size(c.last())
    }
}

/// Every clause of the DNF of `f` is refuted.
pub open spec fn refuted(f: FormulaV) -> bool {
    forall|i: int| 0 <= i < dnf(f).len() ==> clause_refuted(#[trigger] dnf(f)[i])
}

/// Value of a term in an interpretation: `interp` gives each function
/// symbol its meaning, `env` each variable its value.
pub open spec fn eval<U>(t: TermV, interp: spec_fn(SymbolV, Seq<U>) -> U, env: spec_fn(VarV) -> U) -> U
    decreases t,
{
    match t {
        TermV::Var(v) => env(v),
        TermV::App(f, args) => interp(f, eval_args(args, interp, env)),
    }
}

pub open spec fn eval_args<U>(
    args: Seq<TermV>,
    interp: spec_fn(SymbolV, Seq<U>) -> U,
    env: spec_fn(VarV) -> U,
) -> Seq<U>
    decreases args,
{
    Seq::new(
        args.len(),
        |i: int|
            if 0 <= i < args.len() {
                eval(args[i], interp, env)
            } else {
                env(VarV { index: 0, sort: Seq::empty() })
            },
    )
}

/// `atom` values every equality as the interpretation does.
pub open spec fn models_equalities<U>(
    atom: spec_fn(FormulaV) -> bool,
    interp: spec_fn(SymbolV, Seq<U>) -> U,
    env: spec_fn(VarV) -> U,
) -> bool {
    forall|t: TermV, u: TermV| #[trigger] atom(FormulaV::Eq(t, u)) == (eval(t, interp, env) == eval(u, interp, env))
}

/// A formula made of equalities of ground terms by the Boolean connectives.
pub open spec fn equational(f: FormulaV) -> bool
    decreases f,
{
    match f {
        FormulaV::Eq(t, u) => is_ground(t) && is_ground(u),
        FormulaV::Not(g) => equational(*g),
        FormulaV::Imp(l, r) => equational(*l) && equational(*r),
        FormulaV::Iff(l, r) => equational(*l) && equational(*r),
        FormulaV::And(fs) => forall|i: int| 0 <= i < fs.len() ==> equational(#[trigger] fs[i]),
        FormulaV::Or(fs) => forall|i: int| 0 <= i < fs.len() ==> equational(#[trigger] fs[i]),
        _ => false,
    }
}

/// Every clause of `cs` is within the fragment.
pub open spec fn all_in_fragment(cs: Seq<Seq<LitV>>) -> bool {
    forall|i: int| 0 <= i < cs.len() ==> clause_in_fragment(#[trigger] cs[i])
}

/// A refuted clause is false in every interpretation, whatever value the
/// other atoms take.
pub proof fn lemma_refuted_clause_false<U>(
    c: Seq<LitV>,
    interp: spec_fn(SymbolV, Seq<U>) -> U,
    env: spec_fn(VarV) -> U,
    atom: spec_fn(FormulaV) -> bool,
)
    requires
        clause_refuted(c),
        models_equalities(atom, interp, env),
    ensures
        !all_lits(c, atom),
{
    let r = |t: TermV, u: TermV| eval(t, interp, env) == eval(u, interp, env);
    assert forall|g: SymbolV, a: Seq<TermV>, b: Seq<TermV>|
        a.len() == b.len() && (forall|k: int| 0 <= k < a.len() ==> r(a[k], b[k])) implies #[trigger] r(
        TermV::App(g, a),
        TermV::App(g, b),
    ) by {
        let ea = eval_args(a, interp, env);
        let eb = eval_args(b, interp, env);
        assert forall|k: int| 0 <= k < a.len() implies ea[k] == eb[k] by {
            assert(r(a[k], b[k]));
        }
        assert(ea =~= eb);
    }
    assert(is_term_congruence(r));
    let li = choose|li: int|
        0 <= li < c.len() && (#[trigger] c[li]).0 && match c[li].1 {
            FormulaV::Eq(t, u) => entailed_in(c, t, u),
            _ => false,
        };
    if all_lits(c, atom) {
        assert forall|j: int| 0 <= j < c.len() && !(#[trigger] c[j]).0 implies match c[j].1 {
            FormulaV::Eq(t, u) => r(t, u),
            _ => true,
        } by {
            assert(lit_holds(c[j], atom));
            assert(is_ground_equality(c[j].1));
        }
        assert(respects_equalities(c, r));
        let t = c[li].1->Eq_0;
        let u = c[li].1->Eq_1;
        assert(r(t, u));
        assert(lit_holds(c[li], atom));
        assert(atom(FormulaV::Eq(t, u)));
    }
}

/// A formula whose DNF clauses are all refuted has no model: whatever the
/// interpretation of the function symbols and the variables, and whatever
/// value the other atoms take, the formula is false.
pub proof fn lemma_unsat_sound<U>(
    f: FormulaV,
    interp: spec_fn(SymbolV, Seq<U>) -> U,
    env: spec_fn(VarV) -> U,
    atom: spec_fn(FormulaV) -> bool,
)
    requires
        refuted(f),
        models_equalities(atom, interp, env),
    ensures
        !holds(f, atom),
{
    lemma_normal_forms_equivalent(f, atom);
    let d = dnf(f);
    assert forall|i: int| 0 <= i < d.len() implies !all_lits(#[trigger] d[i], atom) by {
        lemma_refuted_clause_false(d[i], interp, env, atom);
    }
}

proof fn lemma_flip_fragment(cs: Seq<Seq<LitV>>)
    requires
        all_in_fragment(cs),
    ensures
        all_in_fragment(flip(cs)),
{
    assert forall|i: int| 0 <= i < flip(cs).len() implies clause_in_fragment(#[trigger] flip(cs)[i]) by {
        let c = cs[i];
        assert(flip(cs)[i] == c.map_values(|l: LitV| (!l.0, l.1)));
        assert forall|j: int| 0 <= j < flip(cs)[i].len() implies is_ground_equality((#[trigger] flip(cs)[i][j]).1) by {
            assert(is_ground_equality(c[j].1));
        }
    }
}

proof fn lemma_concat_fragment(xs: Seq<Seq<LitV>>, ys: Seq<Seq<LitV>>)
    requires
        all_in_fragment(xs),
        all_in_fragment(ys),
    ensures
        all_in_fragment(xs + ys),
{
    assert forall|i: int| 0 <= i < (xs + ys).len() implies clause_in_fragment(#[trigger] (xs + ys)[i]) by {
        if i < xs.len() {
            assert((xs + ys)[i] == xs[i]);
        } else {
            assert((xs + ys)[i] == ys[i - xs.len()]);
        }
    }
}

proof fn lemma_product_fragment(xs: Seq<Seq<LitV>>, ys: Seq<Seq<LitV>>)
    requires
        all_in_fragment(xs),
        all_in_fragment(ys),
    ensures
        all_in_fragment(product(xs, ys)),
    decreases xs.len(),
{
    if xs.len() > 0 {
        lemma_product_fragment(xs.drop_last(), ys);
        let x = xs.last();
        assert(clause_in_fragment(xs[xs.len() - 1]));
        let m = ys.map_values(|c: Seq<LitV>| x + c);
        assert forall|i: int| 0 <= i < m.len() implies clause_in_fragment(#[trigger] m[i]) by {
            let c = ys[i];
            assert(m[i] == x + c);
            assert forall|j: int| 0 <= j < m[i].len() implies is_ground_equality((#[trigger] m[i][j]).1) by {
                if j < x.len() {
                    assert(m[i][j] == x[j]);
                } else {
                    assert(m[i][j] == c[j - x.len()]);
                }
            }
        }
        assert forall|i: int| 0 <= i < xs.drop_last().len() implies clause_in_fragment(#[trigger] xs.drop_last()[i]) by {
            assert(xs.drop_last()[i] == xs[i]);
        }
        lemma_concat_fragment(product(xs.drop_last(), ys), m);
    }
}

/// Every literal of the normal forms of an equational formula is an
/// equality of ground terms.
pub proof fn lemma_equational_fragment(f: FormulaV)
    requires
        equational(f),
    ensures
        all_in_fragment(dnf(f)),
        all_in_fragment(cnf(f)),
    decreases f,
{
    match f {
        FormulaV::Not(g) => {
            lemma_equational_fragment(*g);
            lemma_flip_fragment(cnf(*g));
            lemma_flip_fragment(dnf(*g));
        },
        FormulaV::Imp(l, r) => {
            lemma_equational_fragment(*l);
            lemma_equational_fragment(*r);
            lemma_flip_fragment(cnf(*l));
            lemma_flip_fragment(dnf(*l));
            lemma_concat_fragment(flip(cnf(*l)), dnf(*r));
            lemma_product_fragment(flip(dnf(*l)), cnf(*r));
        },
        FormulaV::Iff(l, r) => {
            lemma_equational_fragment(*l);
            lemma_equational_fragment(*r);
            lemma_flip_fragment(cnf(*l));
            lemma_flip_fragment(dnf(*l));
            lemma_flip_fragment(cnf(*r));
            lemma_flip_fragment(dnf(*r));
            lemma_concat_fragment(flip(cnf(*l)), dnf(*r));
            lemma_concat_fragment(flip(cnf(*r)), dnf(*l));
            lemma_product_fragment(flip(cnf(*l)) + dnf(*r), flip(cnf(*r)) + dnf(*l));
            lemma_product_fragment(flip(dnf(*l)), cnf(*r));
            lemma_product_fragment(flip(dnf(*r)), cnf(*l));
            lemma_concat_fragment(product(flip(dnf(*l)), cnf(*r)), product(flip(dnf(*r)), cnf(*l)));
        },
        FormulaV::And(fs) => {
            lemma_equational_list_fragment(fs);
        },
        FormulaV::Or(fs) => {
            lemma_equational_list_fragment(fs);
        },
        FormulaV::Eq(t, u) => {
            assert(clause_in_fragment(dnf(f)[0]));
            assert(clause_in_fragment(cnf(f)[0]));
        },
        _ => {},
    }
}

proof fn lemma_equational_list_fragment(fs: Seq<FormulaV>)
    requires
        forall|i: int| 0 <= i < fs.len() ==> equational(#[trigger] fs[i]),
    ensures
        all_in_fragment(dnf_and(fs)),
        all_in_fragment(dnf_or(fs)),
        all_in_fragment(cnf_and(fs)),
        all_in_fragment(cnf_or(fs)),
    decreases fs,
{
    if fs.len() == 0 {
        assert(clause_in_fragment(dnf_and(fs)[0]));
        assert(clause_in_fragment(cnf_or(fs)[0]));
    } else {
        let rest = fs.subrange(1, fs.len() as int);
        assert(equational(fs[0]));
        lemma_equational_fragment(fs[0]);
        assert forall|i: int| 0 <= i < rest.len() implies equational(#[trigger] rest[i]) by {
            assert(rest[i] == fs[i + 1]);
        }
        lemma_equational_list_fragment(rest);
        lemma_product_fragment(dnf(fs[0]), dnf_and(rest));
        lemma_concat_fragment(dnf(fs[0]), dnf_or(rest));
        lemma_concat_fragment(cnf(fs[0]), cnf_and(rest));
        lemma_product_fragment(cnf(fs[0]), cnf_or(rest));
    }
}

/// Each node's symbol index is the first place of its symbol in `syms`.
pub open spec fn first_occurrences(nodes: NodesView, syms: Seq<SymbolV>) -> bool {
    forall|n: int, i: int|
        #![trigger syms[i], nodes.symbols[n]]
        0 <= n < nodes.len() && 0 <= i < nodes.symbols[n] ==> syms[i] != syms[nodes.symbols[n] as int]
}

/// Values of the model that a congruence graph describes: a class of
/// nodes, an application outside the graph, or a variable.
pub enum ModelValue {
    Class(int),
    Struct(SymbolV, Seq<ModelValue>),
    Free(VarV),
}

/// Node `n` applies `f` to children whose classes are `vs`.
pub open spec fn node_matches(g: GraphView, syms: Seq<SymbolV>, n: int, f: SymbolV, vs: Seq<ModelValue>) -> bool {
    &&& g.valid(n)
    &&& g.nodes.symbols[n] < syms.len()
    &&& syms[g.nodes.symbols[n] as int] == f
    &&& g.nodes.children[n].len() == vs.len()
    &&& forall|k: int|
        0 <= k < vs.len() ==> vs[k] == ModelValue::Class(g.rep[#[trigger] g.nodes.children[n][k]])
}

/// The interpretation a graph describes: applying a symbol to the classes of
/// a node's children gives that node's class; anything else stands for
/// itself.
pub open spec fn graph_interp(g: GraphView, syms: Seq<SymbolV>) -> spec_fn(SymbolV, Seq<ModelValue>) -> ModelValue {
    |f: SymbolV, vs: Seq<ModelValue>|
        if exists|n: int| node_matches(g, syms, n, f, vs) {
            ModelValue::Class(g.rep[choose|n: int| node_matches(g, syms, n, f, vs)])
        } else {
            ModelValue::Struct(f, vs)
        }
}

pub open spec fn free_env() -> spec_fn(VarV) -> ModelValue {
    |v: VarV| ModelValue::Free(v)
}

/// Equalities valued by an interpretation; other atoms are false.
pub open spec fn equality_atoms<U>(interp: spec_fn(SymbolV, Seq<U>) -> U, env: spec_fn(VarV) -> U) -> spec_fn(FormulaV) -> bool {
    |f: FormulaV|
        match f {
            FormulaV::Eq(t, u) => eval(t, interp, env) == eval(u, interp, env),
            _ => false,
        }
}

/// In the model a closed graph describes, a node's term is worth its class.
proof fn lemma_eval_node_term(g: GraphView, syms: Seq<SymbolV>, n: int)
    requires
        g.shape(),
        g.closed(),
        forall|x: int| 0 <= x < g.len() ==> #[trigger] g.nodes.symbols[x] < syms.len(),
        first_occurrences(g.nodes, syms),
        g.valid(n),
    ensures
        eval(node_term(g.nodes, syms, n), graph_interp(g, syms), free_env()) == ModelValue::Class(g.rep[n]),
    decreases n,
{
    let interp = graph_interp(g, syms);
    let t = node_term(g.nodes, syms, n);
    assert(g.nodes.symbols[n] < syms.len());
    let f = t->App_0;
    let a = t->App_1;
    let vs = eval_args(a, interp, free_env());
    assert(a.len() == g.nodes.children[n].len());
    assert forall|k: int| 0 <= k < vs.len() implies vs[k] == ModelValue::Class(g.rep[#[trigger] g.nodes.children[n][k]]) by {
        let c = g.nodes.children[n][k];
        assert(0 <= c < n);
        assert(a[k] == node_term(g.nodes, syms, c));
        lemma_eval_node_term(g, syms, c);
    }
    assert(node_matches(g, syms, n, f, vs));
    let m = choose|m: int| node_matches(g, syms, m, f, vs);
    assert(node_matches(g, syms, m, f, vs));
    assert(g.nodes.symbols[m] == g.nodes.symbols[n]) by {
        let sm = g.nodes.symbols[m] as int;
        let sn = g.nodes.symbols[n] as int;
        if sm < sn {
            assert(syms[sm] != syms[sn]);
        } else if sn < sm {
            assert(syms[sn] != syms[sm]);
        }
    }
    assert forall|k: int| 0 <= k < g.nodes.children[m].len() implies g.rep[#[trigger] g.nodes.children[m][k]]
        == g.rep[g.nodes.children[n][k]] by {
        assert(vs[k] == ModelValue::Class(g.rep[g.nodes.children[m][k]]));
        assert(vs[k] == ModelValue::Class(g.rep[g.nodes.children[n][k]]));
    }
    assert(g.congruent(m, n));
    assert(eval(t, interp, free_env()) == interp(f, vs));
}

/// Function symbols that occur in a term.
pub open spec fn term_symbols(t: TermV) -> Set<SymbolV>
    decreases t,
{
    match t {
        TermV::Var(_) => Set::empty(),
        TermV::App(f, args) => args_symbols(args).insert(f),
    }
}

pub open spec fn args_symbols(ts: Seq<TermV>) -> Set<SymbolV>
    decreases ts,
{
    if ts.len() == 0 {
        Set::empty()
    } else {
        args_symbols(ts.drop_last()) + term_symbols(ts.last())
    }
}

/// `b` keeps `a` as a prefix, and each entry after it is one of `syms` that
/// appears nowhere else in `b`.
pub open spec fn grows_by(a: Seq<SymbolV>, b: Seq<SymbolV>, syms: Set<SymbolV>) -> bool {
    &&& a.len() <= b.len()
    &&& forall|i: int| 0 <= i < a.len() ==> #[trigger] b[i] == a[i]
    &&& forall|i: int| a.len() <= i < b.len() ==> syms.contains(#[trigger] b[i])
    &&& forall|i: int, j: int|
        a.len() <= i < b.len() && 0 <= j < b.len() && i != j ==> #[trigger] b[i] != #[trigger] b[j]
}

proof fn lemma_grows_by_trans(
    a: Seq<SymbolV>,
    b: Seq<SymbolV>,
    c: Seq<SymbolV>,
    s1: Set<SymbolV>,
    s2: Set<SymbolV>,
    s: Set<SymbolV>,
)
    requires
        grows_by(a, b, s1),
        grows_by(b, c, s2),
        s1.subset_of(s),
        s2.subset_of(s),
    ensures
        grows_by(a, c, s),
{
    assert forall|i: int| 0 <= i < a.len() implies #[trigger] c[i] == a[i] by {
        assert(b[i] == a[i]);
    }
    assert forall|i: int| a.len() <= i < c.len() implies s.contains(#[trigger] c[i]) by {
        if i < b.len() {
            assert(c[i] == b[i]);
        }
    }
    assert forall|i: int, j: int| a.len() <= i < c.len() && 0 <= j < c.len() && i != j implies #[trigger] c[i]
        != #[trigger] c[j] by {
        if i >= b.len() {
        } else if j >= b.len() {
            assert(c[j] != c[i]);
        } else {
            assert(c[i] == b[i]);
            assert(c[j] == b[j]);
        }
    }
}

proof fn lemma_grows_by_weaken(a: Seq<SymbolV>, b: Seq<SymbolV>, s1: Set<SymbolV>, s: Set<SymbolV>)
    requires
        grows_by(a, b, s1),
        s1.subset_of(s),
    ensures
        grows_by(a, b, s),
{
}

proof fn lemma_args_symbols_step(s: Seq<TermV>, i: int)
    requires
        0 <= i < s.len(),
    ensures
        args_symbols(s.subrange(0, i + 1)) == args_symbols(s.subrange(0, i)) + term_symbols(s[i]),
{
    let t = s.subrange(0, i + 1);
    assert(t.drop_last() =~= s.subrange(0, i));
}

proof fn lemma_args_symbols_prefix(s: Seq<TermV>, i: int)
    requires
        0 <= i <= s.len(),
    ensures
        args_symbols(s.subrange(0, i)).subset_of(args_symbols(s)),
    decreases s.len() - i,
{
    if i == s.len() {
        assert(s.subrange(0, i) =~= s);
    } else {
        lemma_args_symbols_step(s, i);
        lemma_args_symbols_prefix(s, i + 1);
    }
}

/// A node's term does not change as nodes and symbols are added.
proof fn lemma_node_term_stable(n1: NodesView, s1: Seq<SymbolV>, n2: NodesView, s2: Seq<SymbolV>, x: int)
    requires
        n1.ordered(),
        n1.len() <= n2.len(),
        forall|i: int| 0 <= i < n1.len() ==> #[trigger] n2.symbols[i] == n1.symbols[i],
        forall|i: int| 0 <= i < n1.len() ==> #[trigger] n2.children[i] == n1.children[i],
        forall|i: int| 0 <= i < n1.len() ==> #[trigger] n1.symbols[i] < s1.len(),
        s1.len() <= s2.len(),
        forall|i: int| 0 <= i < s1.len() ==> #[trigger] s2[i] == s1[i],
        0 <= x < n1.len(),
    ensures
        node_term(n2, s2, x) == node_term(n1, s1, x),
    decreases x,
{
    assert(n1.symbols[x] < s1.len());
    let t1 = node_term(n1, s1, x);
    let t2 = node_term(n2, s2, x);
    let a = t1->App_1;
    let b = t2->App_1;
    assert(t1->App_0 == t2->App_0);
    assert(a.len() == b.len());
    assert forall|k: int| 0 <= k < a.len() implies a[k] == b[k] by {
        let c = n1.children[x][k];
        assert(0 <= c < x);
        lemma_node_term_stable(n1, s1, n2, s2, c);
    }
    assert(a =~= b);
}

proof fn lemma_args_size_step(s: Seq<TermV>, i: int)
    requires
        0 <= i < s.len(),
    ensures
        args_size(s.subrange(0, i + 1)) == args_size(s.subrange(0, i)) + tsize(s[i]),
{
    let t = s.subrange(0, i + 1);
    assert(t.drop_last() =~= s.subrange(0, i));
}

proof fn lemma_args_size_prefix(s: Seq<TermV>, i: int)
    requires
        0 <= i <= s.len(),
    ensures
        args_size(s.subrange(0, i)) <= args_size(s),
    decreases s.len() - i,
{
    if i == s.len() {
        assert(s.subrange(0, i) =~= s);
    } else {
        lemma_args_size_step(s, i);
        lemma_args_size_prefix(s, i + 1);
    }
}

proof fn lemma_clause_size_step(c: Seq<LitV>, i: int)
    requires
        0 <= i < c.len(),
    ensures
        clause_size(c.subrange(0, i + 1)) == clause_size(c.subrange(0, i)) + lit_size(c[i]),
{
    let t = c.subrange(0, i + 1);
    assert(t.drop_last() =~= c.subrange(0, i));
}

proof fn lemma_clause_size_prefix(c: Seq<LitV>, i: int)
    requires
        0 <= i <= c.len(),
    ensures
        clause_size(c.subrange(0, i)) <= clause_size(c),
    decreases c.len() - i,
{
    if i == c.len() {
        assert(c.subrange(0, i) =~= c);
    } else {
        lemma_clause_size_step(c, i);
        lemma_clause_size_prefix(c, i + 1);
    }
}

proof fn lemma_formulas_subrange(fs: Seq<Formula>)
    requires
        fs.len() > 0,
    ensures
        formulas_view(fs.subrange(1, fs.len() as int)) == formulas_view(fs).subrange(1, fs.len() as int),
        formulas_view(fs)[0] == fs[0]@,
        formulas_view(fs).len() == fs.len(),
{
    assert(formulas_view(fs.subrange(1, fs.len() as int)) =~= formulas_view(fs).subrange(1, fs.len() as int));
}

fn single_literal(formula: &Formula) -> (r: ClauseList)
    ensures
        clauses_view(r@) == seq![seq![(false, formula@)]],
{
    let mut c: Clause = Vec::new();
    c.push((false, formula.copy()));
    let mut r: ClauseList = Vec::new();
    r.push(c);
    proof {
        assert(clause_view(c@) =~= seq![(false, formula@)]);
        assert(clauses_view(r@) =~= seq![seq![(false, formula@)]]);
    }
    r
}

fn concat_lists(mut a: ClauseList, mut b: ClauseList) -> (r: ClauseList)
    ensures
        clauses_view(r@) == clauses_view(a@) + clauses_view(b@),
{
    let ghost av = a@;
    let ghost bv = b@;
    a.append(&mut b);
    assert(clauses_view(a@) =~= clauses_view(av) + clauses_view(bv));
    a
}

fn one_empty_clause() -> (r: ClauseList)
    ensures
        clauses_view(r@) == seq![Seq::<LitV>::empty()],
{
    let mut r: ClauseList = Vec::new();
    r.push(Vec::new());
    proof {
        assert(clause_view(r@[0]@) =~= Seq::<LitV>::empty());
        assert(clauses_view(r@) =~= seq![Seq::<LitV>::empty()]);
    }
    r
}

fn no_clause() -> (r: ClauseList)
    ensures
        clauses_view(r@) == Seq::<Seq<LitV>>::empty(),
{
    let r: ClauseList = Vec::new();
    assert(clauses_view(r@) =~= Seq::<Seq<LitV>>::empty());
    r
}

/// The classes of a graph whose asserted pairs are the unnegated equalities
/// of `c` refute `c` once the two sides of one of its negated equalities
/// share a class.
proof fn lemma_clause_refuted(
    c: Seq<LitV>,
    g: GraphView,
    syms: Seq<SymbolV>,
    eq_src: Seq<int>,
    a: int,
    b: int,
    li: int,
)
    requires
        g.good(),
        forall|n: int| 0 <= n < g.len() ==> #[trigger] g.nodes.symbols[n] < syms.len(),
        eq_src.len() == g.asserted.len(),
        forall|k: int|
            0 <= k < eq_src.len() ==> 0 <= #[trigger] eq_src[k] < c.len() && !c[eq_src[k]].0 && c[eq_src[k]].1
                == FormulaV::Eq(
                node_term(g.nodes, syms, g.asserted[k].0),
                node_term(g.nodes, syms, g.asserted[k].1),
            ),
        g.valid(a),
        g.valid(b),
        g.same(a, b),
        0 <= li < c.len(),
        c[li] == (true, FormulaV::Eq(node_term(g.nodes, syms, a), node_term(g.nodes, syms, b))),
        clause_in_fragment(c),
    ensures
        clause_refuted(c),
{
    let ta = node_term(g.nodes, syms, a);
    let tb = node_term(g.nodes, syms, b);
    assert forall|r: spec_fn(TermV, TermV) -> bool|
        #[trigger] is_term_congruence(r) && respects_equalities(c, r) implies r(ta, tb) by {
        let rn = |x: int, y: int| r(node_term(g.nodes, syms, x), node_term(g.nodes, syms, y));
        assert forall|i: int, j: int|
            g.nodes.valid(i) && g.nodes.valid(j) && #[trigger] g.nodes.congruent_under(i, j, rn) implies rn(i, j) by {
            let ti = node_term(g.nodes, syms, i);
            let tj = node_term(g.nodes, syms, j);
            assert(g.nodes.symbols[i] < syms.len());
            assert(g.nodes.symbols[j] < syms.len());
            let ai = ti->App_1;
            let aj = tj->App_1;
            assert(ti->App_0 == tj->App_0);
            assert(ai.len() == aj.len());
            assert forall|k: int| 0 <= k < ai.len() implies r(ai[k], aj[k]) by {
                let ci = g.nodes.children[i][k];
                let cj = g.nodes.children[j][k];
                assert(0 <= ci < i);
                assert(0 <= cj < j);
                assert(rn(ci, cj));
            }
            assert(ti == TermV::App(ti->App_0, ai));
            assert(tj == TermV::App(ti->App_0, aj));
            assert(r(TermV::App(ti->App_0, ai), TermV::App(ti->App_0, aj)));
        }
        assert forall|k: int| 0 <= k < g.asserted.len() implies #[trigger] rn(g.asserted[k].0, g.asserted[k].1) by {
            let e = eq_src[k];
            assert(!c[e].0);
        }
        assert(g.nodes.is_congruence(rn));
        assert(respects(g.asserted, rn));
        assert(rn(a, b));
    }
    assert(entailed_in(c, ta, tb));
    assert(c[li].0);
}

impl QFEUFSolver {
    /// The abstract state of the graph.
    pub closed spec fn graph(&self) -> GraphView {
        self.congruence_graph@
    }

    /// The symbol table, in index order.
    pub closed spec fn symbols(&self) -> Seq<SymbolV> {
        self.symbol_table@.map_values(|f: FunctionSymbol| f@)
    }

    /// The graph is well formed and each node's symbol is in the table.
    pub closed spec fn wf(&self) -> bool {
        &&& self.congruence_graph.wf()
        &&& forall|n: int|
            0 <= n < self.graph().len() ==> #[trigger] self.graph().nodes.symbols[n]
                < self.symbol_table@.len()
        &&& first_occurrences(self.graph().nodes, self.symbols())
    }

    /// What a well-formed solver promises of its graph and symbol table:
    /// the graph keeps every promise of `GraphView::good`, each node's
    /// symbol is in the table, at the first place that holds it.
    pub proof fn lemma_good(&self)
        requires
            self.wf(),
        ensures
            self.graph().good(),
            forall|n: int| 0 <= n < self.graph().len() ==> #[trigger] self.graph().nodes.symbols[n] < self.symbols().len(),
            first_occurrences(self.graph().nodes, self.symbols()),
    {
        self.congruence_graph.lemma_good();
    }

    /// A solver with an empty graph whose symbol table is the function
    /// symbols of `language`, in order.
    pub fn new(language: &Language) -> (r: QFEUFSolver)
        ensures
            r.wf(),
            r.graph().len() == 0,
            r.graph().asserted.len() == 0,
            r.symbols() == language@,
    {
        let fs = language.iter_function_symbols();
        let mut table: Vec<FunctionSymbol> = Vec::new();
        let mut i: usize = 0;
        while i < fs.len()
            invariant
                i <= fs@.len(),
                fs@.len() == language@.len(),
                forall|j: int| 0 <= j < language@.len() ==> (#[trigger] fs@[j])@ == language@[j],
                table@.len() == i,
                forall|j: int| 0 <= j < i ==> (#[trigger] table@[j])@ == language@[j],
            decreases fs@.len() - i,
        {
            table.push(fs[i].copy());
            i = i + 1;
        }
        let r = QFEUFSolver { congruence_graph: CongruenceGraph::new(), symbol_table: table };
        assert(r.symbols() =~= language@);
        r
    }

    /// The index of `symbol` in the table, appending it if it is not there.
    pub fn add_symbol(&mut self, symbol: &FunctionSymbol) -> (r: SymbolIndex)
        requires
            old(self).wf(),
        ensures
            final(self).wf(),
            final(self).graph() == old(self).graph(),
            r < final(self).symbols().len(),
            final(self).symbols()[r as int] == symbol@,
            forall|i: int| 0 <= i < r ==> #[trigger] final(self).symbols()[i] != symbol@,
            old(self).symbols().contains(symbol@) ==> final(self).symbols() == old(self).symbols(),
            !old(self).symbols().contains(symbol@) ==> final(self).symbols() == old(self).symbols().push(symbol@),
            grows_by(old(self).symbols(), final(self).symbols(), set![symbol@]),
    {
        let ghost s0 = self.symbols();
        let mut i: usize = 0;
        while i < self.symbol_table.len()
            invariant
                i <= self.symbol_table@.len(),
                self.wf(),
                self.congruence_graph == old(self).congruence_graph,
                self.symbol_table@ == old(self).symbol_table@,
                s0 == self.symbols(),
                forall|j: int| 0 <= j < i ==> #[trigger] s0[j] != symbol@,
            decreases self.symbol_table@.len() - i,
        {
            if self.symbol_table[i] == *symbol {
                return i;
            }
            i = i + 1;
        }
        proof {
            assert forall|a: int, b: int| s0.len() <= a < s0.len() && 0 <= b < s0.len() && a != b implies #[trigger] s0[a]
                != #[trigger] s0[b] by {}
        }
        let ghost before = self.symbol_table@.len();
        let ghost g = self.graph();
        assert(forall|n: int| 0 <= n < g.len() ==> #[trigger] g.nodes.symbols[n] < before);
        self.symbol_table.push(symbol.copy());
        proof {
            assert(self.graph() == g);
            assert(forall|n: int| 0 <= n < g.len() ==> #[trigger] g.nodes.symbols[n] < self.symbol_table@.len());
            assert(self.symbols() =~= s0.push(symbol@));
            assert(!s0.contains(symbol@));
            let s1 = self.symbols();
            assert forall|a: int, b: int| s0.len() <= a < s1.len() && 0 <= b < s1.len() && a != b implies #[trigger] s1[a]
                != #[trigger] s1[b] by {
                assert(s1[a] == symbol@);
                assert(s1[b] == s0[b]);
            }
        }
        i
    }

    /// The index of `symbol` in the table, if it is there.
    pub fn get_symbol_id(&self, symbol: &FunctionSymbol) -> (r: Option<SymbolIndex>)
        ensures
            r matches Some(i) ==> i < self.symbols().len() && self.symbols()[i as int] == symbol@,
            r is None ==> !self.symbols().contains(symbol@),
    {
        let mut i: usize = 0;
        while i < self.symbol_table.len()
            invariant
                i <= self.symbol_table@.len(),
                forall|j: int| 0 <= j < i ==> #[trigger] self.symbols()[j] != symbol@,
            decreases self.symbol_table@.len() - i,
        {
            if self.symbol_table[i] == *symbol {
                return Some(i);
            }
            i = i + 1;
        }
        None
    }

    /// Puts a ground term and all its subterms in the graph and returns the
    /// node standing for it.
    pub fn add_term(&mut self, term: &Term) -> (r: Result<NodeIndex, Unsupported>)
        requires
            old(self).wf(),
        ensures
            final(self).wf(),
            old(self).graph().grows_to(final(self).graph()),
            final(self).graph().asserted == old(self).graph().asserted,
            old(self).symbols().len() <= final(self).symbols().len(),
            forall|i: int|
                0 <= i < old(self).symbols().len() ==> #[trigger] final(self).symbols()[i] == old(
                    self,
                ).symbols()[i],
            match r {
                Ok(n) => {
                    &&& n < final(self).graph().len()
                    &&& is_ground(term@)
                    &&& node_term(final(self).graph().nodes, final(self).symbols(), n as int)
                        == term@
                    &&& final(self).graph().len() <= old(self).graph().len() + tsize(term@)
                },
                Err(Unsupported::Variable) => !is_ground(term@),
                Err(Unsupported::GraphFull) => old(self).graph().len() + tsize(term@) > usize::MAX,
            },
            grows_by(old(self).symbols(), final(self).symbols(), term_symbols(term@)),
            r matches Ok(n) ==> forall|m: int|
                0 <= m < old(self).graph().len() && #[trigger] node_term(old(self).graph().nodes, old(self).symbols(), m)
                    == term@ ==> n == m,
        decreases term,
    {
        proof {
            self.lemma_good();
        }
        match term {
            Term::Variable(_) => Err(Unsupported::Variable),
            Term::Application(symbol, arguments) => {
                let ghost args = terms_view(arguments@);
                let sl = arguments.as_slice();
                assert(sl@ == arguments@);
                let children = match self.add_terms(sl) {
                    Ok(c) => c,
                    Err(e) => {
                        proof {
                            assert(terms_view(sl@) == args);
                            lemma_grows_by_weaken(old(self).symbols(), self.symbols(), args_symbols(args), term_symbols(term@));
                            assert(tsize(term@) == 1 + args_size(args));
                            if e == Unsupported::Variable {
                                let j = choose|j: int| 0 <= j < arguments@.len() && !is_ground(#[trigger] arguments@[j]@);
                                assert(args[j] == arguments@[j]@);
                            }
                        }
                        return Err(e);
                    },
                };
                proof {
                    self.congruence_graph.lemma_good();
                    assert(tsize(term@) == 1 + args_size(args));
                    assert forall|j: int| 0 <= j < args.len() implies is_ground(#[trigger] args[j]) by {
                        assert(children@[j] < self.graph().len());
                        assert(args[j] == arguments@[j]@);
                        assert(is_ground(sl@[j]@));
                    }
                }
                proof {
                    assert(terms_view(sl@) == args);
                    lemma_grows_by_weaken(old(self).symbols(), self.symbols(), args_symbols(args), term_symbols(term@));
                }
                if self.congruence_graph.len() == usize::MAX {
                    return Err(Unsupported::GraphFull);
                }
                let ghost gb = self.graph();
                let ghost sb = self.symbols();
                let sym = self.add_symbol(symbol);
                proof {
                    lemma_grows_by_trans(
                        old(self).symbols(),
                        sb,
                        self.symbols(),
                        args_symbols(args),
                        set![symbol@],
                        term_symbols(term@),
                    );
                }
                let ghost sa0 = self.symbols();
                let n = self.congruence_graph.add_node(sym, &children);
                proof {
                    let g0 = old(self).graph();
                    let s0 = old(self).symbols();
                    assert forall|m: int|
                        0 <= m < g0.len() && #[trigger] node_term(g0.nodes, s0, m) == term@ implies n == m by {
                        let t = node_term(g0.nodes, s0, m);
                        let sm = g0.nodes.symbols[m];
                        assert(sm < s0.len());
                        assert(t->App_0 == symbol@);
                        assert(s0[sm as int] == symbol@);
                        // the symbol index is the one add_symbol gave back
                        assert(sa0[sm as int] == s0[sm as int]);
                        if (sym as int) < (sm as int) {
                            assert(sa0[sym as int] == s0[sym as int]);
                            assert(s0[sym as int] != s0[sm as int]);
                        }
                        assert(sm == sym as nat);
                        // its children are the nodes of the arguments
                        let cm = g0.nodes.children[m];
                        let tm = t->App_1;
                        assert(tm.len() == cm.len());
                        assert(tm =~= args);
                        assert forall|k: int| 0 <= k < cm.len() implies cm[k] == children@[k] as int by {
                            let c = cm[k];
                            assert(0 <= c < m);
                            assert(tm[k] == node_term(g0.nodes, s0, c));
                            assert(sl@[k]@ == args[k]);
                        }
                        assert(cm =~= crate::congruence::children_view(children@));
                        assert(gb.nodes.symbols[m] == sm);
                        assert(gb.nodes.children[m] == cm);
                    }
                }
                proof {
                    let ga = self.graph();
                    let sa = self.symbols();
                    assert forall|x: int| 0 <= x < ga.len() implies #[trigger] ga.nodes.symbols[x] < self.symbol_table@.len() by {
                        if x < gb.len() {
                            assert(gb.nodes.symbols[x] < sb.len());
                        }
                    }
                    crate::congruence::lemma_grows_trans(old(self).graph(), gb, ga);
                    let nn = n as int;
                    let cs = ga.nodes.children[nn];
                    assert(cs == crate::congruence::children_view(children@));
                    assert forall|k: int| 0 <= k < cs.len() implies cs[k] == children@[k] as int && 0 <= #[trigger] cs[k] < nn by {
                        assert(cs[k] == children@[k] as int);
                    }
                    let t = node_term(ga.nodes, sa, nn);
                    assert(t->App_0 == symbol@);
                    let a = t->App_1;
                    assert(a.len() == args.len());
                    assert forall|k: int| 0 <= k < a.len() implies a[k] == args[k] by {
                        assert(cs[k] == children@[k] as int);
                        assert(children@[k] < gb.len());
                        lemma_node_term_stable(gb.nodes, sb, ga.nodes, sa, children@[k] as int);
                    }
                    assert(a =~= args);
                }
                Ok(n)
            },
        }
    }

    /// Puts each of `terms` in the graph; the nodes come back in order.
    fn add_terms(&mut self, terms: &[Term]) -> (r: Result<Vec<NodeIndex>, Unsupported>)
        requires
            old(self).wf(),
        ensures
            final(self).wf(),
            old(self).graph().grows_to(final(self).graph()),
            final(self).graph().asserted == old(self).graph().asserted,
            old(self).symbols().len() <= final(self).symbols().len(),
            forall|i: int|
                0 <= i < old(self).symbols().len() ==> #[trigger] final(self).symbols()[i] == old(
                    self,
                ).symbols()[i],
            match r {
                Ok(c) => {
                    &&& c@.len() == terms@.len()
                    &&& forall|j: int|
                        0 <= j < c@.len() ==> (#[trigger] c@[j]) < final(self).graph().len() && is_ground(
                            terms@[j]@,
                        ) && node_term(final(self).graph().nodes, final(self).symbols(), c@[j] as int)
                            == terms@[j]@
                    &&& final(self).graph().len() <= old(self).graph().len() + args_size(terms_view(terms@))
                },
                Err(Unsupported::Variable) => exists|j: int|
                    0 <= j < terms@.len() && !is_ground(#[trigger] terms@[j]@),
                Err(Unsupported::GraphFull) => old(self).graph().len() + args_size(terms_view(terms@))
                    > usize::MAX,
            },
            grows_by(old(self).symbols(), final(self).symbols(), args_symbols(terms_view(terms@))),
            r matches Ok(c) ==> forall|j: int, m: int|
                0 <= j < c@.len() && 0 <= m < old(self).graph().len() && #[trigger] node_term(
                    old(self).graph().nodes,
                    old(self).symbols(),
                    m,
                ) == #[trigger] terms@[j]@ ==> c@[j] == m,
        decreases terms@,
    {
        proof {
            self.lemma_good();
            assert(terms_view(terms@).subrange(0, 0) =~= Seq::<TermV>::empty());
        }
        let ghost g0 = self.graph();
        let ghost s0 = self.symbols();
        let ghost args = terms_view(terms@);
        let mut children: Vec<NodeIndex> = Vec::new();
        let mut i: usize = 0;
        while i < terms.len()
            invariant
                self.wf(),
                g0 == old(self).graph(),
                s0 == old(self).symbols(),
                args == terms_view(terms@),
                i <= terms@.len(),
                g0.grows_to(self.graph()),
                self.graph().asserted == g0.asserted,
                s0.len() <= self.symbols().len(),
                forall|j: int| 0 <= j < s0.len() ==> #[trigger] self.symbols()[j] == s0[j],
                children@.len() == i,
                forall|j: int|
                    0 <= j < i ==> (#[trigger] children@[j]) < self.graph().len() && is_ground(terms@[j]@)
                        && node_term(self.graph().nodes, self.symbols(), children@[j] as int) == terms@[j]@,
                self.graph().len() <= g0.len() + args_size(args.subrange(0, i as int)),
                grows_by(s0, self.symbols(), args_symbols(args.subrange(0, i as int))),
                g0.nodes.ordered(),
                forall|x: int| 0 <= x < g0.len() ==> #[trigger] g0.nodes.symbols[x] < s0.len(),
                forall|j: int, m: int|
                    0 <= j < i && 0 <= m < g0.len() && #[trigger] node_term(g0.nodes, s0, m)
                        == #[trigger] terms@[j]@ ==> children@[j] == m,
            decreases terms@.len() - i,
        {
            proof {
                assert(args[i as int] == terms@[i as int]@);
                lemma_args_size_step(args, i as int);
                lemma_args_size_prefix(args, i as int + 1);
            }
            proof {
                self.congruence_graph.lemma_good();
            }
            let ghost gb = self.graph();
            let ghost sb = self.symbols();
            let res = self.add_term(&terms[i]);
            proof {
                let ga = self.graph();
                crate::congruence::lemma_grows_trans(g0, gb, ga);
                assert forall|j: int| 0 <= j < s0.len() implies #[trigger] self.symbols()[j] == s0[j] by {
                    assert(sb[j] == s0[j]);
                }
                lemma_args_symbols_step(args, i as int);
                lemma_args_symbols_prefix(args, i as int + 1);
                lemma_grows_by_trans(
                    s0,
                    sb,
                    self.symbols(),
                    args_symbols(args.subrange(0, i as int)),
                    term_symbols(args[i as int]),
                    args_symbols(args.subrange(0, i as int + 1)),
                );
                lemma_grows_by_weaken(s0, self.symbols(), args_symbols(args.subrange(0, i as int + 1)), args_symbols(args));
            }
            match res {
                Ok(c) => {
                    proof {
                        let ga = self.graph();
                        self.congruence_graph.lemma_good();
                        assert forall|j: int| 0 <= j < i implies (#[trigger] children@[j]) < ga.len()
                            && node_term(ga.nodes, self.symbols(), children@[j] as int) == terms@[j]@ by {
                            lemma_node_term_stable(gb.nodes, sb, ga.nodes, self.symbols(), children@[j] as int);
                        }
                    }
                    let ghost before = children@;
                    children.push(c);
                    proof {
                        assert forall|j: int, m: int|
                            0 <= j < i + 1 && 0 <= m < g0.len() && #[trigger] node_term(g0.nodes, s0, m)
                                == #[trigger] terms@[j]@ implies children@[j] == m by {
                            if j < i {
                                assert(children@[j] == before[j]);
                            } else {
                                lemma_node_term_stable(g0.nodes, s0, gb.nodes, sb, m);
                            }
                        }
                    }
                },
                Err(e) => {
                    proof {
                        if e == Unsupported::Variable {
                            assert(!is_ground(terms@[i as int]@));
                        }
                    }
                    return Err(e);
                },
            }
            i = i + 1;
        }
        proof {
            assert(args.subrange(0, terms@.len() as int) =~= args);
        }
        Ok(children)
    }

    /// Whether the nodes are in one class.
    pub fn check_equality(&self, node1: NodeIndex, node2: NodeIndex) -> (r: bool)
        requires
            self.wf(),
            node1 < self.graph().len(),
            node2 < self.graph().len(),
        ensures
            r == self.graph().same(node1 as int, node2 as int),
    {
        self.congruence_graph.same_class(node1, node2)
    }

    /// Asserts the nodes equal.
    pub fn add_equality(&mut self, node1: NodeIndex, node2: NodeIndex)
        requires
            old(self).wf(),
            node1 < old(self).graph().len(),
            node2 < old(self).graph().len(),
        ensures
            final(self).wf(),
            final(self).symbols() == old(self).symbols(),
            final(self).graph().nodes == old(self).graph().nodes,
            final(self).graph().asserted == old(self).graph().asserted.push(
                (node1 as int, node2 as int),
            ),
            old(self).graph().grows_to(final(self).graph()),
            final(self).graph().same(node1 as int, node2 as int),
            final(self).graph().good(),
    {
        self.congruence_graph.merge_congruence_classes(node1, node2);
    }

    /// Flips the sign of every literal.
    pub fn flip_literals(clauses: &mut ClauseList)
        ensures
            clauses_view(final(clauses)@) == flip(clauses_view(old(clauses)@)),
    {
        flip_clauses(clauses)
    }

    /// A copy of `clause`.
    pub fn clone_clause(clause: &Clause) -> (r: Clause)
        ensures
            clause_view(r@) == clause_view(clause@),
    {
        copy_clause(clause)
    }

    /// Conjunctive normal form of the Boolean skeleton of `formula`.
    pub fn to_cnf(formula: &Formula) -> (r: ClauseList)
        ensures
            clauses_view(r@) == cnf(formula@),
        decreases formula,
    {
        match formula {
            Formula::Negation(g) => {
                let mut c = Self::to_dnf(g);
                Self::flip_literals(&mut c);
                c
            },
            Formula::Implication(l, r) => {
                let mut a = Self::to_dnf(l);
                Self::flip_literals(&mut a);
                let b = Self::to_cnf(r);
                product_clauses(&a, &b)
            },
            Formula::Equivalence(l, r) => {
                let mut a = Self::to_dnf(l);
                Self::flip_literals(&mut a);
                let b = Self::to_cnf(r);
                let mut c = Self::to_dnf(r);
                Self::flip_literals(&mut c);
                let d = Self::to_cnf(l);
                concat_lists(product_clauses(&a, &b), product_clauses(&c, &d))
            },
            Formula::Conjunction(fs) => Self::cnf_of_conjuncts(fs.as_slice()),
            Formula::Disjunction(fs) => Self::cnf_of_disjuncts(fs.as_slice()),
            _ => single_literal(formula),
        }
    }

    fn cnf_of_conjuncts(fs: &[Formula]) -> (r: ClauseList)
        ensures
            clauses_view(r@) == cnf_and(formulas_view(fs@)),
        decreases fs@,
    {
        if fs.len() == 0 {
            return no_clause();
        }
        proof {
            lemma_formulas_subrange(fs@);
        }
        let first = Self::to_cnf(&fs[0]);
        let rest = Self::cnf_of_conjuncts(&fs[1..fs.len()]);
        concat_lists(first, rest)
    }

    fn cnf_of_disjuncts(fs: &[Formula]) -> (r: ClauseList)
        ensures
            clauses_view(r@) == cnf_or(formulas_view(fs@)),
        decreases fs@,
    {
        if fs.len() == 0 {
            return one_empty_clause();
        }
        proof {
            lemma_formulas_subrange(fs@);
        }
        let first = Self::to_cnf(&fs[0]);
        let rest = Self::cnf_of_disjuncts(&fs[1..fs.len()]);
        product_clauses(&first, &rest)
    }

    /// Disjunctive normal form of the Boolean skeleton of `formula`.
    pub fn to_dnf(formula: &Formula) -> (r: ClauseList)
        ensures
            clauses_view(r@) == dnf(formula@),
        decreases formula,
    {
        match formula {
            Formula::Negation(g) => {
                let mut c = Self::to_cnf(g);
                Self::flip_literals(&mut c);
                c
            },
            Formula::Implication(l, r) => {
                let mut a = Self::to_cnf(l);
                Self::flip_literals(&mut a);
                concat_lists(a, Self::to_dnf(r))
            },
            Formula::Equivalence(l, r) => {
                let mut a = Self::to_cnf(l);
                Self::flip_literals(&mut a);
                let left = concat_lists(a, Self::to_dnf(r));
                let mut b = Self::to_cnf(r);
                Self::flip_literals(&mut b);
                let right = concat_lists(b, Self::to_dnf(l));
                product_clauses(&left, &right)
            },
            Formula::Conjunction(fs) => Self::dnf_of_conjuncts(fs.as_slice()),
            Formula::Disjunction(fs) => Self::dnf_of_disjuncts(fs.as_slice()),
            _ => single_literal(formula),
        }
    }

    fn dnf_of_conjuncts(fs: &[Formula]) -> (r: ClauseList)
        ensures
            clauses_view(r@) == dnf_and(formulas_view(fs@)),
        decreases fs@,
    {
        if fs.len() == 0 {
            return one_empty_clause();
        }
        proof {
            lemma_formulas_subrange(fs@);
        }
        let first = Self::to_dnf(&fs[0]);
        let rest = Self::dnf_of_conjuncts(&fs[1..fs.len()]);
        product_clauses(&first, &rest)
    }

    fn dnf_of_disjuncts(fs: &[Formula]) -> (r: ClauseList)
        ensures
            clauses_view(r@) == dnf_or(formulas_view(fs@)),
        decreases fs@,
    {
        if fs.len() == 0 {
            return no_clause();
        }
        proof {
            lemma_formulas_subrange(fs@);
        }
        let first = Self::to_dnf(&fs[0]);
        let rest = Self::dnf_of_disjuncts(&fs[1..fs.len()]);
        concat_lists(first, rest)
    }

    /// Decides one clause: `Unsat` when one of its negated equalities follows
    /// from its unnegated ones by congruence, `Unknown` when a literal is not
    /// an equality of ground terms (or the terms do not fit in a graph), `Sat`
    /// otherwise, and then the classes of the graph are a model of the clause.
    pub fn clause_sat(language: &Language, clause: &Clause) -> (r: SatResult)
        ensures
            r == SatResult::Unknown ==> !clause_in_fragment(clause_view(clause@)) || clause_size(
                clause_view(clause@),
            ) > usize::MAX,
            r == SatResult::Unsat ==> clause_refuted(clause_view(clause@)),
            r == SatResult::Sat ==> clause_in_fragment(clause_view(clause@)) && exists|
                interp: spec_fn(SymbolV, Seq<ModelValue>) -> ModelValue,
                env: spec_fn(VarV) -> ModelValue,
            | all_lits(clause_view(clause@), #[trigger] equality_atoms(interp, env)),
            r == SatResult::Sat ==> !clause_refuted(clause_view(clause@)),
    {
        let ghost cv = clause_view(clause@);
        let mut solver = QFEUFSolver::new(language);
        let mut equalities: Vec<(NodeIndex, NodeIndex)> = Vec::new();
        let mut negated_equalities: Vec<(NodeIndex, NodeIndex)> = Vec::new();
        // the nodes of each literal, and its place in one of the two lists
        let ghost mut pairs: Seq<(int, int)> = Seq::empty();
        let ghost mut slot: Seq<int> = Seq::empty();
        let ghost mut eq_src: Seq<int> = Seq::empty();
        let ghost mut neq_src: Seq<int> = Seq::empty();
        let mut i: usize = 0;
        while i < clause.len()
            invariant
                cv == clause_view(clause@),
                i <= clause@.len(),
                solver.wf(),
                solver.graph().asserted.len() == 0,
                solver.graph().len() <= clause_size(cv.subrange(0, i as int)),
                forall|j: int| 0 <= j < i ==> is_ground_equality((#[trigger] cv[j]).1),
                pairs.len() == i,
                slot.len() == i,
                forall|j: int|
                    0 <= j < i ==> 0 <= (#[trigger] pairs[j]).0 < solver.graph().len() && 0 <= pairs[j].1
                        < solver.graph().len() && cv[j].1 == FormulaV::Eq(
                        node_term(solver.graph().nodes, solver.symbols(), pairs[j].0),
                        node_term(solver.graph().nodes, solver.symbols(), pairs[j].1),
                    ),
                forall|j: int|
                    0 <= j < i ==> if !cv[j].0 {
                        0 <= #[trigger] slot[j] < equalities@.len() && (
                            equalities@[slot[j]].0 as int,
                            equalities@[slot[j]].1 as int,
                        ) == pairs[j]
                    } else {
                        0 <= slot[j] < negated_equalities@.len() && (
                            negated_equalities@[slot[j]].0 as int,
                            negated_equalities@[slot[j]].1 as int,
                        ) == pairs[j]
                    },
                eq_src.len() == equalities@.len(),
                forall|k: int|
                    0 <= k < eq_src.len() ==> 0 <= #[trigger] eq_src[k] < i && !cv[eq_src[k]].0 && (
                        equalities@[k].0 as int,
                        equalities@[k].1 as int,
                    ) == pairs[eq_src[k]],
                neq_src.len() == negated_equalities@.len(),
                forall|k: int|
                    0 <= k < neq_src.len() ==> 0 <= #[trigger] neq_src[k] < i && cv[neq_src[k]].0 && (
                        negated_equalities@[k].0 as int,
                        negated_equalities@[k].1 as int,
                    ) == pairs[neq_src[k]],
            decreases clause@.len() - i,
        {
            proof {
                lemma_clause_size_step(cv, i as int);
                lemma_clause_size_prefix(cv, i as int + 1);
                assert(cv[i as int] == (clause@[i as int].0, clause@[i as int].1@));
            }
            let negated = clause[i].0;
            match &clause[i].1 {
                Formula::Equality(left, right) => {
                    let ghost g0 = solver.graph();
                    let ghost s0 = solver.symbols();
                    proof {
                        solver.congruence_graph.lemma_good();
                    }
                    let a = match solver.add_term(left) {
                        Ok(a) => a,
                        Err(_) => {
                            return SatResult::Unknown;
                        },
                    };
                    let ghost g1 = solver.graph();
                    let ghost s1 = solver.symbols();
                    proof {
                        solver.congruence_graph.lemma_good();
                    }
                    let b = match solver.add_term(right) {
                        Ok(b) => b,
                        Err(_) => {
                            return SatResult::Unknown;
                        },
                    };
                    let ghost g2 = solver.graph();
                    let ghost s2 = solver.symbols();
                    proof {
                        solver.congruence_graph.lemma_good();
                        crate::congruence::lemma_grows_trans(g0, g1, g2);
                        assert forall|x: int| 0 <= x < g0.len() implies node_term(g2.nodes, s2, x) == node_term(g0.nodes, s0, x) by {
                            assert forall|j: int| 0 <= j < s0.len() implies #[trigger] s2[j] == s0[j] by {
                                assert(s1[j] == s0[j]);
                            }
                            lemma_node_term_stable(g0.nodes, s0, g2.nodes, s2, x);
                        }
                        lemma_node_term_stable(g1.nodes, s1, g2.nodes, s2, a as int);
                    }
                    let ghost old_pairs = pairs;
                    let ghost old_slot = slot;
                    let ghost old_src = eq_src;
                    let ghost old_nsrc = neq_src;
                    let ghost n_eq = equalities@.len();
                    let ghost n_neq = negated_equalities@.len();
                    if negated {
                        proof {
                            slot = slot.push(n_neq as int);
                            neq_src = neq_src.push(i as int);
                        }
                        negated_equalities.push((a, b));
                    } else {
                        proof {
                            slot = slot.push(n_eq as int);
                            eq_src = eq_src.push(i as int);
                        }
                        equalities.push((a, b));
                    }
                    proof {
                        pairs = pairs.push((a as int, b as int));
                        assert forall|j: int|
                            0 <= j < i + 1 implies 0 <= (#[trigger] pairs[j]).0 < solver.graph().len() && 0 <= pairs[j].1
                                < solver.graph().len() && cv[j].1 == FormulaV::Eq(
                                node_term(solver.graph().nodes, solver.symbols(), pairs[j].0),
                                node_term(solver.graph().nodes, solver.symbols(), pairs[j].1),
                            ) by {
                            if j < i {
                                assert(pairs[j] == old_pairs[j]);
                            }
                        }
                        assert forall|j: int| 0 <= j < i + 1 implies if !cv[j].0 {
                            0 <= #[trigger] slot[j] < equalities@.len() && (
                                equalities@[slot[j]].0 as int,
                                equalities@[slot[j]].1 as int,
                            ) == pairs[j]
                        } else {
                            0 <= slot[j] < negated_equalities@.len() && (
                                negated_equalities@[slot[j]].0 as int,
                                negated_equalities@[slot[j]].1 as int,
                            ) == pairs[j]
                        } by {
                            if j < i {
                                assert(slot[j] == old_slot[j]);
                                assert(pairs[j] == old_pairs[j]);
                            }
                        }
                        assert forall|k: int|
                            0 <= k < eq_src.len() implies 0 <= #[trigger] eq_src[k] < i + 1 && !cv[eq_src[k]].0 && (
                                equalities@[k].0 as int,
                                equalities@[k].1 as int,
                            ) == pairs[eq_src[k]] by {
                            if k < old_src.len() {
                                assert(eq_src[k] == old_src[k]);
                            }
                        }
                        assert forall|k: int|
                            0 <= k < neq_src.len() implies 0 <= #[trigger] neq_src[k] < i + 1 && cv[neq_src[k]].0 && (
                                negated_equalities@[k].0 as int,
                                negated_equalities@[k].1 as int,
                            ) == pairs[neq_src[k]] by {
                            if k < old_nsrc.len() {
                                assert(neq_src[k] == old_nsrc[k]);
                            }
                        }
                    }
                },
                _ => {
                    return SatResult::Unknown;
                },
            }
            i = i + 1;
        }
        let ghost g1 = solver.graph();
        let ghost s1 = solver.symbols();
        proof {
            assert(cv.subrange(0, i as int) =~= cv);
            assert(clause_in_fragment(cv));
        }
        let mut k: usize = 0;
        while k < equalities.len()
            invariant
                solver.wf(),
                solver.graph().nodes == g1.nodes,
                solver.symbols() == s1,
                g1.len() == solver.graph().len(),
                cv == clause_view(clause@),
                clause_in_fragment(cv),
                pairs.len() == cv.len(),
                slot.len() == cv.len(),
                forall|j: int|
                    0 <= j < cv.len() ==> 0 <= (#[trigger] pairs[j]).0 < g1.len() && 0 <= pairs[j].1 < g1.len()
                        && cv[j].1 == FormulaV::Eq(
                        node_term(g1.nodes, s1, pairs[j].0),
                        node_term(g1.nodes, s1, pairs[j].1),
                    ),
                forall|j: int|
                    0 <= j < cv.len() ==> if !cv[j].0 {
                        0 <= #[trigger] slot[j] < equalities@.len() && (
                            equalities@[slot[j]].0 as int,
                            equalities@[slot[j]].1 as int,
                        ) == pairs[j]
                    } else {
                        0 <= slot[j] < negated_equalities@.len() && (
                            negated_equalities@[slot[j]].0 as int,
                            negated_equalities@[slot[j]].1 as int,
                        ) == pairs[j]
                    },
                eq_src.len() == equalities@.len(),
                forall|m: int|
                    0 <= m < eq_src.len() ==> 0 <= #[trigger] eq_src[m] < cv.len() && !cv[eq_src[m]].0 && (
                        equalities@[m].0 as int,
                        equalities@[m].1 as int,
                    ) == pairs[eq_src[m]],
                neq_src.len() == negated_equalities@.len(),
                forall|m: int|
                    0 <= m < neq_src.len() ==> 0 <= #[trigger] neq_src[m] < cv.len() && cv[neq_src[m]].0 && (
                        negated_equalities@[m].0 as int,
                        negated_equalities@[m].1 as int,
                    ) == pairs[neq_src[m]],
                k <= equalities@.len(),
                solver.graph().asserted.len() == k,
                forall|m: int|
                    0 <= m < k ==> #[trigger] solver.graph().asserted[m] == (
                        equalities@[m].0 as int,
                        equalities@[m].1 as int,
                    ),
            decreases equalities@.len() - k,
        {
            let ghost before = solver.graph().asserted;
            proof {
                let e = eq_src[k as int];
                assert(0 <= pairs[e].0 < g1.len());
            }
            solver.add_equality(equalities[k].0, equalities[k].1);
            proof {
                assert forall|m: int| 0 <= m < k + 1 implies #[trigger] solver.graph().asserted[m] == (
                    equalities@[m].0 as int,
                    equalities@[m].1 as int,
                ) by {
                    if m < k {
                        assert(before[m] == solver.graph().asserted[m]);
                    }
                }
            }
            k = k + 1;
        }
        let mut k: usize = 0;
        while k < negated_equalities.len()
            invariant
                solver.wf(),
                solver.graph().nodes == g1.nodes,
                solver.symbols() == s1,
                g1.len() == solver.graph().len(),
                cv == clause_view(clause@),
                clause_in_fragment(cv),
                pairs.len() == cv.len(),
                slot.len() == cv.len(),
                forall|j: int|
                    0 <= j < cv.len() ==> 0 <= (#[trigger] pairs[j]).0 < g1.len() && 0 <= pairs[j].1 < g1.len()
                        && cv[j].1 == FormulaV::Eq(
                        node_term(g1.nodes, s1, pairs[j].0),
                        node_term(g1.nodes, s1, pairs[j].1),
                    ),
                forall|j: int|
                    0 <= j < cv.len() ==> if !cv[j].0 {
                        0 <= #[trigger] slot[j] < equalities@.len() && (
                            equalities@[slot[j]].0 as int,
                            equalities@[slot[j]].1 as int,
                        ) == pairs[j]
                    } else {
                        0 <= slot[j] < negated_equalities@.len() && (
                            negated_equalities@[slot[j]].0 as int,
                            negated_equalities@[slot[j]].1 as int,
                        ) == pairs[j]
                    },
                eq_src.len() == equalities@.len(),
                forall|m: int|
                    0 <= m < eq_src.len() ==> 0 <= #[trigger] eq_src[m] < cv.len() && !cv[eq_src[m]].0 && (
                        equalities@[m].0 as int,
                        equalities@[m].1 as int,
                    ) == pairs[eq_src[m]],
                solver.graph().asserted.len() == equalities@.len(),
                forall|m: int|
                    0 <= m < equalities@.len() ==> #[trigger] solver.graph().asserted[m] == (
                        equalities@[m].0 as int,
                        equalities@[m].1 as int,
                    ),
                neq_src.len() == negated_equalities@.len(),
                forall|m: int|
                    0 <= m < neq_src.len() ==> 0 <= #[trigger] neq_src[m] < cv.len() && cv[neq_src[m]].0 && (
                        negated_equalities@[m].0 as int,
                        negated_equalities@[m].1 as int,
                    ) == pairs[neq_src[m]],
                k <= negated_equalities@.len(),
                forall|m: int|
                    0 <= m < k ==> !solver.graph().same(
                        (#[trigger] negated_equalities@[m]).0 as int,
                        negated_equalities@[m].1 as int,
                    ),
            decreases negated_equalities@.len() - k,
        {
            let (a, b) = negated_equalities[k];
            proof {
                let e = neq_src[k as int];
                assert(0 <= pairs[e].0 < g1.len());
            }
            if solver.check_equality(a, b) {
                proof {
                    let g = solver.graph();
                    solver.congruence_graph.lemma_good();
                    assert forall|m: int| 0 <= m < eq_src.len() implies 0 <= #[trigger] eq_src[m] < cv.len() && !cv[eq_src[m]].0
                        && cv[eq_src[m]].1 == FormulaV::Eq(
                        node_term(g.nodes, s1, g.asserted[m].0),
                        node_term(g.nodes, s1, g.asserted[m].1),
                    ) by {
                        assert(g.asserted[m] == (equalities@[m].0 as int, equalities@[m].1 as int));
                        assert(pairs[eq_src[m]] == pairs[eq_src[m]]);
                    }
                    let li = neq_src[k as int];
                    lemma_clause_refuted(cv, g, s1, eq_src, a as int, b as int, li);
                }
                return SatResult::Unsat;
            }
            k = k + 1;
        }
        proof {
            let g = solver.graph();
            solver.congruence_graph.lemma_good();
            let interp = graph_interp(g, s1);
            let env = free_env();
            let atom = equality_atoms(interp, env);
            assert forall|j: int| 0 <= j < cv.len() implies lit_holds(#[trigger] cv[j], atom) by {
                let (a, b) = pairs[j];
                assert(0 <= pairs[j].0 < g1.len());
                lemma_eval_node_term(g, s1, a);
                lemma_eval_node_term(g, s1, b);
                assert(slot[j] == slot[j]);
                if !cv[j].0 {
                    let m = slot[j];
                    assert(g.asserted[m] == (a, b));
                    assert(g.same(a, b));
                } else {
                    let m = slot[j];
                    assert(!g.same(negated_equalities@[m].0 as int, negated_equalities@[m].1 as int));
                }
            }
            assert(all_lits(cv, atom));
            assert forall|t: TermV, u: TermV| #[trigger] atom(FormulaV::Eq(t, u)) == (eval(t, interp, env) == eval(
                u,
                interp,
                env,
            )) by {}
            if clause_refuted(cv) {
                lemma_refuted_clause_false(cv, interp, env, atom);
            }
        }
        SatResult::Sat
    }

    /// Decides `formula`: `Sat` as soon as one clause of its disjunctive
    /// normal form is, else `Unknown` if one clause is, else `Unsat`.
    pub fn sat(language: &Language, formula: &Formula) -> (r: SatResult)
        ensures
            r == SatResult::Unsat ==> refuted(formula@),
            r == SatResult::Unknown ==> exists|i: int|
                0 <= i < dnf(formula@).len() && (!clause_in_fragment(#[trigger] dnf(formula@)[i])
                    || clause_size(dnf(formula@)[i]) > usize::MAX),
            r == SatResult::Unknown ==> forall|i: int|
                0 <= i < dnf(formula@).len() ==> clause_refuted(#[trigger] dnf(formula@)[i])
                    || !clause_in_fragment(dnf(formula@)[i]) || clause_size(dnf(formula@)[i]) > usize::MAX,
            r == SatResult::Sat ==> exists|
                interp: spec_fn(SymbolV, Seq<ModelValue>) -> ModelValue,
                env: spec_fn(VarV) -> ModelValue,
            | holds(formula@, #[trigger] equality_atoms(interp, env)),
            r == SatResult::Sat ==> exists|i: int|
                0 <= i < dnf(formula@).len() && clause_in_fragment(#[trigger] dnf(formula@)[i])
                    && !clause_refuted(dnf(formula@)[i]),
            equational(formula@) && (forall|i: int|
                0 <= i < dnf(formula@).len() ==> clause_size(#[trigger] dnf(formula@)[i]) <= usize::MAX)
                ==> r != SatResult::Unknown,
    {
        let dnf_clauses = Self::to_dnf(formula);
        let ghost d = dnf(formula@);
        let mut unknown = false;
        let ghost mut unknown_at: int = 0;
        let mut i: usize = 0;
        while i < dnf_clauses.len()
            invariant
                d == dnf(formula@),
                clauses_view(dnf_clauses@) == d,
                i <= dnf_clauses@.len(),
                forall|j: int|
                    0 <= j < i ==> clause_refuted(#[trigger] d[j]) || !clause_in_fragment(d[j])
                        || clause_size(d[j]) > usize::MAX,
                !unknown ==> forall|j: int| 0 <= j < i ==> clause_refuted(#[trigger] d[j]),
                unknown ==> 0 <= unknown_at < d.len() && (!clause_in_fragment(d[unknown_at])
                    || clause_size(d[unknown_at]) > usize::MAX),
            decreases dnf_clauses@.len() - i,
        {
            let res = Self::clause_sat(language, &dnf_clauses[i]);
            proof {
                assert(d[i as int] == clause_view(dnf_clauses@[i as int]@));
            }
            match res {
                SatResult::Sat => {
                    proof {
                        let c = d[i as int];
                        let (interp, env) = choose|
                            interp: spec_fn(SymbolV, Seq<ModelValue>) -> ModelValue,
                            env: spec_fn(VarV) -> ModelValue,
                        | all_lits(c, #[trigger] equality_atoms(interp, env));
                        let atom = equality_atoms(interp, env);
                        assert(all_lits(d[i as int], atom));
                        assert(dnf_holds(d, atom));
                        lemma_normal_forms_equivalent(formula@, atom);
                        assert(clause_in_fragment(d[i as int]) && !clause_refuted(d[i as int]));
                    }
                    return SatResult::Sat;
                },
                SatResult::Unknown => {
                    unknown = true;
                    proof {
                        unknown_at = i as int;
                    }
                },
                SatResult::Unsat => {},
            }
            i = i + 1;
        }
        if unknown {
            proof {
                if equational(formula@) {
                    lemma_equational_fragment(formula@);
                    assert(clause_in_fragment(d[unknown_at]));
                }
            }
            SatResult::Unknown
        } else {
            SatResult::Unsat
        }
    }
}

} // verus!
