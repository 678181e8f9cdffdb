//! The surface syntax of quantifier-free formulas over one sort:
//!
//! ```text
//! formula      := disjunction ( "->" disjunction )?
//! disjunction  := conjunction ( "\/" conjunction )*
//! conjunction  := unary       ( "/\" unary )*
//! unary        := "!" atomic | atomic
//! atomic       := term "=" term | term "!=" term | "(" formula ")"
//! term         := identifier ( "(" term ("," term)* ")" )?
//! identifier   := alphanumeric+
//! ```
//!
//! White space may stand around every token. Function symbols are made as
//! they are met; the first occurrence of a name fixes its arity.
use vstd::prelude::*;
use vstd::string::{axiom_spec_iter, next_postcondition};
use vstd::std_specs::iter::IteratorSpec;
use crate::fol::{Formula, FormulaV, FunctionSymbol, Language, Sort, SymbolV, Term, TermV, formulas_view, terms_view};
use crate::solver::{equational, is_ground};

verus! {

pub open spec fn is_space(c: char) -> bool {
    c == ' ' || c == '\t' || c == '\n' || c == '\r'
}

pub open spec fn is_alnum(c: char) -> bool {
    ('a' <= c && c <= 'z') || ('A' <= c && c <= 'Z') || ('0' <= c && c <= '9')
}

/// `s[i..j]` is white space.
pub open spec fn spaces(s: Seq<char>, i: int, j: int) -> bool {
    0 <= i <= j <= s.len() && forall|k: int| i <= k < j ==> is_space(#[trigger] s[k])
}

/// `s[i..j]` is the token `t` with white space around it.
pub open spec fn token(s: Seq<char>, i: int, j: int, t: Seq<char>) -> bool {
    exists|k: int|
        spaces(s, i, k) && k + t.len() <= j && #[trigger] s.subrange(k, k + t.len()) == t && spaces(
            s,
            k + t.len(),
            j,
        )
}

/// `s[i..j]` is an identifier.
pub open spec fn ident(s: Seq<char>, i: int, j: int) -> bool {
    0 <= i < j <= s.len() && forall|k: int| i <= k < j ==> is_alnum(#[trigger] s[k])
}

/// The function symbol named `name` with `n` arguments, all of sort `sort`.
pub open spec fn symbol_for(name: Seq<char>, n: nat, sort: Seq<char>) -> SymbolV {
    SymbolV { name, inputs: Seq::new(n, |i: int| sort), output: sort }
}

/// The first position at or after `i` that is not white space.
pub open spec fn skip(s: Seq<char>, i: int) -> int
    decreases s.len() - i,
{
    if 0 <= i < s.len() && is_space(s[i]) {
        skip(s, i + 1)
    } else {
        i
    }
}

/// Where the token `t`, with white space around it, ends when it stands at `i`.
pub open spec fn tag_at(s: Seq<char>, i: int, t: Seq<char>) -> Option<int> {
    let k = skip(s, i);
    if k + t.len() <= s.len() && s.subrange(k, k + t.len()) == t {
        Some(skip(s, k + t.len()))
    } else {
        None
    }
}

pub open spec fn alnum_end(s: Seq<char>, i: int) -> int
    decreases s.len() - i,
{
    if 0 <= i < s.len() && is_alnum(s[i]) {
        alnum_end(s, i + 1)
    } else {
        i
    }
}

/// Where the identifier that starts at `i` ends.
pub open spec fn ident_at(s: Seq<char>, i: int) -> Option<int> {
    let k = alnum_end(s, i);
    if k > i {
        Some(k)
    } else {
        None
    }
}

/// The symbols made so far, and whether a name has met two arities.
pub struct ParseState {
    pub table: Seq<SymbolV>,
    pub failed: bool,
}

/// The symbol `name` with `n` arguments: the one in the table, or a new
/// one appended; none, and the state marked failed, when the name is in the
/// table with another arity.
pub open spec fn intern(st: ParseState, name: Seq<char>, n: nat, sort: Seq<char>) -> (Option<SymbolV>, ParseState) {
    if exists|i: int| 0 <= i < st.table.len() && (#[trigger] st.table[i]).name == name {
        let i = choose|i: int| 0 <= i < st.table.len() && (#[trigger] st.table[i]).name == name;
        if st.table[i].inputs.len() == n {
            (Some(st.table[i]), st)
        } else {
            (None, ParseState { table: st.table, failed: true })
        }
    } else {
        let f = symbol_for(name, n, sort);
        (Some(f), ParseState { table: st.table.push(f), failed: st.failed })
    }
}

/// A term at `i`: where it ends, and the state after it. Each of the
/// functions below reads one rule of the syntax the same way, trying
/// alternatives in order.
pub open spec fn term_at(s: Seq<char>, i: int, sort: Seq<char>, st: ParseState) -> (Option<(int, TermV)>, ParseState)
    decreases s.len() - i, 0int,
{
    if 0 <= i <= s.len() {
        match ident_at(s, i) {
            None => (None, st),
            Some(k) => {
                let (ra, st1) = if i < k <= s.len() {
                    args_at(s, k, sort, st)
                } else {
                    (None, st)
                };
                let (j, args) = match ra {
                    Some((j, a)) => (j, a),
                    None => (k, Seq::empty()),
                };
                let (rf, st2) = intern(st1, s.subrange(i, k), args.len(), sort);
                match rf {
                    None => (None, st2),
                    Some(f) => (Some((j, TermV::App(f, args))), st2),
                }
            },
        }
    } else {
        (None, st)
    }
}

pub open spec fn args_at(s: Seq<char>, i: int, sort: Seq<char>, st: ParseState) -> (Option<(int, Seq<TermV>)>, ParseState)
    decreases s.len() - i, 3int,
{
    if 0 <= i <= s.len() {
        match tag_at(s, i, seq!['(']) {
            None => (None, st),
            Some(p) => if i <= p <= s.len() {
                let (rt, st1) = terms_at(s, p, sort, st);
                match rt {
                    None => (None, st1),
                    Some((q, ts)) => match tag_at(s, q, seq![')']) {
                        None => (None, st1),
                        Some(j) => (Some((j, ts)), st1),
                    },
                }
            } else {
                (None, st)
            },
        }
    } else {
        (None, st)
    }
}

pub open spec fn terms_at(s: Seq<char>, i: int, sort: Seq<char>, st: ParseState) -> (Option<(int, Seq<TermV>)>, ParseState)
    decreases s.len() - i, 2int,
{
    if 0 <= i <= s.len() {
        let (r, st1) = term_at(s, i, sort, st);
        match r {
            None => (Some((i, Seq::empty())), st1),
            Some((m, t)) => if i < m <= s.len() {
                terms_rest(s, m, sort, st1, seq![t])
            } else {
                (None, st1)
            },
        }
    } else {
        (None, st)
    }
}

pub open spec fn terms_rest(
    s: Seq<char>,
    pos: int,
    sort: Seq<char>,
    st: ParseState,
    acc: Seq<TermV>,
) -> (Option<(int, Seq<TermV>)>, ParseState)
    decreases s.len() - pos, 1int,
{
    if 0 <= pos <= s.len() {
        match tag_at(s, pos, seq![',']) {
            None => (Some((pos, acc)), st),
            Some(p) => if pos < p <= s.len() {
                let (r, st1) = term_at(s, p, sort, st);
                match r {
                    None => (None, st1),
                    Some((q, t)) => if p < q <= s.len() {
                        terms_rest(s, q, sort, st1, acc.push(t))
                    } else {
                        (None, st1)
                    },
                }
            } else {
                (None, st)
            },
        }
    } else {
        (None, st)
    }
}

/// `term = term`, or `term != term` when `negated`, at `i`.
pub open spec fn comparison_at(s: Seq<char>, i: int, negated: bool, sort: Seq<char>, st: ParseState) -> (
    Option<(int, FormulaV)>,
    ParseState,
) {
    let (r1, st1) = term_at(s, i, sort, st);
    match r1 {
        None => (None, st1),
        Some((m, t)) => match tag_at(s, m, if negated { seq!['!', '='] } else { seq!['='] }) {
            None => (None, st1),
            Some(p) => {
                let (r2, st2) = term_at(s, p, sort, st1);
                match r2 {
                    None => (None, st2),
                    Some((j, u)) => if negated {
                        (Some((j, FormulaV::Not(Box::new(FormulaV::Eq(t, u))))), st2)
                    } else {
                        (Some((j, FormulaV::Eq(t, u))), st2)
                    },
                }
            },
        }
    }
}

/// A formula in parentheses at `i`.
pub open spec fn paren_at(s: Seq<char>, i: int, sort: Seq<char>, st: ParseState) -> (Option<(int, FormulaV)>, ParseState)
    decreases s.len() - i, 0int,
{
    if 0 <= i <= s.len() {
        match tag_at(s, i, seq!['(']) {
            None => (None, st),
            Some(p) => if i < p <= s.len() {
                let (r, st1) = formula_at(s, p, sort, st);
                match r {
                    None => (None, st1),
                    Some((q, f)) => match tag_at(s, q, seq![')']) {
                        None => (None, st1),
                        Some(j) => (Some((j, f)), st1),
                    },
                }
            } else {
                (None, st)
            },
        }
    } else {
        (None, st)
    }
}

pub open spec fn atomic_at(s: Seq<char>, i: int, sort: Seq<char>, st: ParseState) -> (Option<(int, FormulaV)>, ParseState)
    decreases s.len() - i, 1int,
{
    if 0 <= i <= s.len() {
        let (r1, st1) = comparison_at(s, i, false, sort, st);
        if r1 is Some {
            (r1, st1)
        } else {
            let (r2, st2) = comparison_at(s, i, true, sort, st1);
            if r2 is Some {
                (r2, st2)
            } else {
                paren_at(s, i, sort, st2)
            }
        }
    } else {
        (None, st)
    }
}

pub open spec fn negation_at(s: Seq<char>, i: int, sort: Seq<char>, st: ParseState) -> (Option<(int, FormulaV)>, ParseState)
    decreases s.len() - i, 2int,
{
    if 0 <= i <= s.len() {
        match tag_at(s, i, seq!['!']) {
            None => (None, st),
            Some(p) => if i < p <= s.len() {
                let (r, st1) = atomic_at(s, p, sort, st);
                match r {
                    None => (None, st1),
                    Some((j, f)) => (Some((j, FormulaV::Not(Box::new(f)))), st1),
                }
            } else {
                (None, st)
            },
        }
    } else {
        (None, st)
    }
}

pub open spec fn unary_at(s: Seq<char>, i: int, sort: Seq<char>, st: ParseState) -> (Option<(int, FormulaV)>, ParseState)
    decreases s.len() - i, 3int,
{
    if 0 <= i <= s.len() {
        let (r1, st1) = negation_at(s, i, sort, st);
        if r1 is Some {
            (r1, st1)
        } else {
            atomic_at(s, i, sort, st1)
        }
    } else {
        (None, st)
    }
}

pub open spec fn conjuncts_rest(
    s: Seq<char>,
    pos: int,
    sort: Seq<char>,
    st: ParseState,
    acc: Seq<FormulaV>,
) -> (Option<(int, Seq<FormulaV>)>, ParseState)
    decreases s.len() - pos, 4int,
{
    if 0 <= pos <= s.len() {
        match tag_at(s, pos, seq!['/', '\\']) {
            None => (Some((pos, acc)), st),
            Some(p) => if pos < p <= s.len() {
                let (r, st1) = unary_at(s, p, sort, st);
                match r {
                    None => (None, st1),
                    Some((q, f)) => if p <= q <= s.len() {
                        conjuncts_rest(s, q, sort, st1, acc.push(f))
                    } else {
                        (None, st1)
                    },
                }
            } else {
                (None, st)
            },
        }
    } else {
        (None, st)
    }
}

pub open spec fn conjuncts_at(s: Seq<char>, i: int, sort: Seq<char>, st: ParseState) -> (Option<(int, Seq<FormulaV>)>, ParseState)
    decreases s.len() - i, 5int,
{
    if 0 <= i <= s.len() {
        let (r, st1) = unary_at(s, i, sort, st);
        match r {
            None => (Some((i, Seq::empty())), st1),
            Some((m, f)) => if i <= m <= s.len() {
                conjuncts_rest(s, m, sort, st1, seq![f])
            } else {
                (None, st1)
            },
        }
    } else {
        (None, st)
    }
}

pub open spec fn conjunction_at(s: Seq<char>, i: int, sort: Seq<char>, st: ParseState) -> (Option<(int, FormulaV)>, ParseState)
    decreases s.len() - i, 6int,
{
    if 0 <= i <= s.len() {
        let (r, st1) = conjuncts_at(s, i, sort, st);
        match r {
            None => (None, st1),
            Some((j, fs)) => (Some((j, FormulaV::And(fs))), st1),
        }
    } else {
        (None, st)
    }
}

pub open spec fn disjuncts_rest(
    s: Seq<char>,
    pos: int,
    sort: Seq<char>,
    st: ParseState,
    acc: Seq<FormulaV>,
) -> (Option<(int, Seq<FormulaV>)>, ParseState)
    decreases s.len() - pos, 7int,
{
    if 0 <= pos <= s.len() {
        match tag_at(s, pos, seq!['\\', '/']) {
            None => (Some((pos, acc)), st),
            Some(p) => if pos < p <= s.len() {
                let (r, st1) = conjunction_at(s, p, sort, st);
                match r {
                    None => (None, st1),
                    Some((q, f)) => if p <= q <= s.len() {
                        disjuncts_rest(s, q, sort, st1, acc.push(f))
                    } else {
                        (None, st1)
                    },
                }
            } else {
                (None, st)
            },
        }
    } else {
        (None, st)
    }
}

pub open spec fn disjuncts_at(s: Seq<char>, i: int, sort: Seq<char>, st: ParseState) -> (Option<(int, Seq<FormulaV>)>, ParseState)
    decreases s.len() - i, 8int,
{
    if 0 <= i <= s.len() {
        let (r, st1) = conjunction_at(s, i, sort, st);
        match r {
            None => (Some((i, Seq::empty())), st1),
            Some((m, f)) => if i <= m <= s.len() {
                disjuncts_rest(s, m, sort, st1, seq![f])
            } else {
                (None, st1)
            },
        }
    } else {
        (None, st)
    }
}

pub open spec fn disjunction_at(s: Seq<char>, i: int, sort: Seq<char>, st: ParseState) -> (Option<(int, FormulaV)>, ParseState)
    decreases s.len() - i, 9int,
{
    if 0 <= i <= s.len() {
        let (r, st1) = disjuncts_at(s, i, sort, st);
        match r {
            None => (None, st1),
            Some((j, fs)) => (Some((j, FormulaV::Or(fs))), st1),
        }
    } else {
        (None, st)
    }
}

/// A disjunction, or an implication between two, at `i`.
pub open spec fn formula_at(s: Seq<char>, i: int, sort: Seq<char>, st: ParseState) -> (Option<(int, FormulaV)>, ParseState)
    decreases s.len() - i, 10int,
{
    if 0 <= i <= s.len() {
        let (r, st1) = disjunction_at(s, i, sort, st);
        match r {
            None => (None, st1),
            Some((m, l)) => match tag_at(s, m, seq!['-', '>']) {
                None => (Some((m, l)), st1),
                Some(p) => if i <= m < p <= s.len() {
                    let (r2, st2) = disjunction_at(s, p, sort, st1);
                    match r2 {
                        None => (None, st2),
                        Some((j, rt)) => (Some((j, FormulaV::Imp(Box::new(l), Box::new(rt)))), st2),
                    }
                } else {
                    (None, st1)
                },
            },
        }
    } else {
        (None, st)
    }
}

/// What parsing `s` as a whole formula gives: the formula, when it spans
/// all of `s` but white space and no name met two arities, and the state
/// after.
pub open spec fn parse_spec(s: Seq<char>, sort: Seq<char>, st: ParseState) -> (Option<FormulaV>, ParseState) {
    let (r, st1) = formula_at(s, skip(s, 0), sort, st);
    match r {
        Some((j, f)) => if skip(s, j) == s.len() && !st1.failed {
            (Some(f), st1)
        } else {
            (None, st1)
        },
        None => (None, st1),
    }
}

/// What parsing `s` as a whole term gives.
pub open spec fn parse_term_spec(s: Seq<char>, sort: Seq<char>, st: ParseState) -> (Option<TermV>, ParseState) {
    let (r, st1) = term_at(s, skip(s, 0), sort, st);
    match r {
        Some((j, t)) => if skip(s, j) == s.len() && !st1.failed {
            (Some(t), st1)
        } else {
            (None, st1)
        },
        None => (None, st1),
    }
}

/// Relies on std's `FromIterator<&char>` for `String`: the string holds the
/// characters in order.
#[verifier::external_body]
fn string_from_chars(cs: &[char]) -> (r: String)
    ensures
        r@ == cs@,
{
    String::from_iter(cs.iter())
}

/// The characters of `input`, in order.
fn chars_of(input: &str) -> (r: Vec<char>)
    ensures
        r@ == input@,
{
    broadcast use axiom_spec_iter, next_postcondition;

    let mut it = input.chars();
    let mut out: Vec<char> = Vec::new();
    loop
        invariant
            out@ + it.remaining() == input@,
            it.decrease() is Some,
        decreases it.decrease()->0,
    {
        match it.next() {
            Some(c) => {
                out.push(c);
            },
            None => {
                assert(out@ =~= input@);
                return out;
            },
        }
    }
}

fn is_space_char(c: char) -> (r: bool)
    ensures
        r == is_space(c),
{
    c == ' ' || c == '\t' || c == '\n' || c == '\r'
}

fn is_alnum_char(c: char) -> (r: bool)
    ensures
        r == is_alnum(c),
{
    ('a' <= c && c <= 'z') || ('A' <= c && c <= 'Z') || ('0' <= c && c <= '9')
}

/// The first position at or after `i` that is not white space.
fn skip_spaces(s: &Vec<char>, i: usize) -> (r: usize)
    requires
        i <= s@.len(),
    ensures
        spaces(s@, i as int, r as int),
        r as int == skip(s@, i as int),
{
    let mut j = i;
    while j < s.len() && is_space_char(s[j])
        invariant
            i <= j <= s@.len(),
            spaces(s@, i as int, j as int),
            skip(s@, j as int) == skip(s@, i as int),
        decreases s@.len() - j,
    {
        j = j + 1;
    }
    j
}

/// The token `t`, with white space around it, at `i`.
fn tag(s: &Vec<char>, i: usize, t: &[char]) -> (r: Option<usize>)
    requires
        i <= s@.len(),
        t@.len() > 0,
    ensures
        r matches Some(j) ==> i < j <= s@.len() && token(s@, i as int, j as int, t@) && tag_at(
            s@,
            i as int,
            t@,
        ) == Some(j as int),
        r is None ==> tag_at(s@, i as int, t@) is None,
{
    let k = skip_spaces(s, i);
    let n = s.len();
    if t.len() > n - k {
        return None;
    }
    assert(k as int == skip(s@, i as int));
    let mut m: usize = 0;
    while m < t.len()
        invariant
            n == s@.len(),
            k + t@.len() <= n,
            k as int == skip(s@, i as int),
            m <= t@.len(),
            forall|x: int| 0 <= x < m ==> s@[k + x] == t@[x],
        decreases t@.len() - m,
    {
        if s[k + m] != t[m] {
            proof {
                assert(s@.subrange(k as int, k + t@.len())[m as int] == s@[k + m]);
                assert(s@.subrange(k as int, k + t@.len()) != t@);
            }
            return None;
        }
        m = m + 1;
    }
    let j = skip_spaces(s, k + t.len());
    proof {
        assert(s@.subrange(k as int, k + t@.len()) =~= t@);
    }
    Some(j)
}

/// The one-character token `c` at `i`.
fn tag1(s: &Vec<char>, i: usize, c: char) -> (r: Option<usize>)
    requires
        i <= s@.len(),
    ensures
        r matches Some(j) ==> i < j <= s@.len() && token(s@, i as int, j as int, seq![c]) && tag_at(
            s@,
            i as int,
            seq![c],
        ) == Some(j as int),
        r is None ==> tag_at(s@, i as int, seq![c]) is None,
{
    let t = vec![c];
    assert(t@ =~= seq![c]);
    tag(s, i, t.as_slice())
}

/// The two-character token `c1 c2` at `i`.
fn tag2(s: &Vec<char>, i: usize, c1: char, c2: char) -> (r: Option<usize>)
    requires
        i <= s@.len(),
    ensures
        r matches Some(j) ==> i < j <= s@.len() && token(s@, i as int, j as int, seq![c1, c2]) && tag_at(
            s@,
            i as int,
            seq![c1, c2],
        ) == Some(j as int),
        r is None ==> tag_at(s@, i as int, seq![c1, c2]) is None,
{
    let t = vec![c1, c2];
    assert(t@ =~= seq![c1, c2]);
    tag(s, i, t.as_slice())
}

/// The end of the identifier that starts at `i`.
fn identifier(s: &Vec<char>, i: usize) -> (r: Option<usize>)
    requires
        i <= s@.len(),
    ensures
        r matches Some(k) ==> ident(s@, i as int, k as int) && ident_at(s@, i as int) == Some(k as int),
        r is None ==> ident_at(s@, i as int) is None,
{
    let mut k = i;
    while k < s.len() && is_alnum_char(s[k])
        invariant
            i <= k <= s@.len(),
            alnum_end(s@, k as int) == alnum_end(s@, i as int),
            forall|x: int| i <= x < k ==> is_alnum(#[trigger] s@[x]),
        decreases s@.len() - k,
    {
        k = k + 1;
    }
    if k == i {
        None
    } else {
        Some(k)
    }
}

/// A ground term whose symbols are all in `table`.
pub open spec fn term_over(t: TermV, table: Seq<SymbolV>) -> bool
    decreases t,
{
    match t {
        TermV::Var(_) => false,
        TermV::App(f, args) => table.contains(f) && forall|i: int|
            0 <= i < args.len() ==> term_over(#[trigger] args[i], table),
    }
}

/// A formula built by the connectives of the syntax from equalities of terms
/// over `table`.
pub open spec fn formula_over(f: FormulaV, table: Seq<SymbolV>) -> bool
    decreases f,
{
    match f {
        FormulaV::Eq(t, u) => term_over(t, table) && term_over(u, table),
        FormulaV::Not(g) => formula_over(*g, table),
        FormulaV::Imp(l, r) => formula_over(*l, table) && formula_over(*r, table),
        FormulaV::And(fs) => forall|i: int| 0 <= i < fs.len() ==> formula_over(#[trigger] fs[i], table),
        FormulaV::Or(fs) => forall|i: int| 0 <= i < fs.len() ==> formula_over(#[trigger] fs[i], table),
        _ => false,
    }
}

/// `b` keeps the entries of `a`, in place.
pub open spec fn extends(a: Seq<SymbolV>, b: Seq<SymbolV>) -> bool {
    a.len() <= b.len() && forall|i: int| 0 <= i < a.len() ==> #[trigger] b[i] == a[i]
}

proof fn lemma_extends_trans(a: Seq<SymbolV>, b: Seq<SymbolV>, c: Seq<SymbolV>)
    requires
        extends(a, b),
        extends(b, c),
    ensures
        extends(a, c),
{
    assert forall|i: int| 0 <= i < a.len() implies #[trigger] c[i] == a[i] by {
        assert(b[i] == a[i]);
    }
}

proof fn lemma_term_over_mono(t: TermV, a: Seq<SymbolV>, b: Seq<SymbolV>)
    requires
        term_over(t, a),
        extends(a, b),
    ensures
        term_over(t, b),
    decreases t,
{
    if let TermV::App(f, args) = t {
        let k = choose|k: int| 0 <= k < a.len() && a[k] == f;
        assert(b[k] == f);
        assert forall|i: int| 0 <= i < args.len() implies term_over(#[trigger] args[i], b) by {
            lemma_term_over_mono(args[i], a, b);
        }
    }
}

proof fn lemma_formula_over_mono(f: FormulaV, a: Seq<SymbolV>, b: Seq<SymbolV>)
    requires
        formula_over(f, a),
        extends(a, b),
    ensures
        formula_over(f, b),
    decreases f,
{
    match f {
        FormulaV::Eq(t, u) => {
            lemma_term_over_mono(t, a, b);
            lemma_term_over_mono(u, a, b);
        },
        FormulaV::Not(g) => lemma_formula_over_mono(*g, a, b),
        FormulaV::Imp(l, r) => {
            lemma_formula_over_mono(*l, a, b);
            lemma_formula_over_mono(*r, a, b);
        },
        FormulaV::And(fs) => {
            assert forall|i: int| 0 <= i < fs.len() implies formula_over(#[trigger] fs[i], b) by {
                lemma_formula_over_mono(fs[i], a, b);
            }
        },
        FormulaV::Or(fs) => {
            assert forall|i: int| 0 <= i < fs.len() implies formula_over(#[trigger] fs[i], b) by {
                lemma_formula_over_mono(fs[i], a, b);
            }
        },
        _ => {},
    }
}

proof fn lemma_term_over_ground(t: TermV, a: Seq<SymbolV>)
    requires
        term_over(t, a),
    ensures
        is_ground(t),
    decreases t,
{
    if let TermV::App(f, args) = t {
        assert forall|i: int| 0 <= i < args.len() implies is_ground(#[trigger] args[i]) by {
            lemma_term_over_ground(args[i], a);
        }
    }
}

/// What the parser produces is equational: `sat` decides it.
pub proof fn lemma_formula_over_equational(f: FormulaV, a: Seq<SymbolV>)
    requires
        formula_over(f, a),
    ensures
        equational(f),
    decreases f,
{
    match f {
        FormulaV::Eq(t, u) => {
            lemma_term_over_ground(t, a);
            lemma_term_over_ground(u, a);
        },
        FormulaV::Not(g) => lemma_formula_over_equational(*g, a),
        FormulaV::Imp(l, r) => {
            lemma_formula_over_equational(*l, a);
            lemma_formula_over_equational(*r, a);
        },
        FormulaV::And(fs) => {
            assert forall|i: int| 0 <= i < fs.len() implies equational(#[trigger] fs[i]) by {
                lemma_formula_over_equational(fs[i], a);
            }
        },
        FormulaV::Or(fs) => {
            assert forall|i: int| 0 <= i < fs.len() implies equational(#[trigger] fs[i]) by {
                lemma_formula_over_equational(fs[i], a);
            }
        },
        _ => {},
    }
}

/// A parser for formulas over one sort; it makes function symbols as it
/// meets them.
pub struct UnsortedParser {
    sort: Sort,
    arity_map: Vec<FunctionSymbol>,
    /// A name was used with two arities.
    failed: bool,
}

impl UnsortedParser {
    /// The symbols made so far, in order.
    pub closed spec fn table(&self) -> Seq<SymbolV> {
        self.arity_map@.map_values(|f: FunctionSymbol| f@)
    }

    /// The symbols made so far and whether a name has met two arities.
    pub closed spec fn state(&self) -> ParseState {
        ParseState { table: self.table(), failed: self.failed }
    }

    pub closed spec fn sort_view(&self) -> Seq<char> {
        self.sort@
    }

    /// Each symbol has the parser's sort throughout, and no two share a name.
    pub closed spec fn wf(&self) -> bool {
        &&& forall|i: int|
            0 <= i < self.arity_map@.len() ==> (#[trigger] self.arity_map@[i])@ == symbol_for(
                self.arity_map@[i]@.name,
                self.arity_map@[i]@.inputs.len(),
                self.sort@,
            )
        &&& forall|i: int, j: int|
            0 <= i < self.arity_map@.len() && 0 <= j < self.arity_map@.len() && i != j ==> (#[trigger] self.arity_map@[i])@.name
                != (#[trigger] self.arity_map@[j])@.name
    }

    pub fn new(sort: &Sort) -> (r: UnsortedParser)
        ensures
            r.wf(),
            r.table().len() == 0,
            r.sort_view() == sort@,
    {
        let r = UnsortedParser { sort: sort.copy(), arity_map: Vec::new(), failed: false };
        assert(r.table() =~= Seq::<SymbolV>::empty());
        r
    }

    /// The symbol `name` with `n` arguments: the one made before, or a new
    /// one. `None`, and the parse fails, when `name` was made with another
    /// arity.
    fn symbol(&mut self, name: &String, n: usize) -> (r: Option<FunctionSymbol>)
        requires
            old(self).wf(),
        ensures
            final(self).wf(),
            final(self).sort_view() == old(self).sort_view(),
            extends(old(self).table(), final(self).table()),
            r matches Some(f) ==> f@ == symbol_for(name@, n as nat, old(self).sort_view())
                && final(self).table().contains(f@),
            r matches Some(f) ==> intern(old(self).state(), name@, n as nat, old(self).sort_view()) == (
                Some(f@),
                final(self).state(),
            ),
            r is None ==> intern(old(self).state(), name@, n as nat, old(self).sort_view()) == (
                None::<SymbolV>,
                final(self).state(),
            ),
    {
        let mut i: usize = 0;
        while i < self.arity_map.len()
            invariant
                self.wf(),
                self.arity_map@ == old(self).arity_map@,
                self.sort@ == old(self).sort@,
                self.failed == old(self).failed,
                i <= self.arity_map@.len(),
                forall|j: int| 0 <= j < i ==> (#[trigger] self.arity_map@[j])@.name != name@,
            decreases self.arity_map@.len() - i,
        {
            if self.arity_map[i].has_name(name) {
                proof {
                    let st = old(self).state();
                    assert(st.table[i as int] == self.arity_map@[i as int]@);
                    assert(st.table[i as int].name == name@);
                    let c = choose|c: int| 0 <= c < st.table.len() && (#[trigger] st.table[c]).name == name@;
                    assert(st.table[c] == self.arity_map@[c]@);
                    if c != i as int {
                        assert(self.arity_map@[c]@.name != self.arity_map@[i as int]@.name);
                    }
                }
                if self.arity_map[i].arity() == n {
                    proof {
                        assert(self.table()[i as int] == self.arity_map@[i as int]@);
                        assert(extends(old(self).table(), self.table()));
                    }
                    return Some(self.arity_map[i].copy());
                } else {
                    self.failed = true;
                    proof {
                        assert(extends(old(self).table(), self.table()));
                    }
                    return None;
                }
            }
            i = i + 1;
        }
        let mut sorts: Vec<&Sort> = Vec::new();
        let mut k: usize = 0;
        while k < n
            invariant
                k <= n,
                sorts@.len() == k,
                forall|j: int| 0 <= j < k ==> (#[trigger] sorts@[j])@ == self.sort@,
            decreases n - k,
        {
            sorts.push(&self.sort);
            k = k + 1;
        }
        let f = FunctionSymbol::new(name.as_str(), sorts.as_slice(), &self.sort);
        proof {
            assert(f@.inputs =~= Seq::new(n as nat, |j: int| self.sort@));
        }
        let ghost before = self.arity_map@;
        self.arity_map.push(f.copy());
        proof {
            assert(self.table() =~= old(self).table().push(f@));
            assert forall|c: int| 0 <= c < old(self).table().len() implies (#[trigger] old(self).table()[c]).name != name@ by {
                assert(old(self).table()[c] == before[c]@);
            }
            assert(self.arity_map@[before.len() as int]@ == f@);
            assert forall|j: int| 0 <= j < before.len() implies #[trigger] self.table()[j] == old(self).table()[j] by {
                assert(self.arity_map@[j] == before[j]);
            }
            assert(self.table()[before.len() as int] == f@);
            assert forall|a: int, b: int|
                0 <= a < self.arity_map@.len() && 0 <= b < self.arity_map@.len() && a != b implies (#[trigger] self.arity_map@[a])@.name
                    != (#[trigger] self.arity_map@[b])@.name by {
                if a < before.len() && b < before.len() {
                    assert(self.arity_map@[a] == before[a]);
                    assert(self.arity_map@[b] == before[b]);
                } else if a < before.len() {
                    assert(self.arity_map@[a] == before[a]);
                } else if b < before.len() {
                    assert(self.arity_map@[b] == before[b]);
                }
            }
        }
        Some(f)
    }

    /// A term at `i`: an identifier, with arguments in parentheses or not.
    #[verifier::spinoff_prover]
    #[verifier::rlimit(100)]
    fn term(&mut self, s: &Vec<char>, i: usize) -> (r: Option<(usize, Term)>)
        requires
            old(self).wf(),
            i <= s@.len(),
        ensures
            final(self).wf(),
            final(self).sort_view() == old(self).sort_view(),
            extends(old(self).table(), final(self).table()),
            r matches Some((j, t)) ==> i < j <= s@.len() && term_over(t@, final(self).table()),
            term_at(s@, i as int, old(self).sort_view(), old(self).state()).1 == final(self).state(),
            r matches Some((j, t)) ==> term_at(s@, i as int, old(self).sort_view(), old(self).state()).0 == Some(
                (j as int, t@),
            ),
            r is None ==> term_at(s@, i as int, old(self).sort_view(), old(self).state()).0 is None,
        decreases s@.len() - i, 0int,
    {
        let k = match identifier(s, i) {
            Some(k) => k,
            None => {
                proof {
                    assert(extends(self.table(), self.table()));
                }
                return None;
            },
        };
        let name = string_from_chars(&s.as_slice()[i..k]);
        assert(name@ == s@.subrange(i as int, k as int));
        let ghost t0 = self.table();
        let (j, args) = match self.arguments(s, k) {
            Some((j, args)) => (j, args),
            None => {
                let none: Vec<Term> = Vec::new();
                assert(terms_view(none@) =~= Seq::<TermV>::empty());
                (k, none)
            },
        };
        let ghost t1 = self.table();
        let symbol = match self.symbol(&name, args.len()) {
            Some(f) => f,
            None => {
                proof {
                    lemma_extends_trans(old(self).table(), t1, self.table());
                }
                return None;
            },
        };
        let t = Term::Application(symbol, args);
        proof {
            lemma_extends_trans(old(self).table(), t1, self.table());
            let tv = terms_view(args@);
            assert forall|x: int| 0 <= x < tv.len() implies term_over(#[trigger] tv[x], self.table()) by {
                assert(tv[x] == args@[x]@);
                lemma_term_over_mono(args@[x]@, t1, self.table());
            }
        }
        Some((j, t))
    }

    /// Arguments in parentheses at `i`.
    #[verifier::spinoff_prover]
    #[verifier::rlimit(100)]
    fn arguments(&mut self, s: &Vec<char>, i: usize) -> (r: Option<(usize, Vec<Term>)>)
        requires
            old(self).wf(),
            i <= s@.len(),
        ensures
            final(self).wf(),
            final(self).sort_view() == old(self).sort_view(),
            extends(old(self).table(), final(self).table()),
            r matches Some((j, ts)) ==> i < j <= s@.len() && forall|x: int|
                0 <= x < ts@.len() ==> term_over((#[trigger] ts@[x])@, final(self).table()),
            args_at(s@, i as int, old(self).sort_view(), old(self).state()).1 == final(self).state(),
            r matches Some((j, ts)) ==> args_at(s@, i as int, old(self).sort_view(), old(self).state()).0
                == Some((j as int, terms_view(ts@))),
            r is None ==> args_at(s@, i as int, old(self).sort_view(), old(self).state()).0 is None,
        decreases s@.len() - i, 3int,
    {
        proof {
            assert(extends(self.table(), self.table()));
        }
        let p = match tag1(s, i, '(') {
            Some(p) => p,
            None => {
                return None;
            },
        };
        let (q, ts) = match self.terms(s, p) {
            Some(r) => r,
            None => {
                return None;
            },
        };
        match tag1(s, q, ')') {
            Some(j) => Some((j, ts)),
            None => None,
        }
    }

    /// Terms separated by commas at `i`; none when no term starts there.
    #[verifier::spinoff_prover]
    #[verifier::rlimit(100)]
    fn terms(&mut self, s: &Vec<char>, i: usize) -> (r: Option<(usize, Vec<Term>)>)
        requires
            old(self).wf(),
            i <= s@.len(),
        ensures
            final(self).wf(),
            final(self).sort_view() == old(self).sort_view(),
            extends(old(self).table(), final(self).table()),
            r matches Some((j, ts)) ==> i <= j <= s@.len() && forall|x: int|
                0 <= x < ts@.len() ==> term_over((#[trigger] ts@[x])@, final(self).table()),
            terms_at(s@, i as int, old(self).sort_view(), old(self).state()).1 == final(self).state(),
            r matches Some((j, ts)) ==> terms_at(s@, i as int, old(self).sort_view(), old(self).state()).0
                == Some((j as int, terms_view(ts@))),
            r is None ==> terms_at(s@, i as int, old(self).sort_view(), old(self).state()).0 is None,
        decreases s@.len() - i, 2int,
    {
        let ghost goal = terms_at(s@, i as int, old(self).sort_view(), old(self).state());
        let mut ts: Vec<Term> = Vec::new();
        let (mut pos, first) = match self.term(s, i) {
            Some(r) => r,
            None => {
                assert(terms_view(ts@) =~= Seq::<TermV>::empty());
                return Some((i, ts));
            },
        };
        ts.push(first);
        assert(terms_view(ts@) =~= seq![first@]);
        loop
            invariant
                goal == terms_at(s@, i as int, old(self).sort_view(), old(self).state()),
                goal == terms_rest(s@, pos as int, old(self).sort_view(), self.state(), terms_view(ts@)),
                self.wf(),
                self.sort_view() == old(self).sort_view(),
                extends(old(self).table(), self.table()),
                i < pos <= s@.len(),
                forall|x: int| 0 <= x < ts@.len() ==> term_over((#[trigger] ts@[x])@, self.table()),
            decreases s@.len() - pos,
        {
            let p = match tag1(s, pos, ',') {
                Some(p) => p,
                None => {
                    return Some((pos, ts));
                },
            };
            let ghost t0 = self.table();
            let (q, t) = match self.term(s, p) {
                Some(r) => r,
                None => {
                    proof {
                        lemma_extends_trans(old(self).table(), t0, self.table());
                    }
                    return None;
                },
            };
            let ghost before = ts@;
            ts.push(t);
            proof {
                assert(terms_view(ts@) =~= terms_view(before).push(t@));
                lemma_extends_trans(old(self).table(), t0, self.table());
                assert forall|x: int| 0 <= x < ts@.len() implies term_over((#[trigger] ts@[x])@, self.table()) by {
                    if x < before.len() {
                        assert(ts@[x] == before[x]);
                        lemma_term_over_mono(before[x]@, t0, self.table());
                    }
                }
            }
            pos = q;
        }
    }

    /// `term = term` at `i`.
    fn equality(&mut self, s: &Vec<char>, i: usize) -> (r: Option<(usize, Formula)>)
        requires
            old(self).wf(),
            i <= s@.len(),
        ensures
            final(self).wf(),
            final(self).sort_view() == old(self).sort_view(),
            extends(old(self).table(), final(self).table()),
            r matches Some((j, f)) ==> i < j <= s@.len() && formula_over(f@, final(self).table()),
            comparison_at(s@, i as int, false, old(self).sort_view(), old(self).state()).1 == final(self).state(),
            r matches Some((j, f)) ==> comparison_at(s@, i as int, false, old(self).sort_view(), old(self).state()).0 == Some((j as int, f@)),
            r is None ==> comparison_at(s@, i as int, false, old(self).sort_view(), old(self).state()).0 is None,
    {
        self.comparison(s, i, false)
    }

    /// `term != term` at `i`.
    fn neg_equality(&mut self, s: &Vec<char>, i: usize) -> (r: Option<(usize, Formula)>)
        requires
            old(self).wf(),
            i <= s@.len(),
        ensures
            final(self).wf(),
            final(self).sort_view() == old(self).sort_view(),
            extends(old(self).table(), final(self).table()),
            r matches Some((j, f)) ==> i < j <= s@.len() && formula_over(f@, final(self).table()),
            comparison_at(s@, i as int, true, old(self).sort_view(), old(self).state()).1 == final(self).state(),
            r matches Some((j, f)) ==> comparison_at(s@, i as int, true, old(self).sort_view(), old(self).state()).0 == Some((j as int, f@)),
            r is None ==> comparison_at(s@, i as int, true, old(self).sort_view(), old(self).state()).0 is None,
    {
        self.comparison(s, i, true)
    }

    #[verifier::spinoff_prover]
    #[verifier::rlimit(100)]
    fn comparison(&mut self, s: &Vec<char>, i: usize, negated: bool) -> (r: Option<(usize, Formula)>)
        requires
            old(self).wf(),
            i <= s@.len(),
        ensures
            final(self).wf(),
            final(self).sort_view() == old(self).sort_view(),
            extends(old(self).table(), final(self).table()),
            r matches Some((j, f)) ==> i < j <= s@.len() && formula_over(f@, final(self).table()),
            comparison_at(s@, i as int, negated, old(self).sort_view(), old(self).state()).1 == final(self).state(),
            r matches Some((j, f)) ==> comparison_at(s@, i as int, negated, old(self).sort_view(), old(self).state()).0 == Some((j as int, f@)),
            r is None ==> comparison_at(s@, i as int, negated, old(self).sort_view(), old(self).state()).0 is None,
    {
        let (m, left) = match self.term(s, i) {
            Some(r) => r,
            None => {
                return None;
            },
        };
        let ghost t1 = self.table();
        let p = if negated {
            tag2(s, m, '!', '=')
        } else {
            tag1(s, m, '=')
        };
        let p = match p {
            Some(p) => p,
            None => {
                return None;
            },
        };
        let (j, right) = match self.term(s, p) {
            Some(r) => r,
            None => {
                proof {
                    lemma_extends_trans(old(self).table(), t1, self.table());
                }
                return None;
            },
        };
        proof {
            lemma_extends_trans(old(self).table(), t1, self.table());
            lemma_term_over_mono(left@, t1, self.table());
        }
        let eq = Formula::Equality(left, right);
        assert(formula_over(eq@, self.table()));
        if negated {
            Some((j, Formula::Negation(Box::new(eq))))
        } else {
            Some((j, eq))
        }
    }

    /// A formula in parentheses at `i`.
    #[verifier::spinoff_prover]
    #[verifier::rlimit(100)]
    fn paren_formula(&mut self, s: &Vec<char>, i: usize) -> (r: Option<(usize, Formula)>)
        requires
            old(self).wf(),
            i <= s@.len(),
        ensures
            final(self).wf(),
            final(self).sort_view() == old(self).sort_view(),
            extends(old(self).table(), final(self).table()),
            r matches Some((j, f)) ==> i < j <= s@.len() && formula_over(f@, final(self).table()),
            paren_at(s@, i as int, old(self).sort_view(), old(self).state()).1 == final(self).state(),
            r matches Some((j, f)) ==> paren_at(s@, i as int, old(self).sort_view(), old(self).state()).0 == Some((j as int, f@)),
            r is None ==> paren_at(s@, i as int, old(self).sort_view(), old(self).state()).0 is None,
        decreases s@.len() - i, 0int,
    {
        proof {
            assert(extends(self.table(), self.table()));
        }
        let p = match tag1(s, i, '(') {
            Some(p) => p,
            None => {
                return None;
            },
        };
        let (q, f) = match self.formula(s, p) {
            Some(r) => r,
            None => {
                return None;
            },
        };
        match tag1(s, q, ')') {
            Some(j) => Some((j, f)),
            None => None,
        }
    }

    /// An equality, a negated equality, or a formula in parentheses at `i`.
    #[verifier::spinoff_prover]
    #[verifier::rlimit(100)]
    fn atomic_formula(&mut self, s: &Vec<char>, i: usize) -> (r: Option<(usize, Formula)>)
        requires
            old(self).wf(),
            i <= s@.len(),
        ensures
            final(self).wf(),
            final(self).sort_view() == old(self).sort_view(),
            extends(old(self).table(), final(self).table()),
            r matches Some((j, f)) ==> i < j <= s@.len() && formula_over(f@, final(self).table()),
            atomic_at(s@, i as int, old(self).sort_view(), old(self).state()).1 == final(self).state(),
            r matches Some((j, f)) ==> atomic_at(s@, i as int, old(self).sort_view(), old(self).state()).0 == Some((j as int, f@)),
            r is None ==> atomic_at(s@, i as int, old(self).sort_view(), old(self).state()).0 is None,
        decreases s@.len() - i, 1int,
    {
        let ghost t0 = self.table();
        if let Some(r) = self.equality(s, i) {
            return Some(r);
        }
        let ghost t1 = self.table();
        if let Some(r) = self.neg_equality(s, i) {
            proof {
                lemma_extends_trans(t0, t1, self.table());
            }
            return Some(r);
        }
        let ghost t2 = self.table();
        proof {
            lemma_extends_trans(t0, t1, t2);
        }
        let r = self.paren_formula(s, i);
        proof {
            lemma_extends_trans(t0, t2, self.table());
        }
        r
    }

    /// `!` followed by an atomic formula at `i`.
    #[verifier::spinoff_prover]
    #[verifier::rlimit(100)]
    fn negation(&mut self, s: &Vec<char>, i: usize) -> (r: Option<(usize, Formula)>)
        requires
            old(self).wf(),
            i <= s@.len(),
        ensures
            final(self).wf(),
            final(self).sort_view() == old(self).sort_view(),
            extends(old(self).table(), final(self).table()),
            r matches Some((j, f)) ==> i < j <= s@.len() && formula_over(f@, final(self).table()),
            negation_at(s@, i as int, old(self).sort_view(), old(self).state()).1 == final(self).state(),
            r matches Some((j, f)) ==> negation_at(s@, i as int, old(self).sort_view(), old(self).state()).0 == Some((j as int, f@)),
            r is None ==> negation_at(s@, i as int, old(self).sort_view(), old(self).state()).0 is None,
        decreases s@.len() - i, 2int,
    {
        proof {
            assert(extends(self.table(), self.table()));
        }
        let p = match tag1(s, i, '!') {
            Some(p) => p,
            None => {
                return None;
            },
        };
        match self.atomic_formula(s, p) {
            Some((j, f)) => Some((j, Formula::Negation(Box::new(f)))),
            None => None,
        }
    }

    /// A negation or an atomic formula at `i`.
    #[verifier::spinoff_prover]
    #[verifier::rlimit(100)]
    fn unary(&mut self, s: &Vec<char>, i: usize) -> (r: Option<(usize, Formula)>)
        requires
            old(self).wf(),
            i <= s@.len(),
        ensures
            final(self).wf(),
            final(self).sort_view() == old(self).sort_view(),
            extends(old(self).table(), final(self).table()),
            r matches Some((j, f)) ==> i < j <= s@.len() && formula_over(f@, final(self).table()),
            unary_at(s@, i as int, old(self).sort_view(), old(self).state()).1 == final(self).state(),
            r matches Some((j, f)) ==> unary_at(s@, i as int, old(self).sort_view(), old(self).state()).0 == Some((j as int, f@)),
            r is None ==> unary_at(s@, i as int, old(self).sort_view(), old(self).state()).0 is None,
        decreases s@.len() - i, 3int,
    {
        let ghost t0 = self.table();
        if let Some(r) = self.negation(s, i) {
            return Some(r);
        }
        let ghost t1 = self.table();
        let r = self.atomic_formula(s, i);
        proof {
            lemma_extends_trans(t0, t1, self.table());
        }
        r
    }

    /// Unary formulas separated by `/\` at `i`; none when no formula starts there.
    #[verifier::spinoff_prover]
    #[verifier::rlimit(100)]
    fn conjunction_list(&mut self, s: &Vec<char>, i: usize) -> (r: Option<(usize, Vec<Formula>)>)
        requires
            old(self).wf(),
            i <= s@.len(),
        ensures
            final(self).wf(),
            final(self).sort_view() == old(self).sort_view(),
            extends(old(self).table(), final(self).table()),
            r matches Some((j, fs)) ==> i <= j <= s@.len() && forall|x: int|
                0 <= x < fs@.len() ==> formula_over((#[trigger] fs@[x])@, final(self).table()),
            conjuncts_at(s@, i as int, old(self).sort_view(), old(self).state()).1 == final(self).state(),
            r matches Some((j, fs)) ==> conjuncts_at(s@, i as int, old(self).sort_view(), old(self).state()).0 == Some((j as int, formulas_view(fs@))),
            r is None ==> conjuncts_at(s@, i as int, old(self).sort_view(), old(self).state()).0 is None,
        decreases s@.len() - i, 5int,
    {
        let ghost goal = conjuncts_at(s@, i as int, old(self).sort_view(), old(self).state());
        let mut fs: Vec<Formula> = Vec::new();
        let (mut pos, first) = match self.unary(s, i) {
            Some(r) => r,
            None => {
                assert(formulas_view(fs@) =~= Seq::<FormulaV>::empty());
                return Some((i, fs));
            },
        };
        fs.push(first);
        assert(formulas_view(fs@) =~= seq![first@]);
        loop
            invariant
                goal == conjuncts_at(s@, i as int, old(self).sort_view(), old(self).state()),
                goal == conjuncts_rest(s@, pos as int, old(self).sort_view(), self.state(), formulas_view(fs@)),
                self.wf(),
                self.sort_view() == old(self).sort_view(),
                extends(old(self).table(), self.table()),
                i < pos <= s@.len(),
                forall|x: int| 0 <= x < fs@.len() ==> formula_over((#[trigger] fs@[x])@, self.table()),
            decreases s@.len() - pos,
        {
            let p = match tag2(s, pos, '/', '\\') {
                Some(p) => p,
                None => {
                    return Some((pos, fs));
                },
            };
            let ghost t0 = self.table();
            let (q, f) = match self.unary(s, p) {
                Some(r) => r,
                None => {
                    proof {
                        lemma_extends_trans(old(self).table(), t0, self.table());
                    }
                    return None;
                },
            };
            let ghost before = fs@;
            fs.push(f);
            proof {
                assert(formulas_view(fs@) =~= formulas_view(before).push(f@));
                lemma_extends_trans(old(self).table(), t0, self.table());
                assert forall|x: int| 0 <= x < fs@.len() implies formula_over((#[trigger] fs@[x])@, self.table()) by {
                    if x < before.len() {
                        assert(fs@[x] == before[x]);
                        lemma_formula_over_mono(before[x]@, t0, self.table());
                    }
                }
            }
            pos = q;
        }
    }

    /// A conjunction at `i`.
    #[verifier::spinoff_prover]
    #[verifier::rlimit(100)]
    fn conjunction(&mut self, s: &Vec<char>, i: usize) -> (r: Option<(usize, Formula)>)
        requires
            old(self).wf(),
            i <= s@.len(),
        ensures
            final(self).wf(),
            final(self).sort_view() == old(self).sort_view(),
            extends(old(self).table(), final(self).table()),
            r matches Some((j, f)) ==> i <= j <= s@.len() && formula_over(f@, final(self).table()),
            conjunction_at(s@, i as int, old(self).sort_view(), old(self).state()).1 == final(self).state(),
            r matches Some((j, f)) ==> conjunction_at(s@, i as int, old(self).sort_view(), old(self).state()).0 == Some((j as int, f@)),
            r is None ==> conjunction_at(s@, i as int, old(self).sort_view(), old(self).state()).0 is None,
        decreases s@.len() - i, 6int,
    {
        match self.conjunction_list(s, i) {
            Some((j, fs)) => {
                let f = Formula::Conjunction(fs);
                proof {
                    let v = formulas_view(fs@);
                    assert forall|x: int| 0 <= x < v.len() implies formula_over(#[trigger] v[x], self.table()) by {
                        assert(v[x] == fs@[x]@);
                    }
                }
                Some((j, f))
            },
            None => None,
        }
    }

    /// Conjunctions separated by `\/` at `i`; none when no conjunction starts there.
    #[verifier::spinoff_prover]
    #[verifier::rlimit(100)]
    fn disjunction_list(&mut self, s: &Vec<char>, i: usize) -> (r: Option<(usize, Vec<Formula>)>)
        requires
            old(self).wf(),
            i <= s@.len(),
        ensures
            final(self).wf(),
            final(self).sort_view() == old(self).sort_view(),
            extends(old(self).table(), final(self).table()),
            r matches Some((j, fs)) ==> i <= j <= s@.len() && forall|x: int|
                0 <= x < fs@.len() ==> formula_over((#[trigger] fs@[x])@, final(self).table()),
            disjuncts_at(s@, i as int, old(self).sort_view(), old(self).state()).1 == final(self).state(),
            r matches Some((j, fs)) ==> disjuncts_at(s@, i as int, old(self).sort_view(), old(self).state()).0 == Some((j as int, formulas_view(fs@))),
            r is None ==> disjuncts_at(s@, i as int, old(self).sort_view(), old(self).state()).0 is None,
        decreases s@.len() - i, 8int,
    {
        let ghost goal = disjuncts_at(s@, i as int, old(self).sort_view(), old(self).state());
        let mut fs: Vec<Formula> = Vec::new();
        let (mut pos, first) = match self.conjunction(s, i) {
            Some(r) => r,
            None => {
                assert(formulas_view(fs@) =~= Seq::<FormulaV>::empty());
                return Some((i, fs));
            },
        };
        fs.push(first);
        assert(formulas_view(fs@) =~= seq![first@]);
        loop
            invariant
                goal == disjuncts_at(s@, i as int, old(self).sort_view(), old(self).state()),
                goal == disjuncts_rest(s@, pos as int, old(self).sort_view(), self.state(), formulas_view(fs@)),
                self.wf(),
                self.sort_view() == old(self).sort_view(),
                extends(old(self).table(), self.table()),
                i <= pos <= s@.len(),
                forall|x: int| 0 <= x < fs@.len() ==> formula_over((#[trigger] fs@[x])@, self.table()),
            decreases s@.len() - pos,
        {
            let p = match tag2(s, pos, '\\', '/') {
                Some(p) => p,
                None => {
                    return Some((pos, fs));
                },
            };
            let ghost t0 = self.table();
            let (q, f) = match self.conjunction(s, p) {
                Some(r) => r,
                None => {
                    proof {
                        lemma_extends_trans(old(self).table(), t0, self.table());
                    }
                    return None;
                },
            };
            let ghost before = fs@;
            fs.push(f);
            proof {
                assert(formulas_view(fs@) =~= formulas_view(before).push(f@));
                lemma_extends_trans(old(self).table(), t0, self.table());
                assert forall|x: int| 0 <= x < fs@.len() implies formula_over((#[trigger] fs@[x])@, self.table()) by {
                    if x < before.len() {
                        assert(fs@[x] == before[x]);
                        lemma_formula_over_mono(before[x]@, t0, self.table());
                    }
                }
            }
            pos = q;
        }
    }

    /// A disjunction at `i`.
    #[verifier::spinoff_prover]
    #[verifier::rlimit(100)]
    fn disjunction(&mut self, s: &Vec<char>, i: usize) -> (r: Option<(usize, Formula)>)
        requires
            old(self).wf(),
            i <= s@.len(),
        ensures
            final(self).wf(),
            final(self).sort_view() == old(self).sort_view(),
            extends(old(self).table(), final(self).table()),
            r matches Some((j, f)) ==> i <= j <= s@.len() && formula_over(f@, final(self).table()),
            disjunction_at(s@, i as int, old(self).sort_view(), old(self).state()).1 == final(self).state(),
            r matches Some((j, f)) ==> disjunction_at(s@, i as int, old(self).sort_view(), old(self).state()).0 == Some((j as int, f@)),
            r is None ==> disjunction_at(s@, i as int, old(self).sort_view(), old(self).state()).0 is None,
        decreases s@.len() - i, 9int,
    {
        match self.disjunction_list(s, i) {
            Some((j, fs)) => {
                let f = Formula::Disjunction(fs);
                proof {
                    let v = formulas_view(fs@);
                    assert forall|x: int| 0 <= x < v.len() implies formula_over(#[trigger] v[x], self.table()) by {
                        assert(v[x] == fs@[x]@);
                    }
                }
                Some((j, f))
            },
            None => None,
        }
    }

    /// A disjunction, or an implication between two, at `i`.
    #[verifier::spinoff_prover]
    #[verifier::rlimit(100)]
    fn implication_or_disjunction(&mut self, s: &Vec<char>, i: usize) -> (r: Option<(usize, Formula)>)
        requires
            old(self).wf(),
            i <= s@.len(),
        ensures
            final(self).wf(),
            final(self).sort_view() == old(self).sort_view(),
            extends(old(self).table(), final(self).table()),
            r matches Some((j, f)) ==> i <= j <= s@.len() && formula_over(f@, final(self).table()),
            formula_at(s@, i as int, old(self).sort_view(), old(self).state()).1 == final(self).state(),
            r matches Some((j, f)) ==> formula_at(s@, i as int, old(self).sort_view(), old(self).state()).0 == Some((j as int, f@)),
            r is None ==> formula_at(s@, i as int, old(self).sort_view(), old(self).state()).0 is None,
        decreases s@.len() - i, 10int,
    {
        let ghost sort = old(self).sort_view();
        let ghost st0 = old(self).state();
        let (m, left) = match self.disjunction(s, i) {
            Some(r) => r,
            None => {
                return None;
            },
        };
        let ghost st1 = self.state();
        let ghost lv = left@;
        assert(disjunction_at(s@, i as int, sort, st0) == (Some((m as int, lv)), st1));
        let p = match tag2(s, m, '-', '>') {
            Some(p) => p,
            None => {
                return Some((m, left));
            },
        };
        let ghost t1 = self.table();
        match self.disjunction(s, p) {
            Some((j, right)) => {
                proof {
                    lemma_extends_trans(old(self).table(), t1, self.table());
                    lemma_formula_over_mono(left@, t1, self.table());
                    assert(disjunction_at(s@, p as int, sort, st1) == (Some((j as int, right@)), self.state()));
                }
                Some((j, Formula::Implication(Box::new(left), Box::new(right))))
            },
            None => {
                proof {
                    lemma_extends_trans(old(self).table(), t1, self.table());
                }
                None
            },
        }
    }

    #[verifier::spinoff_prover]
    #[verifier::rlimit(100)]
    fn formula(&mut self, s: &Vec<char>, i: usize) -> (r: Option<(usize, Formula)>)
        requires
            old(self).wf(),
            i <= s@.len(),
        ensures
            final(self).wf(),
            final(self).sort_view() == old(self).sort_view(),
            extends(old(self).table(), final(self).table()),
            r matches Some((j, f)) ==> i <= j <= s@.len() && formula_over(f@, final(self).table()),
            formula_at(s@, i as int, old(self).sort_view(), old(self).state()).1 == final(self).state(),
            r matches Some((j, f)) ==> formula_at(s@, i as int, old(self).sort_view(), old(self).state()).0 == Some((j as int, f@)),
            r is None ==> formula_at(s@, i as int, old(self).sort_view(), old(self).state()).0 is None,
        decreases s@.len() - i, 11int,
    {
        self.implication_or_disjunction(s, i)
    }

    /// Parses the whole of `input`, white space around it aside, as a term.
    pub fn parse_term(&mut self, input: &str) -> (r: Option<Term>)
        requires
            old(self).wf(),
        ensures
            final(self).wf(),
            final(self).sort_view() == old(self).sort_view(),
            extends(old(self).table(), final(self).table()),
            r matches Some(t) ==> term_over(t@, final(self).table()) && is_ground(t@),
            parse_term_spec(input@, old(self).sort_view(), old(self).state()).1 == final(self).state(),
            r matches Some(t) ==> parse_term_spec(input@, old(self).sort_view(), old(self).state()).0 == Some(t@),
            r is None ==> parse_term_spec(input@, old(self).sort_view(), old(self).state()).0 is None,
    {
        let s = chars_of(input);
        let i = skip_spaces(&s, 0);
        match self.term(&s, i) {
            Some((j, t)) => {
                let k = skip_spaces(&s, j);
                if k == s.len() && !self.failed {
                    proof {
                        lemma_term_over_ground(t@, self.table());
                    }
                    Some(t)
                } else {
                    None
                }
            },
            None => None,
        }
    }

    /// Parses the whole of `input`, white space around it aside, as a
    /// formula. A name used with two arities makes every later parse fail.
    pub fn parse_formula(&mut self, input: &str) -> (r: Option<Formula>)
        requires
            old(self).wf(),
        ensures
            final(self).wf(),
            final(self).sort_view() == old(self).sort_view(),
            extends(old(self).table(), final(self).table()),
            r matches Some(f) ==> formula_over(f@, final(self).table()) && equational(f@),
            parse_spec(input@, old(self).sort_view(), old(self).state()).1 == final(self).state(),
            r matches Some(f) ==> parse_spec(input@, old(self).sort_view(), old(self).state()).0 == Some(f@),
            r is None ==> parse_spec(input@, old(self).sort_view(), old(self).state()).0 is None,
    {
        let s = chars_of(input);
        let i = skip_spaces(&s, 0);
        match self.formula(&s, i) {
            Some((j, f)) => {
                let k = skip_spaces(&s, j);
                if k == s.len() && !self.failed {
                    proof {
                        lemma_formula_over_equational(f@, self.table());
                    }
                    Some(f)
                } else {
                    None
                }
            },
            None => None,
        }
    }

    /// The language of the parser's sort and the symbols made so far.
    pub fn get_language(&self) -> (r: Language)
        ensures
            r@ == self.table(),
    {
        let mut fs: Vec<&FunctionSymbol> = Vec::new();
        let mut i: usize = 0;
        while i < self.arity_map.len()
            invariant
                i <= self.arity_map@.len(),
                fs@.len() == i,
                forall|j: int| 0 <= j < i ==> (#[trigger] fs@[j])@ == self.arity_map@[j]@,
            decreases self.arity_map@.len() - i,
        {
            fs.push(&self.arity_map[i]);
            i = i + 1;
        }
        let r = Language::new(&[&self.sort], fs.as_slice(), &[]);
        assert(r@ =~= self.table());
        r
    }
}

} // verus!
