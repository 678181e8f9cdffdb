//! Disjunctive and conjunctive normal forms of the Boolean skeleton of a
//! formula, and their meaning.
use vstd::prelude::*;
use crate::fol::{Formula, FormulaV};

verus! {

/// A signed atom: `(negated, atom)`.
pub type Literal = (bool, Formula);

pub type Clause = Vec<Literal>;

pub type ClauseList = Vec<Clause>;

pub type LitV = (bool, FormulaV);

pub open spec fn clause_view(c: Seq<Literal>) -> Seq<LitV> {
    c.map_values(|l: Literal| (l.0, l.1@))
}

pub open spec fn clauses_view(cs: Seq<Clause>) -> Seq<Seq<LitV>> {
    cs.map_values(|c: Clause| clause_view(c@))
}

/// Every literal with its sign flipped.
pub open spec fn flip(cs: Seq<Seq<LitV>>) -> Seq<Seq<LitV>> {
    cs.map_values(|c: Seq<LitV>| c.map_values(|l: LitV| (!l.0, l.1)))
}

/// `xs[i] + ys[j]` for each `i`, and for each `j` within it.
pub open spec fn product(xs: Seq<Seq<LitV>>, ys: Seq<Seq<LitV>>) -> Seq<Seq<LitV>>
    decreases xs.len(),
{
    if xs.len() == 0 {
        Seq::empty()
    } else {
        product(xs.drop_last(), ys) + ys.map_values(|c: Seq<LitV>| xs.last() + c)
    }
}

/// Disjunctive normal form: a disjunction of conjunctions of literals.
pub open spec fn dnf(f: FormulaV) -> Seq<Seq<LitV>>
    decreases f,
{
    match f {
        FormulaV::Not(g) => flip(cnf(*g)),
        FormulaV::Imp(l, r) => flip(cnf(*l)) + dnf(*r),
        FormulaV::Iff(l, r) => product(flip(cnf(*l)) + dnf(*r), flip(cnf(*r)) + dnf(*l)),
        FormulaV::And(fs) => dnf_and(fs),
        FormulaV::Or(fs) => dnf_or(fs),
        _ => seq![seq![(false, f)]],
    }
}

pub open spec fn dnf_and(fs: Seq<FormulaV>) -> Seq<Seq<LitV>>
    decreases fs,
{
    if fs.len() == 0 {
        seq![Seq::empty()]
    } else {
        product(dnf(fs[0]), dnf_and(fs.subrange(1, fs.len() as int)))
    }
}

pub open spec fn dnf_or(fs: Seq<FormulaV>) -> Seq<Seq<LitV>>
    decreases fs,
{
    if fs.len() == 0 {
        Seq::empty()
    } else {
        dnf(fs[0]) + dnf_or(fs.subrange(1, fs.len() as int))
    }
}

/// Conjunctive normal form: a conjunction of disjunctions of literals.
pub open spec fn cnf(f: FormulaV) -> Seq<Seq<LitV>>
    decreases f,
{
    match f {
        FormulaV::Not(g) => flip(dnf(*g)),
        FormulaV::Imp(l, r) => product(flip(dnf(*l)), cnf(*r)),
        FormulaV::Iff(l, r) => product(flip(dnf(*l)), cnf(*r)) + product(flip(dnf(*r)), cnf(*l)),
        FormulaV::And(fs) => cnf_and(fs),
        FormulaV::Or(fs) => cnf_or(fs),
        _ => seq![seq![(false, f)]],
    }
}

pub open spec fn cnf_and(fs: Seq<FormulaV>) -> Seq<Seq<LitV>>
    decreases fs,
{
    if fs.len() == 0 {
        Seq::empty()
    } else {
        cnf(fs[0]) + cnf_and(fs.subrange(1, fs.len() as int))
    }
}

pub open spec fn cnf_or(fs: Seq<FormulaV>) -> Seq<Seq<LitV>>
    decreases fs,
{
    if fs.len() == 0 {
        seq![Seq::empty()]
    } else {
        product(cnf(fs[0]), cnf_or(fs.subrange(1, fs.len() as int)))
    }
}

// Boolean meaning, with atoms (equalities, relation applications and
// quantified formulas) valued by `atom`.
pub open spec fn holds(f: FormulaV, atom: spec_fn(FormulaV) -> bool) -> bool
    decreases f,
{
    match f {
        FormulaV::Not(g) => !holds(*g, atom),
        FormulaV::Imp(l, r) => !holds(*l, atom) || holds(*r, atom),
        FormulaV::Iff(l, r) => holds(*l, atom) == holds(*r, atom),
        FormulaV::And(fs) => all_hold(fs, atom),
        FormulaV::Or(fs) => any_holds(fs, atom),
        _ => atom(f),
    }
}

pub open spec fn all_hold(fs: Seq<FormulaV>, atom: spec_fn(FormulaV) -> bool) -> bool
    decreases fs,
{
    fs.len() == 0 || (holds(fs[0], atom) && all_hold(fs.subrange(1, fs.len() as int), atom))
}

pub open spec fn any_holds(fs: Seq<FormulaV>, atom: spec_fn(FormulaV) -> bool) -> bool
    decreases fs,
{
    fs.len() > 0 && (holds(fs[0], atom) || any_holds(fs.subrange(1, fs.len() as int), atom))
}

pub open spec fn lit_holds(l: LitV, atom: spec_fn(FormulaV) -> bool) -> bool {
    if l.0 {
        !atom(l.1)
    } else {
        atom(l.1)
    }
}

/// Every literal of `c` holds.
pub open spec fn all_lits(c: Seq<LitV>, atom: spec_fn(FormulaV) -> bool) -> bool {
    forall|i: int| 0 <= i < c.len() ==> lit_holds(#[trigger] c[i], atom)
}

/// Some literal of `c` holds.
pub open spec fn some_lit(c: Seq<LitV>, atom: spec_fn(FormulaV) -> bool) -> bool {
    exists|i: int| 0 <= i < c.len() && lit_holds(#[trigger] c[i], atom)
}

/// A disjunction of conjunctions holds.
pub open spec fn dnf_holds(cs: Seq<Seq<LitV>>, atom: spec_fn(FormulaV) -> bool) -> bool {
    exists|i: int| 0 <= i < cs.len() && all_lits(#[trigger] cs[i], atom)
}

/// A conjunction of disjunctions holds.
pub open spec fn cnf_holds(cs: Seq<Seq<LitV>>, atom: spec_fn(FormulaV) -> bool) -> bool {
    forall|i: int| 0 <= i < cs.len() ==> some_lit(#[trigger] cs[i], atom)
}

proof fn lemma_flip(cs: Seq<Seq<LitV>>, atom: spec_fn(FormulaV) -> bool)
    ensures
        dnf_holds(flip(cs), atom) == !cnf_holds(cs, atom),
        cnf_holds(flip(cs), atom) == !dnf_holds(cs, atom),
{
    let fl = flip(cs);
    assert forall|i: int| 0 <= i < cs.len() implies all_lits(#[trigger] fl[i], atom) == !some_lit(cs[i], atom)
        && some_lit(fl[i], atom) == !all_lits(cs[i], atom) by {
        let c = cs[i];
        let d = fl[i];
        assert(d == c.map_values(|l: LitV| (!l.0, l.1)));
        assert forall|j: int| 0 <= j < c.len() implies lit_holds(#[trigger] d[j], atom) == !lit_holds(c[j], atom) by {
            assert(d[j] == (!c[j].0, c[j].1));
        }
        if some_lit(c, atom) {
            let j = choose|j: int| 0 <= j < c.len() && lit_holds(#[trigger] c[j], atom);
            assert(!lit_holds(d[j], atom));
        }
        if !all_lits(c, atom) {
            let j = choose|j: int| 0 <= j < c.len() && !lit_holds(#[trigger] c[j], atom);
            assert(lit_holds(d[j], atom));
        }
    }
    if cnf_holds(cs, atom) {
        assert forall|i: int| 0 <= i < fl.len() implies !all_lits(#[trigger] fl[i], atom) by {
            assert(some_lit(cs[i], atom));
        }
    } else {
        let i = choose|i: int| 0 <= i < cs.len() && !some_lit(#[trigger] cs[i], atom);
        assert(all_lits(fl[i], atom));
    }
    if dnf_holds(cs, atom) {
        let i = choose|i: int| 0 <= i < cs.len() && all_lits(#[trigger] cs[i], atom);
        assert(!some_lit(fl[i], atom));
    } else {
        assert forall|i: int| 0 <= i < fl.len() implies some_lit(#[trigger] fl[i], atom) by {
            assert(!all_lits(cs[i], atom));
        }
    }
}

proof fn lemma_concat(xs: Seq<Seq<LitV>>, ys: Seq<Seq<LitV>>, atom: spec_fn(FormulaV) -> bool)
    ensures
        dnf_holds(xs + ys, atom) == (dnf_holds(xs, atom) || dnf_holds(ys, atom)),
        cnf_holds(xs + ys, atom) == (cnf_holds(xs, atom) && cnf_holds(ys, atom)),
{
    let zs = xs + ys;
    if dnf_holds(xs, atom) {
        let i = choose|i: int| 0 <= i < xs.len() && all_lits(#[trigger] xs[i], atom);
        assert(zs[i] == xs[i]);
    }
    if dnf_holds(ys, atom) {
        let i = choose|i: int| 0 <= i < ys.len() && all_lits(#[trigger] ys[i], atom);
        assert(zs[xs.len() + i] == ys[i]);
    }
    if dnf_holds(zs, atom) {
        let i = choose|i: int| 0 <= i < zs.len() && all_lits(#[trigger] zs[i], atom);
        if i < xs.len() {
            assert(zs[i] == xs[i]);
        } else {
            assert(zs[i] == ys[i - xs.len()]);
        }
    }
    if cnf_holds(xs, atom) && cnf_holds(ys, atom) {
        assert forall|i: int| 0 <= i < zs.len() implies some_lit(#[trigger] zs[i], atom) by {
            if i < xs.len() {
                assert(zs[i] == xs[i]);
            } else {
                assert(zs[i] == ys[i - xs.len()]);
            }
        }
    }
    if cnf_holds(zs, atom) {
        assert forall|i: int| 0 <= i < xs.len() implies some_lit(#[trigger] xs[i], atom) by {
            assert(zs[i] == xs[i]);
        }
        assert forall|i: int| 0 <= i < ys.len() implies some_lit(#[trigger] ys[i], atom) by {
            assert(zs[xs.len() + i] == ys[i]);
        }
    }
}

proof fn lemma_prefix_clause(x: Seq<LitV>, c: Seq<LitV>, atom: spec_fn(FormulaV) -> bool)
    ensures
        all_lits(x + c, atom) == (all_lits(x, atom) && all_lits(c, atom)),
        some_lit(x + c, atom) == (some_lit(x, atom) || some_lit(c, atom)),
{
    let z = x + c;
    if all_lits(z, atom) {
        assert forall|i: int| 0 <= i < x.len() implies lit_holds(#[trigger] x[i], atom) by {
            assert(z[i] == x[i]);
        }
        assert forall|i: int| 0 <= i < c.len() implies lit_holds(#[trigger] c[i], atom) by {
            assert(z[x.len() + i] == c[i]);
        }
    }
    if all_lits(x, atom) && all_lits(c, atom) {
        assert forall|i: int| 0 <= i < z.len() implies lit_holds(#[trigger] z[i], atom) by {
            if i < x.len() {
                assert(z[i] == x[i]);
            } else {
                assert(z[i] == c[i - x.len()]);
            }
        }
    }
    if some_lit(x, atom) {
        let i = choose|i: int| 0 <= i < x.len() && lit_holds(#[trigger] x[i], atom);
        assert(z[i] == x[i]);
    }
    if some_lit(c, atom) {
        let i = choose|i: int| 0 <= i < c.len() && lit_holds(#[trigger] c[i], atom);
        assert(z[x.len() + i] == c[i]);
    }
    if some_lit(z, atom) {
        let i = choose|i: int| 0 <= i < z.len() && lit_holds(#[trigger] z[i], atom);
        if i < x.len() {
            assert(z[i] == x[i]);
        } else {
            assert(z[i] == c[i - x.len()]);
        }
    }
}

proof fn lemma_prefix_all(x: Seq<LitV>, ys: Seq<Seq<LitV>>, atom: spec_fn(FormulaV) -> bool)
    ensures
        dnf_holds(ys.map_values(|c: Seq<LitV>| x + c), atom) == (all_lits(x, atom) && dnf_holds(ys, atom)),
        cnf_holds(ys.map_values(|c: Seq<LitV>| x + c), atom) == (some_lit(x, atom) || cnf_holds(ys, atom)),
{
    let zs = ys.map_values(|c: Seq<LitV>| x + c);
    assert forall|i: int| 0 <= i < ys.len() implies #[trigger] zs[i] == x + ys[i] && all_lits(zs[i], atom) == (
    all_lits(x, atom) && all_lits(ys[i], atom)) && some_lit(zs[i], atom) == (some_lit(x, atom) || some_lit(ys[i], atom)) by {
        lemma_prefix_clause(x, ys[i], atom);
    }
    if dnf_holds(zs, atom) {
        let i = choose|i: int| 0 <= i < zs.len() && all_lits(#[trigger] zs[i], atom);
        assert(all_lits(ys[i], atom));
    }
    if all_lits(x, atom) && dnf_holds(ys, atom) {
        let i = choose|i: int| 0 <= i < ys.len() && all_lits(#[trigger] ys[i], atom);
        assert(all_lits(zs[i], atom));
    }
    if !some_lit(x, atom) && cnf_holds(zs, atom) {
        assert forall|i: int| 0 <= i < ys.len() implies some_lit(#[trigger] ys[i], atom) by {
            assert(some_lit(zs[i], atom));
        }
    }
    if some_lit(x, atom) || cnf_holds(ys, atom) {
        assert forall|i: int| 0 <= i < zs.len() implies some_lit(#[trigger] zs[i], atom) by {
            if !some_lit(x, atom) {
                assert(some_lit(ys[i], atom));
            }
        }
    }
}

proof fn lemma_product(xs: Seq<Seq<LitV>>, ys: Seq<Seq<LitV>>, atom: spec_fn(FormulaV) -> bool)
    ensures
        dnf_holds(product(xs, ys), atom) == (dnf_holds(xs, atom) && dnf_holds(ys, atom)),
        cnf_holds(product(xs, ys), atom) == (cnf_holds(xs, atom) || cnf_holds(ys, atom)),
    decreases xs.len(),
{
    if xs.len() == 0 {
        assert(product(xs, ys) =~= Seq::empty());
    } else {
        let init = xs.drop_last();
        let x = xs.last();
        lemma_product(init, ys, atom);
        lemma_prefix_all(x, ys, atom);
        lemma_concat(product(init, ys), ys.map_values(|c: Seq<LitV>| x + c), atom);
        assert(xs =~= init.push(x));
        assert(xs == init + seq![x]);
        lemma_concat(init, seq![x], atom);
        let one = seq![x];
        assert(dnf_holds(one, atom) == all_lits(x, atom)) by {
            if all_lits(x, atom) {
                assert(all_lits(one[0], atom));
            }
        }
        assert(cnf_holds(one, atom) == some_lit(x, atom)) by {
            if !some_lit(x, atom) {
                assert(!some_lit(one[0], atom));
            }
        }
    }
}

/// A formula holds exactly when its DNF holds, and exactly when its CNF
/// holds, whatever the atoms are valued.
pub proof fn lemma_normal_forms_equivalent(f: FormulaV, atom: spec_fn(FormulaV) -> bool)
    ensures
        dnf_holds(dnf(f), atom) == holds(f, atom),
        cnf_holds(cnf(f), atom) == holds(f, atom),
    decreases f,
{
    match f {
        FormulaV::Not(g) => {
            lemma_normal_forms_equivalent(*g, atom);
            lemma_flip(cnf(*g), atom);
            lemma_flip(dnf(*g), atom);
        },
        FormulaV::Imp(l, r) => {
            lemma_normal_forms_equivalent(*l, atom);
            lemma_normal_forms_equivalent(*r, atom);
            lemma_flip(cnf(*l), atom);
            lemma_flip(dnf(*l), atom);
            lemma_concat(flip(cnf(*l)), dnf(*r), atom);
            lemma_product(flip(dnf(*l)), cnf(*r), atom);
        },
        FormulaV::Iff(l, r) => {
            lemma_normal_forms_equivalent(*l, atom);
            lemma_normal_forms_equivalent(*r, atom);
            lemma_flip(cnf(*l), atom);
            lemma_flip(dnf(*l), atom);
            lemma_flip(cnf(*r), atom);
            lemma_flip(dnf(*r), atom);
            lemma_concat(flip(cnf(*l)), dnf(*r), atom);
            lemma_concat(flip(cnf(*r)), dnf(*l), atom);
            lemma_product(flip(cnf(*l)) + dnf(*r), flip(cnf(*r)) + dnf(*l), atom);
            lemma_product(flip(dnf(*l)), cnf(*r), atom);
            lemma_product(flip(dnf(*r)), cnf(*l), atom);
            lemma_concat(product(flip(dnf(*l)), cnf(*r)), product(flip(dnf(*r)), cnf(*l)), atom);
        },
        FormulaV::And(fs) => {
            lemma_and_equivalent(fs, atom);
        },
        FormulaV::Or(fs) => {
            lemma_or_equivalent(fs, atom);
        },
        _ => {
            let one = dnf(f);
            assert(lit_holds(one[0][0], atom) == atom(f));
            assert(all_lits(one[0], atom) == atom(f)) by {
                if atom(f) {
                    assert forall|i: int| 0 <= i < one[0].len() implies lit_holds(#[trigger] one[0][i], atom) by {}
                }
            }
            assert(some_lit(one[0], atom) == atom(f)) by {
                if atom(f) {
                    assert(lit_holds(one[0][0], atom));
                }
            }
            if atom(f) {
                assert(all_lits(one[0], atom));
            }
        },
    }
}

proof fn lemma_and_equivalent(fs: Seq<FormulaV>, atom: spec_fn(FormulaV) -> bool)
    ensures
        dnf_holds(dnf_and(fs), atom) == all_hold(fs, atom),
        cnf_holds(cnf_and(fs), atom) == all_hold(fs, atom),
    decreases fs,
{
    if fs.len() == 0 {
        let one: Seq<Seq<LitV>> = seq![Seq::empty()];
        assert(all_lits(one[0], atom));
    } else {
        let rest = fs.subrange(1, fs.len() as int);
        lemma_normal_forms_equivalent(fs[0], atom);
        lemma_and_equivalent(rest, atom);
        lemma_product(dnf(fs[0]), dnf_and(rest), atom);
        lemma_concat(cnf(fs[0]), cnf_and(rest), atom);
    }
}

proof fn lemma_or_equivalent(fs: Seq<FormulaV>, atom: spec_fn(FormulaV) -> bool)
    ensures
        dnf_holds(dnf_or(fs), atom) == any_holds(fs, atom),
        cnf_holds(cnf_or(fs), atom) == any_holds(fs, atom),
    decreases fs,
{
    if fs.len() == 0 {
        let one: Seq<Seq<LitV>> = seq![Seq::empty()];
        assert(!some_lit(one[0], atom));
    } else {
        let rest = fs.subrange(1, fs.len() as int);
        lemma_normal_forms_equivalent(fs[0], atom);
        lemma_or_equivalent(rest, atom);
        lemma_concat(dnf(fs[0]), dnf_or(rest), atom);
        lemma_product(cnf(fs[0]), cnf_or(rest), atom);
    }
}

/// Negation turns a normal form into the dual one with every sign flipped.
pub proof fn lemma_sign_flip_duality(f: FormulaV)
    ensures
        cnf(FormulaV::Not(Box::new(f))) == flip(dnf(f)),
        dnf(FormulaV::Not(Box::new(f))) == flip(cnf(f)),
{
}

/// A copy of `c`.
pub(crate) fn copy_clause(c: &Clause) -> (r: Clause)
    ensures
        clause_view(r@) == clause_view(c@),
{
    let mut r: Clause = Vec::new();
    let mut i: usize = 0;
    while i < c.len()
        invariant
            i <= c@.len(),
            r@.len() == i,
            forall|j: int| 0 <= j < i ==> (#[trigger] r@[j]).0 == c@[j].0 && r@[j].1@ == c@[j].1@,
        decreases c@.len() - i,
    {
        r.push((c[i].0, c[i].1.copy()));
        i = i + 1;
    }
    assert(clause_view(r@) =~= clause_view(c@));
    r
}

/// The literals of `c1` followed by those of `c2`.
fn concat_clauses(c1: &Clause, c2: &Clause) -> (r: Clause)
    ensures
        clause_view(r@) == clause_view(c1@) + clause_view(c2@),
{
    let mut r = copy_clause(c1);
    let mut tail = copy_clause(c2);
    let ghost v1 = r@;
    r.append(&mut tail);
    assert(clause_view(r@) =~= clause_view(c1@) + clause_view(c2@)) by {
        assert(clause_view(v1) == clause_view(c1@));
    }
    r
}

/// `xs[i] + ys[j]` for each `i`, and for each `j` within it.
pub(crate) fn product_clauses(xs: &ClauseList, ys: &ClauseList) -> (r: ClauseList)
    ensures
        clauses_view(r@) == product(clauses_view(xs@), clauses_view(ys@)),
{
    let ghost xv = clauses_view(xs@);
    let ghost yv = clauses_view(ys@);
    let mut r: ClauseList = Vec::new();
    let mut i: usize = 0;
    while i < xs.len()
        invariant
            i <= xs@.len(),
            xv == clauses_view(xs@),
            yv == clauses_view(ys@),
            clauses_view(r@) == product(xv.subrange(0, i as int), yv),
        decreases xs@.len() - i,
    {
        let ghost before = clauses_view(r@);
        let mut j: usize = 0;
        while j < ys.len()
            invariant
                i < xs@.len(),
                j <= ys@.len(),
                xv == clauses_view(xs@),
                yv == clauses_view(ys@),
                clauses_view(r@) == before + yv.subrange(0, j as int).map_values(|c: Seq<LitV>| xv[i as int] + c),
            decreases ys@.len() - j,
        {
            let c = concat_clauses(&xs[i], &ys[j]);
            let ghost mid = r@;
            r.push(c);
            proof {
                assert(clause_view(xs@[i as int]@) == xv[i as int]);
                assert(clause_view(ys@[j as int]@) == yv[j as int]);
                assert(clauses_view(r@) =~= clauses_view(mid) + seq![clause_view(c@)]);
                assert(yv.subrange(0, j + 1).map_values(|c: Seq<LitV>| xv[i as int] + c) =~= yv.subrange(
                    0,
                    j as int,
                ).map_values(|c: Seq<LitV>| xv[i as int] + c) + seq![xv[i as int] + yv[j as int]]);
            }
            j = j + 1;
        }
        proof {
            let xi = xv.subrange(0, i + 1);
            assert(xi.drop_last() =~= xv.subrange(0, i as int));
            assert(xi.last() == xv[i as int]);
            assert(yv.subrange(0, ys@.len() as int) =~= yv);
        }
        i = i + 1;
    }
    assert(xv.subrange(0, xs@.len() as int) =~= xv);
    r
}

/// Flips the sign of every literal.
pub(crate) fn flip_clauses(clauses: &mut ClauseList)
    ensures
        clauses_view(final(clauses)@) == flip(clauses_view(old(clauses)@)),
{
    let mut src: ClauseList = Vec::new();
    std::mem::swap(clauses, &mut src);
    let ghost sv = clauses_view(src@);
    let mut i: usize = 0;
    while i < src.len()
        invariant
            i <= src@.len(),
            sv == clauses_view(src@),
            clauses@.len() == i,
            forall|j: int| 0 <= j < i ==> clause_view((#[trigger] clauses@[j])@) == flip(sv)[j],
        decreases src@.len() - i,
    {
        let mut c: Clause = Vec::new();
        let mut k: usize = 0;
        while k < src[i].len()
            invariant
                i < src@.len(),
                k <= src@[i as int]@.len(),
                c@.len() == k,
                forall|j: int|
                    0 <= j < k ==> (#[trigger] c@[j]).0 == !src@[i as int]@[j].0 && c@[j].1@
                        == src@[i as int]@[j].1@,
            decreases src@[i as int]@.len() - k,
        {
            c.push((!src[i][k].0, src[i][k].1.copy()));
            k = k + 1;
        }
        proof {
            assert(clause_view(c@) =~= flip(sv)[i as int]);
        }
        clauses.push(c);
        i = i + 1;
    }
    assert(clauses_view(clauses@) =~= flip(sv));
}

} // verus!
