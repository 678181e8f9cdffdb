use qf_euf::fol::{Formula, FunctionSymbol, Language, Sort, Term};
use qf_euf::solver::{QFEUFSolver, SatResult};

struct Vocabulary {
    sort: Sort,
}

impl Vocabulary {
    fn new() -> Vocabulary {
        Vocabulary { sort: Sort::new("A") }
    }

    fn constant(&self, name: &str) -> FunctionSymbol {
        FunctionSymbol::new(name, &[], &self.sort)
    }

    fn unary(&self, name: &str) -> FunctionSymbol {
        FunctionSymbol::new(name, &[&self.sort], &self.sort)
    }
}

fn app(f: &FunctionSymbol, args: &[&Term]) -> Term {
    Term::new_application(f, args)
}

fn iterate(f: &FunctionSymbol, t: &Term, n: usize) -> Term {
    let mut cur = t.copy();
    for _ in 0..n {
        cur = app(f, &[&cur]);
    }
    cur
}

fn eq(a: &Term, b: &Term) -> Formula {
    Formula::new_equality(a, b)
}

fn neq(a: &Term, b: &Term) -> Formula {
    Formula::new_negation(&Formula::new_equality(a, b))
}

#[test]
fn three_and_five_cycles_give_one_cycle() {
    let v = Vocabulary::new();
    let a_sym = v.constant("a");
    let f = v.unary("f");
    let lang = Language::new(&[&v.sort], &[&a_sym, &f], &[]);
    let a = app(&a_sym, &[]);
    let formula = Formula::new_conjunction(&[
        &eq(&iterate(&f, &a, 3), &a),
        &eq(&iterate(&f, &a, 5), &a),
        &neq(&iterate(&f, &a, 1), &a),
    ]);
    assert_eq!(QFEUFSolver::sat(&lang, &formula), SatResult::Unsat);
}

#[test]
fn equal_arguments_give_equal_applications() {
    let v = Vocabulary::new();
    let a_sym = v.constant("a");
    let b_sym = v.constant("b");
    let f = v.unary("f");
    let lang = Language::new(&[&v.sort], &[&a_sym, &b_sym, &f], &[]);
    let a = app(&a_sym, &[]);
    let b = app(&b_sym, &[]);
    let formula = Formula::new_conjunction(&[&eq(&a, &b), &neq(&app(&f, &[&a]), &app(&f, &[&b]))]);
    assert_eq!(QFEUFSolver::sat(&lang, &formula), SatResult::Unsat);
}

#[test]
fn disjunction_of_equalities_is_sat() {
    let v = Vocabulary::new();
    let syms: Vec<FunctionSymbol> = ["a", "b", "c", "d"].iter().map(|n| v.constant(n)).collect();
    let lang = Language::new(&[&v.sort], &syms.iter().collect::<Vec<_>>(), &[]);
    let t: Vec<Term> = syms.iter().map(|s| app(s, &[])).collect();
    let formula = Formula::new_disjunction(&[&eq(&t[0], &t[1]), &eq(&t[2], &t[3])]);
    assert_eq!(QFEUFSolver::sat(&lang, &formula), SatResult::Sat);
}

#[test]
fn fixed_point_of_f_is_fixed_by_f_twice() {
    let v = Vocabulary::new();
    let a_sym = v.constant("a");
    let f = v.unary("f");
    let lang = Language::new(&[&v.sort], &[&a_sym, &f], &[]);
    let a = app(&a_sym, &[]);
    let formula = Formula::new_conjunction(&[&eq(&iterate(&f, &a, 1), &a), &neq(&iterate(&f, &a, 2), &a)]);
    assert_eq!(QFEUFSolver::sat(&lang, &formula), SatResult::Unsat);
}

#[test]
fn transitivity_contradiction() {
    let v = Vocabulary::new();
    let syms: Vec<FunctionSymbol> = ["a", "b", "c"].iter().map(|n| v.constant(n)).collect();
    let lang = Language::new(&[&v.sort], &syms.iter().collect::<Vec<_>>(), &[]);
    let t: Vec<Term> = syms.iter().map(|s| app(s, &[])).collect();
    let formula = Formula::new_conjunction(&[&eq(&t[0], &t[1]), &eq(&t[1], &t[2]), &neq(&t[0], &t[2])]);
    assert_eq!(QFEUFSolver::sat(&lang, &formula), SatResult::Unsat);
}

#[test]
fn empty_conjunction_and_disjunction() {
    let v = Vocabulary::new();
    let lang = Language::new(&[&v.sort], &[], &[]);
    assert_eq!(QFEUFSolver::sat(&lang, &Formula::verum()), SatResult::Sat);
    assert_eq!(QFEUFSolver::sat(&lang, &Formula::falsum()), SatResult::Unsat);
}

#[test]
fn consistent_equalities_are_sat() {
    let v = Vocabulary::new();
    let a_sym = v.constant("a");
    let b_sym = v.constant("b");
    let f = v.unary("f");
    let lang = Language::new(&[&v.sort], &[&a_sym, &b_sym, &f], &[]);
    let a = app(&a_sym, &[]);
    let b = app(&b_sym, &[]);
    // f(a) = b does not force a = b
    let formula = Formula::new_conjunction(&[&eq(&app(&f, &[&a]), &b), &neq(&a, &b)]);
    assert_eq!(QFEUFSolver::sat(&lang, &formula), SatResult::Sat);
}

#[test]
fn implication_and_equivalence() {
    let v = Vocabulary::new();
    let syms: Vec<FunctionSymbol> = ["a", "b", "c"].iter().map(|n| v.constant(n)).collect();
    let lang = Language::new(&[&v.sort], &syms.iter().collect::<Vec<_>>(), &[]);
    let t: Vec<Term> = syms.iter().map(|s| app(s, &[])).collect();
    // (a = b -> b = c) /\ a = b /\ a != c
    let imp = Formula::new_implication(&eq(&t[0], &t[1]), &eq(&t[1], &t[2]));
    let f1 = Formula::new_conjunction(&[&imp, &eq(&t[0], &t[1]), &neq(&t[0], &t[2])]);
    assert_eq!(QFEUFSolver::sat(&lang, &f1), SatResult::Unsat);
    // (a = b <-> b = c) is satisfiable
    let iff = Formula::new_equivalence(&eq(&t[0], &t[1]), &eq(&t[1], &t[2]));
    assert_eq!(QFEUFSolver::sat(&lang, &iff), SatResult::Sat);
    // !(a = a) is unsat
    assert_eq!(QFEUFSolver::sat(&lang, &neq(&t[0], &t[0])), SatResult::Unsat);
}

#[test]
fn variables_and_relations_are_unknown() {
    let v = Vocabulary::new();
    let a_sym = v.constant("a");
    let lang = Language::new(&[&v.sort], &[&a_sym], &[]);
    let a = app(&a_sym, &[]);
    let x = Term::new_variable(0, &v.sort);
    assert_eq!(QFEUFSolver::sat(&lang, &eq(&x, &a)), SatResult::Unknown);
    let r = qf_euf::fol::RelationSymbol::new("R", &[&v.sort]);
    let rel = Formula::new_relation_application(&r, &[&a]);
    assert_eq!(QFEUFSolver::sat(&lang, &rel), SatResult::Unknown);
    // a satisfiable clause wins over an unsupported one
    let either = Formula::new_disjunction(&[&rel, &eq(&a, &a)]);
    assert_eq!(QFEUFSolver::sat(&lang, &either), SatResult::Sat);
}
