use qf_euf::fol::{Formula, FunctionSymbol, RelationSymbol, Sort, Term, Variable};
use qf_euf::normal_form::ClauseList;
use qf_euf::solver::QFEUFSolver;

fn atom_name(f: &Formula) -> String {
    match f {
        Formula::Equality(Term::Application(l, _), Term::Application(r, _)) => format!("{}={}", l.name(), r.name()),
        _ => String::from("?"),
    }
}

fn holds(f: &Formula, truth: &dyn Fn(&str) -> bool) -> bool {
    match f {
        Formula::Negation(g) => !holds(g, truth),
        Formula::Implication(l, r) => !holds(l, truth) || holds(r, truth),
        Formula::Equivalence(l, r) => holds(l, truth) == holds(r, truth),
        Formula::Conjunction(fs) => fs.iter().all(|g| holds(g, truth)),
        Formula::Disjunction(fs) => fs.iter().any(|g| holds(g, truth)),
        other => truth(&atom_name(other)),
    }
}

fn lit(l: &(bool, Formula), truth: &dyn Fn(&str) -> bool) -> bool {
    truth(&atom_name(&l.1)) != l.0
}

fn dnf_holds(cs: &ClauseList, truth: &dyn Fn(&str) -> bool) -> bool {
    cs.iter().any(|c| c.iter().all(|l| lit(l, truth)))
}

fn cnf_holds(cs: &ClauseList, truth: &dyn Fn(&str) -> bool) -> bool {
    cs.iter().all(|c| c.iter().any(|l| lit(l, truth)))
}

fn constant(name: &str, sort: &Sort) -> Term {
    Term::new_application(&FunctionSymbol::new(name, &[], sort), &[])
}

fn sample_formula() -> (Formula, Vec<String>) {
    let sort = Sort::new("A");
    let a = constant("a", &sort);
    let b = constant("b", &sort);
    let c = constant("c", &sort);
    let p = Formula::new_equality(&a, &b);
    let q = Formula::new_equality(&b, &c);
    let r = Formula::new_equality(&a, &c);
    let f = Formula::new_conjunction(&[
        &Formula::new_equivalence(&p, &q),
        &Formula::new_negation(&Formula::new_disjunction(&[&r, &Formula::new_implication(&q, &p)])),
        &Formula::new_disjunction(&[&p, &Formula::new_negation(&r), &Formula::verum()]),
    ]);
    (f, vec!["a=b".to_string(), "b=c".to_string(), "a=c".to_string()])
}

#[test]
fn normal_forms_agree_with_truth_tables() {
    let (f, atoms) = sample_formula();
    let dnf = QFEUFSolver::to_dnf(&f);
    let cnf = QFEUFSolver::to_cnf(&f);
    for mask in 0..8u32 {
        let truth = |name: &str| {
            let k = atoms.iter().position(|a| a == name).unwrap();
            mask & (1 << k) != 0
        };
        assert_eq!(dnf_holds(&dnf, &truth), holds(&f, &truth));
        assert_eq!(cnf_holds(&cnf, &truth), holds(&f, &truth));
    }
}

#[test]
fn empty_connectives_normal_forms() {
    assert_eq!(QFEUFSolver::to_dnf(&Formula::verum()).len(), 1);
    assert_eq!(QFEUFSolver::to_dnf(&Formula::verum())[0].len(), 0);
    assert_eq!(QFEUFSolver::to_dnf(&Formula::falsum()).len(), 0);
    assert_eq!(QFEUFSolver::to_cnf(&Formula::verum()).len(), 0);
    assert_eq!(QFEUFSolver::to_cnf(&Formula::falsum()).len(), 1);
}

#[test]
fn negation_flips_the_dual_form() {
    let (f, _) = sample_formula();
    let mut dnf = QFEUFSolver::to_dnf(&f);
    QFEUFSolver::flip_literals(&mut dnf);
    let cnf_neg = QFEUFSolver::to_cnf(&Formula::new_negation(&f));
    assert_eq!(dnf.len(), cnf_neg.len());
    for (c1, c2) in dnf.iter().zip(cnf_neg.iter()) {
        assert_eq!(c1.len(), c2.len());
        for (l1, l2) in c1.iter().zip(c2.iter()) {
            assert_eq!(l1.0, l2.0);
            assert_eq!(atom_name(&l1.1), atom_name(&l2.1));
        }
    }
}

#[test]
fn product_of_disjunctions() {
    let sort = Sort::new("A");
    let a = constant("a", &sort);
    let b = constant("b", &sort);
    let c = constant("c", &sort);
    let d = constant("d", &sort);
    let p = Formula::new_equality(&a, &b);
    let q = Formula::new_equality(&c, &d);
    let r = Formula::new_equality(&a, &c);
    // (p \/ q) /\ r has two clauses: [p, r] and [q, r]
    let f = Formula::new_conjunction(&[&Formula::new_disjunction(&[&p, &q]), &r]);
    let dnf = QFEUFSolver::to_dnf(&f);
    assert_eq!(dnf.len(), 2);
    assert_eq!(atom_name(&dnf[0][0].1), "a=b");
    assert_eq!(atom_name(&dnf[0][1].1), "a=c");
    assert_eq!(atom_name(&dnf[1][0].1), "c=d");
    assert!(dnf.iter().all(|c| c.iter().all(|l| !l.0)));
    let copy = QFEUFSolver::clone_clause(&dnf[1]);
    assert_eq!(copy.len(), 2);
}

#[test]
fn symbol_identity_and_arity() {
    let a = Sort::new("A");
    let b = Sort::new("B");
    let f1 = FunctionSymbol::new("f", &[&a], &a);
    let f2 = FunctionSymbol::new("f", &[&a], &a);
    let f3 = FunctionSymbol::new("f", &[&b], &a);
    let f4 = FunctionSymbol::new("f", &[&a, &a], &a);
    assert!(f1 == f2);
    assert!(f1 != f3);
    assert!(f1 != f4);
    assert_eq!(f4.arity(), 2);
    assert!(a == Sort::new("A"));
    assert!(a != b);
    let r = RelationSymbol::new("R", &[&a]);
    assert_eq!(r.name(), "R");
}

#[test]
fn solver_symbol_table() {
    let a = Sort::new("A");
    let c = FunctionSymbol::new("c", &[], &a);
    let f = FunctionSymbol::new("f", &[&a], &a);
    let lang = qf_euf::fol::Language::new(&[&a], &[&c], &[]);
    let mut solver = QFEUFSolver::new(&lang);
    assert_eq!(solver.get_symbol_id(&c), Some(0));
    assert_eq!(solver.get_symbol_id(&f), None);
    assert_eq!(solver.add_symbol(&f), 1);
    assert_eq!(solver.add_symbol(&c), 0);
    assert_eq!(solver.add_symbol(&f), 1);
    let t = Term::new_application(&f, &[&Term::new_application(&c, &[])]);
    let n = solver.add_term(&t).unwrap();
    let m = solver.add_term(&t).unwrap();
    assert_eq!(n, m);
    let k = solver.add_term(&Term::new_application(&c, &[])).unwrap();
    assert!(!solver.check_equality(n, k));
    solver.add_equality(n, k);
    assert!(solver.check_equality(k, n));
    let x = Term::new_variable(3, &a);
    assert_eq!(solver.add_term(&x), Err(qf_euf::solver::Unsupported::Variable));
    let fx = Term::new_application(&f, &[&x]);
    assert_eq!(solver.add_term(&fx), Err(qf_euf::solver::Unsupported::Variable));
}

#[test]
fn free_variables() {
    let a = Sort::new("A");
    let f = FunctionSymbol::new("f", &[&a, &a], &a);
    let x0 = Term::new_variable(0, &a);
    let x1 = Term::new_variable(1, &a);
    let t = Term::new_application(&f, &[&x0, &x1]);
    let tv = t.get_free_variables();
    assert!(tv.contains(&Variable { index: 0, sort: Sort::new("A") }));
    assert!(tv.contains(&Variable { index: 1, sort: Sort::new("A") }));
    assert!(!tv.contains(&Variable { index: 2, sort: Sort::new("A") }));
    let eq = Formula::new_equality(&t, &x0);
    let bound = Formula::UniversalQuantification(Variable { index: 0, sort: Sort::new("A") }, Box::new(eq.copy()));
    let fv = bound.get_free_variables();
    assert!(!fv.contains(&Variable { index: 0, sort: Sort::new("A") }));
    assert!(fv.contains(&Variable { index: 1, sort: Sort::new("A") }));
    // a variable free elsewhere stays free
    let both = Formula::new_conjunction(&[&eq, &bound]);
    let fv2 = both.get_free_variables();
    assert!(fv2.contains(&Variable { index: 0, sort: Sort::new("A") }));
    let mut set = qf_euf::fol::VariableSet::new();
    set.insert(&Variable { index: 5, sort: Sort::new("B") });
    set.insert(&Variable { index: 5, sort: Sort::new("B") });
    assert!(set.contains(&Variable { index: 5, sort: Sort::new("B") }));
    set.remove(&Variable { index: 5, sort: Sort::new("B") });
    assert!(!set.contains(&Variable { index: 5, sort: Sort::new("B") }));
}

#[test]
fn add_term_appends_each_missing_symbol_once() {
    let a = Sort::new("A");
    let c = FunctionSymbol::new("c", &[], &a);
    let g = FunctionSymbol::new("g", &[&a], &a);
    let f = FunctionSymbol::new("f", &[&a, &a], &a);
    let lang = qf_euf::fol::Language::new(&[&a], &[], &[]);
    let mut solver = QFEUFSolver::new(&lang);
    let tc = Term::new_application(&c, &[]);
    let gc = Term::new_application(&g, &[&tc]);
    let t = Term::new_application(&f, &[&gc, &gc]);
    let n = solver.add_term(&t).unwrap();
    assert_eq!(solver.get_symbol_id(&c), Some(0));
    assert_eq!(solver.get_symbol_id(&g), Some(1));
    assert_eq!(solver.get_symbol_id(&f), Some(2));
    assert_eq!(solver.congruence_graph.len(), 3);
    // adding it again gives the same node and adds nothing
    assert_eq!(solver.add_term(&t).unwrap(), n);
    let m = solver.add_term(&gc).unwrap();
    assert_eq!(solver.congruence_graph.len(), 3);
    assert_ne!(m, n);
    assert_eq!(solver.add_symbol(&g), 1);
}

#[test]
fn negated_relation_is_unknown() {
    let a = Sort::new("A");
    let c = FunctionSymbol::new("c", &[], &a);
    let lang = qf_euf::fol::Language::new(&[&a], &[&c], &[]);
    let r = RelationSymbol::new("R", &[&a]);
    let rel = Formula::new_relation_application(&r, &[&Term::new_application(&c, &[])]);
    let f = Formula::new_negation(&rel);
    assert_eq!(QFEUFSolver::sat(&lang, &f), qf_euf::solver::SatResult::Unknown);
}
