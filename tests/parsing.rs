use qf_euf::fol::{Formula, Sort, Term};
use qf_euf::parser::UnsortedParser;
use qf_euf::solver::{QFEUFSolver, SatResult};

fn decide(text: &str) -> SatResult {
    let sort = Sort::new("A");
    let mut parser = UnsortedParser::new(&sort);
    let formula = parser.parse_formula(text).expect("formula parses");
    QFEUFSolver::sat(&parser.get_language(), &formula)
}

#[test]
fn parsed_three_and_five_cycles() {
    assert_eq!(decide(r"f(f(f(a))) = a /\ f(f(f(f(f(a))))) = a /\ f(a) != a"), SatResult::Unsat);
}

#[test]
fn parsed_congruence() {
    assert_eq!(decide(r"a = b /\ f(a) != f(b)"), SatResult::Unsat);
}

#[test]
fn parsed_disjunction() {
    assert_eq!(decide(r"a = b \/ c = d"), SatResult::Sat);
}

#[test]
fn parsed_fixed_point() {
    assert_eq!(decide(r"f(a) = a /\ f(f(a)) != a"), SatResult::Unsat);
}

#[test]
fn parsed_transitivity() {
    assert_eq!(decide(r"a = b /\ b = c /\ a != c"), SatResult::Unsat);
}

#[test]
fn parsed_implication_and_negation() {
    assert_eq!(decide(r"a = b -> b = a"), SatResult::Sat);
    assert_eq!(decide(r"!(a = b -> b = a)"), SatResult::Unsat);
    assert_eq!(decide(r"!a = a"), SatResult::Unsat);
    assert_eq!(decide(r"(a = b \/ a = c) /\ b != a /\ c != a"), SatResult::Unsat);
}

#[test]
fn parse_shapes() {
    let sort = Sort::new("A");
    let mut parser = UnsortedParser::new(&sort);
    let f = parser.parse_formula("  a = b  ").unwrap();
    match f {
        Formula::Disjunction(ds) => {
            assert_eq!(ds.len(), 1);
            match &ds[0] {
                Formula::Conjunction(cs) => {
                    assert_eq!(cs.len(), 1);
                    assert!(matches!(cs[0], Formula::Equality(_, _)));
                }
                _ => panic!("expected a conjunction"),
            }
        }
        _ => panic!("expected a disjunction"),
    }
    let g = parser.parse_formula("a != b").unwrap();
    match g {
        Formula::Disjunction(ds) => match &ds[0] {
            Formula::Conjunction(cs) => assert!(matches!(&cs[0], Formula::Negation(_))),
            _ => panic!("expected a conjunction"),
        },
        _ => panic!("expected a disjunction"),
    }
    let h = parser.parse_formula("a = b -> c = d").unwrap();
    assert!(matches!(h, Formula::Implication(_, _)));
}

#[test]
fn parse_terms_and_language() {
    let sort = Sort::new("A");
    let mut parser = UnsortedParser::new(&sort);
    let t = parser.parse_term("f(a, g(b))").unwrap();
    match t {
        Term::Application(f, args) => {
            assert_eq!(f.name(), "f");
            assert_eq!(f.arity(), 2);
            assert_eq!(args.len(), 2);
        }
        _ => panic!("expected an application"),
    }
    let lang = parser.get_language();
    let names: Vec<&str> = lang.iter_function_symbols().iter().map(|s| s.name()).collect();
    assert_eq!(names.len(), 4);
    assert!(names.contains(&"f") && names.contains(&"g") && names.contains(&"a") && names.contains(&"b"));
}

#[test]
fn parse_failures() {
    let sort = Sort::new("A");
    for text in ["a =", "a = b /\\", "(a = b", "a == b", "f(a) = f", "a = b extra", "f(a,) = b"] {
        let mut parser = UnsortedParser::new(&sort);
        assert!(parser.parse_formula(text).is_none(), "{} should not parse", text);
    }
}

#[test]
fn arity_is_fixed_by_first_use() {
    let sort = Sort::new("A");
    let mut parser = UnsortedParser::new(&sort);
    assert!(parser.parse_formula("f(a) = b").is_some());
    assert!(parser.parse_formula("f(a, a) = b").is_none());
}
