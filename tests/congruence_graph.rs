use qf_euf::congruence::CongruenceGraph;

#[test]
fn add_node_is_hash_consed() {
    let mut g = CongruenceGraph::new();
    let a = g.add_node(0, &vec![]);
    let fa = g.add_node(1, &vec![a]);
    assert_eq!(g.add_node(0, &vec![]), a);
    assert_eq!(g.add_node(1, &vec![a]), fa);
    assert_eq!(g.len(), 2);
    let b = g.add_node(2, &vec![]);
    assert_ne!(a, b);
    assert_eq!(g.len(), 3);
}

#[test]
fn merge_closes_under_congruence() {
    // a = 0, b = 1, f = 2
    let mut g = CongruenceGraph::new();
    let a = g.add_node(0, &vec![]);
    let b = g.add_node(1, &vec![]);
    let fa = g.add_node(2, &vec![a]);
    let fb = g.add_node(2, &vec![b]);
    assert!(!g.same_class(fa, fb));
    assert!(!g.have_congruent_children(fa, fb));
    g.merge_congruence_classes(a, b);
    assert!(g.same_class(a, b));
    assert!(g.have_congruent_children(fa, fb));
    assert!(g.same_class(fa, fb));
    assert_eq!(g.get_congruent_class(fa), g.get_congruent_class(fb));
}

#[test]
fn cycles_of_three_and_five_collapse() {
    // a = 0, f = 1
    let mut g = CongruenceGraph::new();
    let mut nodes = vec![g.add_node(0, &vec![])];
    for i in 0..5 {
        let n = g.add_node(1, &vec![nodes[i]]);
        nodes.push(n);
    }
    g.merge_congruence_classes(nodes[0], nodes[3]);
    assert!(!g.same_class(nodes[0], nodes[1]));
    g.merge_congruence_classes(nodes[0], nodes[5]);
    for n in &nodes {
        assert!(g.same_class(nodes[0], *n));
    }
}

#[test]
fn classes_only_grow() {
    let mut g = CongruenceGraph::new();
    let a = g.add_node(0, &vec![]);
    let b = g.add_node(1, &vec![]);
    let c = g.add_node(2, &vec![]);
    assert!(g.same_class(a, a));
    g.merge_congruence_classes(a, b);
    assert!(g.same_class(b, a));
    g.merge_congruence_classes(b, c);
    assert!(g.same_class(a, c));
    g.add_node(3, &vec![a, c]);
    assert!(g.same_class(a, b) && g.same_class(b, c));
}

#[test]
fn new_node_joins_congruent_class() {
    let mut g = CongruenceGraph::new();
    let a = g.add_node(0, &vec![]);
    let b = g.add_node(1, &vec![]);
    let fa = g.add_node(2, &vec![a]);
    g.merge_congruence_classes(a, b);
    let fb = g.add_node(2, &vec![b]);
    assert_ne!(fa, fb);
    assert!(g.same_class(fa, fb));
}
