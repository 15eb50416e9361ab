use libbit::graph::dag::DagBuilder;

///  a   -      b
///              \
///  c - d        g
///        \    /
///  e   -   f
fn sample_dag() -> (DagBuilder, Vec<usize>) {
    let mut dag = DagBuilder::new();
    let nodes = dag.mk_nodes(7);
    let (a, b, c, d, e, f, g) = (nodes[0], nodes[1], nodes[2], nodes[3], nodes[4], nodes[5], nodes[6]);
    dag.add_parents(&vec![(g, b), (g, f), (f, d), (f, e), (d, c), (b, a)]);
    (dag, nodes)
}

#[test]
fn test_topological_sort() {
    let (dag, _) = sample_dag();
    let topological_sort = dag.topological();
    assert!(dag.is_topological(&topological_sort));
}

#[test]
fn test_reverse_topological_sort() {
    let (dag, _) = sample_dag();
    let topological_sort = dag.reverse_topological();
    assert!(dag.is_reverse_topological(&topological_sort));
}

#[test]
fn topological_sort_holds_every_node_of_a_dag() {
    let (dag, nodes) = sample_dag();
    let order = dag.topological();
    assert_eq!(order.len(), 7);
    for n in nodes {
        assert!(order.contains(&n));
    }
    // g has no children, so it is free first
    assert_eq!(order, vec![6, 1, 5, 0, 3, 4, 2]);
    assert!(!dag.is_reverse_topological(&order));
}

#[test]
fn topological_sort_leaves_out_cycles() {
    let mut dag = DagBuilder::new();
    let n = dag.mk_nodes(3);
    dag.add_parent(n[0], n[1]);
    dag.add_parent(n[1], n[0]);
    dag.add_parent(n[2], n[0]);
    let order = dag.topological();
    assert_eq!(order, vec![n[2]]);
}

#[test]
fn is_topological_checks_every_edge() {
    let (dag, _) = sample_dag();
    // a before b, but b is a parent of g which comes last
    assert!(!dag.is_topological(&vec![0, 1, 2, 3, 4, 5, 6]));
    assert!(dag.is_topological(&vec![6, 5, 4, 3, 2, 1, 0]));
    assert!(dag.is_reverse_topological(&vec![0, 1, 2, 3, 4, 5, 6]));
}
