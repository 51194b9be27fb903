use why_rs::combinations::get_combinations;
use why_rs::dag::DAG;
use why_rs::error::CausalError;

#[test]
fn combinations_in_pool_order() {
    let r = get_combinations(&vec![1, 2, 3], 2);
    assert_eq!(r, vec![vec![1, 2], vec![1, 3], vec![2, 3]]);
    let all = get_combinations(&vec![4, 5, 6, 7], 3);
    assert_eq!(all, vec![vec![4, 5, 6], vec![4, 5, 7], vec![4, 6, 7], vec![5, 6, 7]]);
}

#[test]
fn combinations_edge_cases() {
    assert_eq!(get_combinations(&vec![1, 2], 0), vec![Vec::<usize>::new()]);
    assert_eq!(get_combinations(&vec![], 0), vec![Vec::<usize>::new()]);
    assert!(get_combinations(&vec![1, 2], 3).is_empty());
    assert_eq!(get_combinations(&vec![9], 1), vec![vec![9]]);
}

#[test]
fn dag_builder_skips_duplicate_nodes() {
    let g = DAG::new().node("A").node("B").node("A").edge("A", "B");
    assert_eq!(g.variables(), vec!["A".to_string(), "B".to_string()]);
    assert_eq!(g.get_index(&"B".to_string()), Some(1));
    assert_eq!(g.get_index(&"C".to_string()), None);
    assert_eq!(g.get_parents(&"B".to_string()), vec!["A".to_string()]);
    assert!(g.get_parents(&"A".to_string()).is_empty());
}

#[test]
fn dag_parents_in_index_order() {
    let g = DAG::new().node("A").node("B").node("C").edge("C", "B").edge("A", "B");
    assert_eq!(g.get_parents(&"B".to_string()), vec!["A".to_string(), "C".to_string()]);
    assert!(g.has_edge(2, 1));
    assert!(!g.has_edge(1, 2));
}

#[test]
fn dag_sort_puts_causes_first() {
    let g = DAG::new().node("C").node("B").node("A").edge("A", "B").edge("B", "C");
    let order = g.sort().unwrap();
    assert_eq!(order, vec!["A".to_string(), "B".to_string(), "C".to_string()]);
    let mut d = DAG::new();
    d.add_node("P".to_string());
    d.add_node("P".to_string());
    assert_eq!(d.node_count(), 2);
}

#[test]
fn dag_sort_rejects_cycles() {
    let g = DAG::new().node("A").node("B").edge("A", "B").edge("B", "A");
    assert!(matches!(g.sort(), Err(CausalError::TopologicalSortFailed)));
    let s = DAG::new().node("A").edge("A", "A");
    assert!(matches!(s.sort(), Err(CausalError::TopologicalSortFailed)));
    assert_eq!(CausalError::TopologicalSortFailed.message(), "topological sort failed, the graph is not a DAG");
}

#[test]
fn dot_text_loads_correct_topology() {
    let dot_content = r#"
    digraph G {
        A -> B -> C;
        B -> D;
        A -> D;
        D -> E;
        C -> E;

        A [label="Start"];
        E [label="End"];
    }
    "#;
    let loaded = DAG::from_dot(dot_content).expect("DAG::from_dot failed to parse");
    let expected = DAG::new()
        .node("A")
        .node("B")
        .edge("A", "B")
        .node("A")
        .node("D")
        .edge("A", "D")
        .node("B")
        .node("D")
        .edge("B", "D")
        .node("B")
        .node("C")
        .edge("B", "C")
        .node("C")
        .node("E")
        .edge("C", "E")
        .node("D")
        .node("E")
        .edge("D", "E");
    assert!(
        petgraph::algo::is_isomorphic(&loaded.graph, &expected.graph),
        "The graph loaded from the text does not match the expected structure!"
    );
    assert_eq!(loaded.node_count(), 5);
    let a = loaded.get_index(&"A".to_string()).unwrap();
    let d = loaded.get_index(&"D".to_string()).unwrap();
    assert!(loaded.has_edge(a, d));
    assert!(!loaded.has_edge(d, a));
}

#[test]
fn invalid_dot_text_is_rejected() {
    assert!(DAG::from_dot("digraph { A -> ").is_err());
}
