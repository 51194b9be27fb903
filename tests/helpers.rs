use why_rs::pc::PC;

fn names(list: &[&str]) -> Vec<String> {
    list.iter().map(|s| s.to_string()).collect()
}

#[test]
fn removal_and_orientation_on_index_level() {
    let mut pc = PC::new(names(&["A", "B", "C"]));
    assert!(pc.are_adjacent(0, 2));
    assert_eq!(pc.get_degree(1), 2);
    assert_eq!(pc.get_neighbors(0), vec![1, 2]);
    assert_eq!(pc.get_undirected_neighbors(0), vec![1, 2]);

    pc.remove_undirected_edge(0, 2);
    assert!(!pc.are_adjacent(0, 2));
    assert!(!pc.are_adjacent(2, 0));
    assert_eq!(pc.get_neighbors(0), vec![1]);
    assert_eq!(pc.edges().len(), 4);

    pc.orient_directed(0, 1);
    assert!(pc.are_adjacent(1, 0));
    assert_eq!(pc.get_undirected_neighbors(0), Vec::<usize>::new());
    assert_eq!(pc.get_undirected_neighbors(1), vec![2]);
    assert_eq!(pc.parents(&"B".to_string()).unwrap(), names(&["A"]));
    assert_eq!(pc.edges().len(), 3);

    // Orienting an already directed edge the other way flips it.
    pc.orient_directed(1, 0);
    assert_eq!(pc.parents(&"A".to_string()).unwrap(), names(&["B"]));
    assert!(pc.parents(&"B".to_string()).unwrap().is_empty());
    assert_eq!(pc.edges().len(), 3);
}

#[test]
fn unshielded_triples_in_scan_order() {
    let mut pc = PC::new(names(&["A", "B", "C", "D"]));
    // Leave the path A - B - C - D and the chord B - D.
    pc.remove_undirected_edge(0, 2);
    pc.remove_undirected_edge(0, 3);
    let triples = pc.find_unshielded_triples();
    assert_eq!(triples, vec![(0, 1, 2), (0, 1, 3)]);
    pc.remove_undirected_edge(1, 3);
    let triples = pc.find_unshielded_triples();
    assert_eq!(triples, vec![(0, 1, 2), (1, 2, 3)]);
}

#[test]
fn colliders_without_separating_sets_orient_inward() {
    let mut pc = PC::new(names(&["A", "B", "C"]));
    pc.remove_undirected_edge(0, 2);
    // No separating set is recorded for A and C, so B is a collider.
    pc.orient_colliders();
    assert_eq!(pc.parents(&"B".to_string()).unwrap(), names(&["A", "C"]));
    assert_eq!(pc.edges().len(), 2);
}

#[test]
fn propagation_follows_a_directed_edge() {
    let mut pc = PC::new(names(&["A", "B", "C"]));
    pc.remove_undirected_edge(0, 2);
    pc.orient_directed(0, 1);
    pc.orient_meek_rules();
    assert_eq!(pc.parents(&"C".to_string()).unwrap(), names(&["B"]));
    assert_eq!(pc.parents(&"B".to_string()).unwrap(), names(&["A"]));
}

#[test]
fn propagation_leaves_shielded_edges_undirected() {
    let mut pc = PC::new(names(&["A", "B", "C"]));
    pc.orient_directed(0, 1);
    pc.orient_meek_rules();
    // A is adjacent to C, so B - C stays undirected.
    assert_eq!(pc.get_undirected_neighbors(1), vec![2]);
    assert_eq!(pc.get_undirected_neighbors(2), vec![0, 1]);
}

#[test]
fn orienting_a_non_adjacent_pair_adds_the_edge() {
    let mut pc = PC::new(names(&["A", "B", "C"]));
    pc.remove_undirected_edge(0, 2);
    assert_eq!(pc.edges().len(), 4);
    pc.orient_directed(2, 0);
    assert_eq!(pc.edges().len(), 5);
    assert_eq!(pc.parents(&"A".to_string()).unwrap(), names(&["C"]));
    // Orienting the same way again changes nothing.
    pc.orient_directed(2, 0);
    assert_eq!(pc.edges().len(), 5);
    assert_eq!(pc.parents(&"A".to_string()).unwrap(), names(&["C"]));
}

#[test]
fn rounds_remove_pairs_with_depth_sized_separators() {
    // True graph: X -> Y <- Z, Y -> W.
    let facts: Vec<(usize, usize, Vec<usize>)> = vec![(0, 2, vec![]), (0, 3, vec![1]), (2, 3, vec![1])];
    let oracle = move |x: usize, y: usize, z: &Vec<usize>| {
        facts.iter().any(|(a, b, s)| ((*a == x && *b == y) || (*a == y && *b == x)) && s == z)
    };
    let mut pc = PC::new(names(&["X", "Y", "Z", "W"]));
    assert!(pc.skeleton_round(0, &oracle));
    assert_eq!(pc.edges().len(), 10);
    assert_eq!(pc.sepset(&"X".to_string(), &"Z".to_string()).unwrap(), Some(vec![]));
    assert!(pc.skeleton_round(1, &oracle));
    assert_eq!(pc.edges().len(), 6);
    let sep = pc.sepset(&"W".to_string(), &"Z".to_string()).unwrap().unwrap();
    assert_eq!(sep, names(&["Y"]));
    assert!(!pc.skeleton_round(2, &oracle));
    assert_eq!(pc.edges().len(), 6);
}
