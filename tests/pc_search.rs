use why_rs::error::CausalError;
use why_rs::pc::{names_in_order, PC};

fn names(list: &[&str]) -> Vec<String> {
    list.iter().map(|s| s.to_string()).collect()
}

/// An oracle that calls `(a, b)` independent given exactly the listed sets.
fn table_oracle(facts: Vec<(usize, usize, Vec<usize>)>) -> impl Fn(usize, usize, &Vec<usize>) -> bool {
    move |x: usize, y: usize, z: &Vec<usize>| {
        let mut zs = z.clone();
        zs.sort();
        facts.iter().any(|(a, b, s)| {
            let mut ss = s.clone();
            ss.sort();
            ((*a == x && *b == y) || (*a == y && *b == x)) && ss == zs
        })
    }
}

fn edge_list(pc: &PC) -> Vec<(String, String)> {
    pc.edges()
}

fn has_edge(pc: &PC, a: &str, b: &str) -> bool {
    edge_list(pc).iter().any(|(u, v)| u == a && v == b)
}

#[test]
fn new_search_starts_complete() {
    let pc = PC::new(names(&["A", "B", "C"]));
    let edges = pc.edges();
    assert_eq!(edges.len(), 6);
    assert_eq!(edges[0], ("A".to_string(), "B".to_string()));
    assert_eq!(edges[5], ("C".to_string(), "B".to_string()));
    assert_eq!(pc.variables(), names(&["A", "B", "C"]));
    assert_eq!(pc.sepset(&"A".to_string(), &"C".to_string()).unwrap(), None);
}

#[test]
fn missing_variable_is_reported() {
    let pc = PC::new(names(&["A", "B"]));
    match pc.neighbors(&"Q".to_string()) {
        Err(CausalError::MissingVariable(v)) => assert_eq!(v, "Q"),
        _ => panic!("expected a missing-variable error"),
    }
    match pc.sepset(&"A".to_string(), &"Z".to_string()) {
        Err(CausalError::MissingVariable(v)) => assert_eq!(v, "Z"),
        _ => panic!("expected a missing-variable error"),
    }
    assert!(pc.parents(&"B".to_string()).is_ok());
}

#[test]
fn names_compare_lexicographically() {
    assert!(names_in_order(&"A".to_string(), &"B".to_string()));
    assert!(!names_in_order(&"B".to_string(), &"A".to_string()));
    assert!(names_in_order(&"X".to_string(), &"XY".to_string()));
    assert!(!names_in_order(&"X".to_string(), &"X".to_string()));
    assert!(names_in_order(&"Z".to_string(), &"a".to_string()));
}

#[test]
fn independent_variables_lose_every_edge() {
    let mut pc = PC::new(names(&["X", "Y", "Z"]));
    let oracle = table_oracle(vec![(0, 1, vec![]), (0, 2, vec![]), (1, 2, vec![])]);
    pc.run(&oracle);
    assert!(pc.edges().is_empty());
    assert_eq!(pc.sepset(&"Y".to_string(), &"X".to_string()).unwrap(), Some(vec![]));
}

#[test]
fn chain_keeps_links_and_separates_ends_by_middle() {
    let mut pc = PC::new(names(&["X", "Y", "Z"]));
    let oracle = table_oracle(vec![(0, 2, vec![1])]);
    pc.run(&oracle);
    assert!(has_edge(&pc, "X", "Y") && has_edge(&pc, "Y", "X"));
    assert!(has_edge(&pc, "Y", "Z") && has_edge(&pc, "Z", "Y"));
    assert!(!has_edge(&pc, "X", "Z") && !has_edge(&pc, "Z", "X"));
    assert_eq!(pc.edges().len(), 4);
    let sep = pc.sepset(&"X".to_string(), &"Z".to_string()).unwrap();
    assert_eq!(sep, Some(names(&["Y"])));
    let sep_rev = pc.sepset(&"Z".to_string(), &"X".to_string()).unwrap();
    assert_eq!(sep_rev, Some(names(&["Y"])));
}

#[test]
fn collider_is_oriented_into_middle() {
    let mut pc = PC::new(names(&["X", "Y", "Z"]));
    let oracle = table_oracle(vec![(0, 2, vec![])]);
    pc.run(&oracle);
    assert!(has_edge(&pc, "X", "Y") && !has_edge(&pc, "Y", "X"));
    assert!(has_edge(&pc, "Z", "Y") && !has_edge(&pc, "Y", "Z"));
    assert_eq!(pc.edges().len(), 2);
    assert_eq!(pc.parents(&"Y".to_string()).unwrap(), names(&["X", "Z"]));
    assert_eq!(pc.neighbors(&"Y".to_string()).unwrap(), names(&["X", "Z"]));
}

#[test]
fn propagation_orients_away_from_collider() {
    // True graph: X -> Y <- Z, Y -> W.
    let mut pc = PC::new(names(&["X", "Y", "Z", "W"]));
    let oracle = table_oracle(vec![(0, 2, vec![]), (0, 3, vec![1]), (2, 3, vec![1])]);
    pc.run(&oracle);
    assert!(has_edge(&pc, "X", "Y") && !has_edge(&pc, "Y", "X"));
    assert!(has_edge(&pc, "Z", "Y") && !has_edge(&pc, "Y", "Z"));
    assert!(has_edge(&pc, "Y", "W") && !has_edge(&pc, "W", "Y"));
    assert_eq!(pc.edges().len(), 3);
    assert_eq!(pc.parents(&"W".to_string()).unwrap(), names(&["Y"]));
    let sep = pc.sepset(&"W".to_string(), &"X".to_string()).unwrap();
    assert_eq!(sep, Some(names(&["Y"])));
}

#[test]
fn skeleton_rounds_never_add_edges() {
    let mut pc = PC::new(names(&["X", "Y", "Z", "W"]));
    let before = pc.edges().len();
    let oracle = table_oracle(vec![(0, 2, vec![]), (0, 3, vec![1]), (2, 3, vec![1])]);
    pc.learn_skeleton(&oracle);
    let after = pc.edges().len();
    assert!(after <= before);
    assert_eq!(after, 6);
    // The separating set of X and W has one member, a neighbour of X.
    let sep = pc.sepset(&"X".to_string(), &"W".to_string()).unwrap().unwrap();
    assert_eq!(sep.len(), 1);
    assert!(pc.neighbors(&"X".to_string()).unwrap().contains(&sep[0]));
}

#[test]
fn collider_phase_keeps_adjacency_and_propagation_keeps_colliders() {
    let mut pc = PC::new(names(&["X", "Y", "Z", "W"]));
    let oracle = table_oracle(vec![(0, 2, vec![]), (0, 3, vec![1]), (2, 3, vec![1])]);
    pc.learn_skeleton(&oracle);
    let adjacent_before: Vec<Vec<String>> =
        ["X", "Y", "Z", "W"].iter().map(|v| pc.neighbors(&v.to_string()).unwrap()).collect();
    pc.orient_colliders();
    let adjacent_after: Vec<Vec<String>> =
        ["X", "Y", "Z", "W"].iter().map(|v| pc.neighbors(&v.to_string()).unwrap()).collect();
    assert_eq!(adjacent_before, adjacent_after);
    assert!(has_edge(&pc, "X", "Y") && !has_edge(&pc, "Y", "X"));
    pc.orient_meek_rules();
    assert!(has_edge(&pc, "X", "Y") && !has_edge(&pc, "Y", "X"));
    assert!(has_edge(&pc, "Z", "Y") && !has_edge(&pc, "Y", "Z"));
}

#[test]
fn rerunning_gives_the_same_result() {
    let oracle = table_oracle(vec![(0, 2, vec![]), (0, 3, vec![1]), (2, 3, vec![1])]);
    let mut first = PC::new(names(&["X", "Y", "Z", "W"]));
    first.run(&oracle);
    let mut second = PC::new(names(&["X", "Y", "Z", "W"]));
    second.run(&oracle);
    assert_eq!(first.edges(), second.edges());
    assert_eq!(
        first.sepset(&"X".to_string(), &"W".to_string()).unwrap(),
        second.sepset(&"X".to_string(), &"W".to_string()).unwrap()
    );
}

#[test]
fn first_separating_set_wins() {
    // X and W are independent given {Y} and given {Z}; the first candidate
    // in order is {Y}.
    let mut pc = PC::new(names(&["W", "X", "Y", "Z"]));
    let oracle = table_oracle(vec![(1, 0, vec![2]), (1, 0, vec![3])]);
    pc.learn_skeleton(&oracle);
    let sep = pc.sepset(&"W".to_string(), &"X".to_string()).unwrap();
    assert_eq!(sep, Some(names(&["Y"])));
}

#[test]
fn lone_variable_has_no_edges() {
    let mut pc = PC::new(names(&["A"]));
    let oracle = table_oracle(vec![]);
    pc.run(&oracle);
    assert!(pc.edges().is_empty());
    let mut empty = PC::new(vec![]);
    empty.run(&oracle);
    assert!(empty.variables().is_empty());
}
