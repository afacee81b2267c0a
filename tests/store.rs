use model_tree::model::{Model, ModelStore, StoreError};

fn leaf(name: &str, algorithm: &str) -> Model {
    Model {
        name: name.to_string(),
        algorithm: Some(algorithm.to_string()),
        children: None,
        ref_count: 0,
    }
}

fn internal(name: &str, children: &[&str]) -> Model {
    Model {
        name: name.to_string(),
        algorithm: None,
        children: Some(children.iter().map(|c| c.to_string()).collect()),
        ref_count: 0,
    }
}

fn store(models: Vec<Model>, root: &str) -> ModelStore {
    match ModelStore::load(models, root.to_string()) {
        Ok(s) => s,
        Err(e) => panic!("load failed: {:?}", e),
    }
}

fn sorted_names(s: &ModelStore) -> Vec<String> {
    let mut v: Vec<String> = s.models.iter().map(|m| m.name.clone()).collect();
    v.sort();
    v
}

/// Checks by brute force that every node has exactly one kind, every child
/// resolves, and every count is the true count.
fn assert_consistent(s: &ModelStore) {
    for m in &s.models {
        assert!(m.algorithm.is_some() != m.children.is_some(), "kind of {}", m.name);
        if let Some(ch) = &m.children {
            for c in ch {
                assert!(s.models.iter().any(|x| &x.name == c), "dangling child {}", c);
            }
        }
        let count: u64 = s
            .models
            .iter()
            .map(|p| p.children.as_ref().map_or(0, |ch| ch.iter().filter(|c| **c == m.name).count() as u64))
            .sum();
        assert_eq!(m.ref_count, count, "count of {}", m.name);
    }
}

#[test]
fn leaf_merge() {
    let mut s = store(vec![internal("A", &["B", "C"]), leaf("B", "b"), leaf("C", "c")], "A");
    let r = s.update_node_name("B", "C").unwrap();
    assert_eq!(r.new_name, "C");
    assert!(r.requires_update);
    assert_eq!(s.query_children("A").unwrap(), vec!["C".to_string(), "C".to_string()]);
    assert_eq!(sorted_names(&s), vec!["A".to_string(), "C".to_string()]);
    assert!(matches!(s.query_node("B"), Err(StoreError::NotFound)));
    assert_eq!(s.query_ref_count("C"), 2);
    assert_consistent(&s);
}

#[test]
fn internal_collision_disambiguation() {
    let mut s = store(vec![internal("A", &["B", "X"]), internal("B", &[]), internal("X", &["Y"])], "A");
    let r = s.update_node_name("X", "B").unwrap();
    assert!(r.requires_update);
    assert_ne!(r.new_name, "B");
    assert_eq!(r.new_name, "B (duplicate)");
    assert_eq!(s.query_children("A").unwrap(), vec!["B".to_string(), "B (duplicate)".to_string()]);
    assert_eq!(s.query_children("B").unwrap(), Vec::<String>::new());
    assert_eq!(s.query_children("B (duplicate)").unwrap(), vec!["Y".to_string()]);
    assert!(matches!(s.query_node("X"), Err(StoreError::NotFound)));
    assert_consistent(&s);
}

#[test]
fn leaf_colliding_with_internal_merges() {
    let mut s = store(vec![internal("A", &["B", "X"]), internal("B", &[]), leaf("X", "x")], "A");
    let r = s.update_node_name("X", "B").unwrap();
    assert_eq!(r.new_name, "B");
    assert_eq!(s.query_children("A").unwrap(), vec!["B".to_string(), "B".to_string()]);
    assert_eq!(s.query_ref_count("B"), 2);
    assert_eq!(sorted_names(&s), vec!["A".to_string(), "B".to_string()]);
    assert_consistent(&s);
}

#[test]
fn disambiguation_skips_taken_marked_names() {
    let mut s = store(
        vec![internal("R", &["B", "B (duplicate)", "X"]), leaf("B", "b"), leaf("B (duplicate)", "d"), internal("X", &[])],
        "R",
    );
    let r = s.update_node_name("X", "B").unwrap();
    assert_eq!(r.new_name, "B (duplicate) (duplicate)");
    assert_consistent(&s);
}

#[test]
fn delete_with_shared_reference() {
    let mut s = store(vec![internal("R", &["Left", "Right"]), internal("Left", &["C"]), internal("Right", &["C"]), leaf("C", "c")], "R");
    assert_eq!(s.query_ref_count("C"), 2);
    s.delete_node("Left", "C").unwrap();
    assert_eq!(s.query_children("Left").unwrap(), Vec::<String>::new());
    assert_eq!(s.query_children("Right").unwrap(), vec!["C".to_string()]);
    assert_eq!(s.query_ref_count("C"), 1);
    assert!(s.query_node("C").is_ok());
    s.delete_node("Right", "C").unwrap();
    assert!(matches!(s.query_node("C"), Err(StoreError::NotFound)));
    assert_eq!(s.query_ref_count("C"), 0);
    assert_consistent(&s);
}

#[test]
fn delete_removes_every_slot_of_the_child() {
    let mut s = store(vec![internal("P", &["C", "D", "C"]), leaf("C", "c"), leaf("D", "d")], "P");
    assert_eq!(s.query_ref_count("C"), 2);
    s.delete_node("P", "C").unwrap();
    assert_eq!(s.query_children("P").unwrap(), vec!["D".to_string()]);
    assert!(s.query_node("C").is_ok());
    assert_eq!(s.query_ref_count("C"), 0);
    assert_consistent(&s);
}

#[test]
fn add_node_name_generation() {
    let mut s = store(vec![internal("P", &["new node", "new node1"])], "P");
    let n = s.add_node("P").unwrap();
    assert_eq!(n, "new node2");
    assert_eq!(
        s.query_children("P").unwrap(),
        vec!["new node".to_string(), "new node1".to_string(), "new node2".to_string()]
    );
    assert_eq!(s.query_ref_count("new node2"), 1);
    assert_consistent(&s);
}

#[test]
fn add_node_first_name_and_tenth() {
    let mut s = store(vec![internal("P", &[])], "P");
    assert_eq!(s.add_node("P").unwrap(), "new node");
    for i in 1..10 {
        assert_eq!(s.add_node("P").unwrap(), format!("new node{}", i));
    }
    assert_eq!(s.add_node("P").unwrap(), "new node10");
    assert_eq!(s.query_algorithm("new node10").unwrap(), "algorithm undefined");
    assert_consistent(&s);
}

#[test]
fn add_node_errors() {
    let mut s = store(vec![internal("P", &["L"]), leaf("L", "l")], "P");
    assert_eq!(s.add_node("missing"), Err(StoreError::NotFound));
    assert_eq!(s.add_node("L"), Err(StoreError::NotInternal));
    assert_eq!(s.models.len(), 2);
}

#[test]
fn rename_same_name_is_noop() {
    let mut s = store(vec![internal("A", &["B"]), leaf("B", "b")], "A");
    let r = s.update_node_name("B", "B").unwrap();
    assert_eq!(r.new_name, "B");
    assert!(!r.requires_update);
    assert_eq!(sorted_names(&s), vec!["A".to_string(), "B".to_string()]);
    assert_eq!(s.query_algorithm("B").unwrap(), "b");
    let r = s.update_node_name("missing", "missing").unwrap();
    assert!(!r.requires_update);
}

#[test]
fn plain_rename_keeps_the_node_and_relinks_parents() {
    let mut s = store(vec![internal("A", &["B"]), internal("Q", &["B"]), internal("B", &["C"]), leaf("C", "c")], "A");
    let r = s.update_node_name("B", "Z").unwrap();
    assert_eq!(r.new_name, "Z");
    assert!(r.requires_update);
    assert_eq!(s.query_children("A").unwrap(), vec!["Z".to_string()]);
    assert_eq!(s.query_children("Q").unwrap(), vec!["Z".to_string()]);
    assert_eq!(s.query_children("Z").unwrap(), vec!["C".to_string()]);
    assert_eq!(s.query_ref_count("Z"), 2);
    assert_consistent(&s);
}

#[test]
fn rename_of_missing_node_fails() {
    let mut s = store(vec![internal("A", &["B"]), leaf("B", "b")], "A");
    assert!(matches!(s.update_node_name("missing", "B"), Err(StoreError::NotFound)));
    assert!(matches!(s.update_node_name("missing", "new"), Err(StoreError::NotFound)));
    assert_consistent(&s);
}

#[test]
fn root_follows_rename() {
    let mut s = store(vec![internal("A", &["B"]), leaf("B", "b")], "A");
    s.update_node_name("A", "Top").unwrap();
    assert_eq!(s.query_root_name(), "Top");
}

#[test]
fn toggle_round_trip() {
    let mut s = store(vec![internal("A", &["B"]), leaf("B", "b")], "A");
    s.toggle_has_children("B").unwrap();
    assert_eq!(s.query_children("B").unwrap(), Vec::<String>::new());
    assert_eq!(s.query_algorithm("B"), Err(StoreError::NotLeaf));
    assert_consistent(&s);
    s.toggle_has_children("B").unwrap();
    assert_eq!(s.query_algorithm("B").unwrap(), "algorithm undefined");
    assert_eq!(s.query_children("B"), Err(StoreError::NotInternal));
    assert_consistent(&s);
    assert_eq!(s.toggle_has_children("missing"), Err(StoreError::NotFound));
}

#[test]
fn toggle_internal_drops_children_and_counts() {
    let mut s = store(vec![internal("A", &["B"]), internal("B", &["C"]), leaf("C", "c")], "A");
    assert_eq!(s.query_ref_count("C"), 1);
    s.toggle_has_children("B").unwrap();
    assert_eq!(s.query_ref_count("C"), 0);
    assert!(s.query_node("C").is_ok());
    assert_consistent(&s);
}

#[test]
fn update_algorithm_on_leaf_and_internal() {
    let mut s = store(vec![internal("A", &["B"]), leaf("B", "b")], "A");
    s.update_algorithm("B", "sum").unwrap();
    assert_eq!(s.query_algorithm("B").unwrap(), "sum");
    assert_eq!(s.update_algorithm("A", "x"), Err(StoreError::NotLeaf));
    assert_eq!(s.update_algorithm("missing", "x"), Err(StoreError::NotFound));
    assert_consistent(&s);
}

#[test]
fn query_node_reports_kind_and_count() {
    let s = store(vec![internal("A", &["B", "B"]), leaf("B", "b")], "A");
    let n = s.query_node("B").unwrap();
    assert_eq!(n.name, "B");
    assert_eq!(n.ref_count, 2);
    assert!(!n.has_children);
    let a = s.query_node("A").unwrap();
    assert!(a.has_children);
    assert_eq!(a.ref_count, 0);
    assert_eq!(s.query_ref_count("nothing"), 0);
}

#[test]
fn delete_errors() {
    let mut s = store(vec![internal("A", &["B"]), leaf("B", "b"), leaf("L", "l")], "A");
    assert_eq!(s.delete_node("A", "missing"), Err(StoreError::NotFound));
    assert_eq!(s.delete_node("missing", "B"), Err(StoreError::NotFound));
    assert_eq!(s.delete_node("L", "B"), Err(StoreError::NotInternal));
    assert_eq!(s.delete_node("A", "L"), Err(StoreError::NotAChild));
    assert_eq!(s.models.len(), 3);
    assert_consistent(&s);
}

#[test]
fn load_synthesizes_placeholder_leaves() {
    let s = store(vec![internal("A", &["B", "C"]), internal("B", &["C", "D"])], "A");
    assert_eq!(sorted_names(&s), vec!["A".to_string(), "B".to_string(), "C".to_string(), "D".to_string()]);
    assert_eq!(s.query_algorithm("D").unwrap(), "algorithm undefined");
    assert_eq!(s.query_ref_count("C"), 2);
    assert_eq!(s.query_ref_count("A"), 0);
    assert_eq!(s.query_root_name(), "A");
    assert_consistent(&s);
}

#[test]
fn load_errors() {
    let both = Model { name: "A".to_string(), algorithm: Some("x".to_string()), children: Some(vec![]), ref_count: 0 };
    assert!(matches!(ModelStore::load(vec![both], "A".to_string()), Err(StoreError::KindConflict)));
    let neither = Model { name: "A".to_string(), algorithm: None, children: None, ref_count: 0 };
    assert!(matches!(ModelStore::load(vec![neither], "A".to_string()), Err(StoreError::KindConflict)));
    let dup = vec![leaf("A", "a"), internal("A", &[])];
    assert!(matches!(ModelStore::load(dup, "A".to_string()), Err(StoreError::DuplicateName)));
    assert!(matches!(ModelStore::load(vec![internal("A", &["B"])], "Z".to_string()), Err(StoreError::NotFound)));
}

#[test]
fn invariants_hold_after_a_sequence_of_operations() {
    let mut s = store(vec![internal("A", &["B", "C"]), internal("B", &["C"]), leaf("C", "c")], "A");
    let n = s.add_node("B").unwrap();
    assert_consistent(&s);
    s.update_node_name(&n, "C").unwrap();
    assert_consistent(&s);
    assert_eq!(s.query_ref_count("C"), 3);
    s.toggle_has_children("C").unwrap();
    assert_consistent(&s);
    let m = s.add_node("C").unwrap();
    assert_consistent(&s);
    s.update_node_name("C", "B").unwrap();
    assert_consistent(&s);
    s.delete_node("A", "B").unwrap();
    assert_consistent(&s);
    s.delete_node("B (duplicate)", &m).unwrap();
    assert_consistent(&s);
    assert!(matches!(s.query_node(&m), Err(StoreError::NotFound)));
}

#[test]
fn renaming_in_place_keeps_cached_count() {
    let mut s = store(vec![internal("A", &["B", "B"]), internal("B", &[])], "A");
    model_tree::engine::replace_old_name_has_children("B", "Z", &mut s.models);
    let z = s.models.iter().find(|m| m.name == "Z").unwrap();
    assert_eq!(z.ref_count, 2);
    assert_eq!(s.query_children("A").unwrap(), vec!["Z".to_string(), "Z".to_string()]);
}
