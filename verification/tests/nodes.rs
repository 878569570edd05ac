use afdn_animator::relation::Node;

#[test]
fn nodes_are_equal() {
    let a = Node {
        character: "b".to_string(),
        destination: "b".to_string(),
    };
    let b = Node {
        character: "b".to_string(),
        destination: "b".to_string(),
    };
    assert_eq!(a, b, "Nodes aren't equals");
}

#[test]
fn nodes_are_different() {
    let a = Node {
        character: "b".to_string(),
        destination: "b".to_string(),
    };
    let b = Node {
        character: "c".to_string(),
        destination: "b".to_string(),
    };
    assert_ne!(a, b, "Nodes are equals");
}

#[test]
fn nodes_differ_by_destination() {
    let a = Node {
        character: "b".to_string(),
        destination: "s1".to_string(),
    };
    let b = Node {
        character: "b".to_string(),
        destination: "s2".to_string(),
    };
    assert_ne!(a, b);
}

#[test]
fn node_clone_is_equal() {
    let a = Node {
        character: "/".to_string(),
        destination: "s1".to_string(),
    };
    let b = a.clone();
    assert_eq!(a, b);
    assert!(b.is_lambda());
}
