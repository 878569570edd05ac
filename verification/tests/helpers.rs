use afdn_animator::afd::{pick, symbols, Outcome};
use afdn_animator::model::{contains_name, is_lambda_label};
use afdn_animator::relation::{
    all_labeled, copy_nodes, first_lambda, unambiguous, Node, Relation,
};

fn node(label: &str, target: &str) -> Node {
    Node {
        character: label.to_string(),
        destination: target.to_string(),
    }
}

#[test]
fn symbols_of_a_word() {
    assert_eq!(symbols("aabb"), vec!['a', 'a', 'b', 'b']);
    assert_eq!(symbols("éß"), vec!['é', 'ß']);
    assert!(symbols("").is_empty());
}

#[test]
fn pick_gives_the_first_transition_for_the_symbol() {
    let nodes = vec![node("a", "s0"), node("b", "s1"), node("b", "s2"), node("/", "s3")];
    assert_eq!(pick(&nodes, 'a'), Some(0));
    assert_eq!(pick(&nodes, 'b'), Some(1));
    assert_eq!(pick(&nodes, 'c'), None);
    assert_eq!(pick(&nodes, '/'), None);
    assert_eq!(pick(&Vec::new(), 'a'), None);
}

#[test]
fn first_lambda_is_the_end_of_the_consuming_transitions() {
    assert_eq!(first_lambda(&vec![node("a", "s0"), node("/", "s1")]), 1);
    assert_eq!(first_lambda(&vec![node("/", "s1")]), 0);
    assert_eq!(first_lambda(&vec![node("a", "s0"), node("b", "s1")]), 2);
    assert_eq!(first_lambda(&Vec::new()), 0);
}

#[test]
fn unambiguous_lists() {
    assert!(unambiguous(&vec![node("a", "s0"), node("b", "s0")]));
    assert!(unambiguous(&Vec::new()));
    assert!(!unambiguous(&vec![node("a", "s0"), node("a", "s1")]));
    assert!(!unambiguous(&vec![node("a", "s0"), node("/", "s1")]));
    assert!(!unambiguous(&vec![node("b", "s0"), node("a", "s0"), node("b", "s0")]));
}

#[test]
fn labeled_lists() {
    assert!(all_labeled(&vec![node("a", "s0"), node("/", "s0")]));
    assert!(all_labeled(&Vec::new()));
    assert!(!all_labeled(&vec![node("a", "s0"), node("", "s0")]));
}

#[test]
fn unlabeled_transition_in_a_relation() {
    let mut r = Relation::new();
    r.insert("s0".to_string(), "a".to_string(), "s1".to_string());
    assert!(!r.has_unlabeled());
    r.insert("s1".to_string(), String::new(), "s1".to_string());
    assert!(r.has_unlabeled());
}

#[test]
fn copy_of_a_list() {
    let nodes = vec![node("a", "s0"), node("/", "s1")];
    assert_eq!(copy_nodes(&nodes), nodes);
    assert!(copy_nodes(&Vec::new()).is_empty());
}

#[test]
fn names_in_a_list() {
    let names = vec!["s0".to_string(), "s1".to_string()];
    assert!(contains_name(&names, &"s1".to_string()));
    assert!(!contains_name(&names, &"s".to_string()));
    assert!(!contains_name(&Vec::new(), &"s0".to_string()));
}

#[test]
fn lambda_labels() {
    assert!(is_lambda_label("/"));
    assert!(!is_lambda_label(""));
    assert!(!is_lambda_label("a"));
    assert!(!is_lambda_label("/a"));
}

#[test]
fn outcome_clone_is_equal() {
    let rejected = Outcome::Rejected {
        prefix: "ba".to_string(),
        offending_symbol: Some('c'),
    };
    assert_eq!(rejected.clone(), rejected);
    assert_eq!(Outcome::Accepted.clone(), Outcome::Accepted);
    assert_ne!(rejected, Outcome::Accepted);
}
