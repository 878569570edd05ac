use afdn_animator::afd;
use afdn_animator::afd::Outcome;
use afdn_animator::afn;
use afdn_animator::file::{DescriptorError, ParsedFile};
use afdn_animator::model::LAMBDA;
use afdn_animator::relation::{Kind, Node, Relation};

fn relation(records: &[(&str, &str, &str)]) -> Relation {
    let mut r = Relation::new();
    for (state, label, target) in records {
        r.insert(state.to_string(), label.to_string(), target.to_string());
    }
    r
}

fn automaton(
    initial: &str,
    finals: &[&str],
    records: &[(&str, &str, &str)],
    word: &str,
) -> ParsedFile {
    ParsedFile::new(
        initial.to_string(),
        finals.iter().map(|s| s.to_string()).collect(),
        relation(records),
        word.to_string(),
    )
    .unwrap()
}

fn node(label: &str, target: &str) -> Node {
    Node {
        character: label.to_string(),
        destination: target.to_string(),
    }
}

const DFA: [(&str, &str, &str); 6] = [
    ("s0", "a", "s0"),
    ("s0", "b", "s1"),
    ("s1", "a", "s1"),
    ("s1", "b", "s2"),
    ("s2", "a", "s2"),
    ("s2", "b", "s2"),
];

#[test]
fn dfa_accepts_aabb() {
    let infos = automaton("s0", &["s2"], &DFA, "aabb");
    assert!(*infos.is_afd());
    let walked = afd::walk(&infos, "aabb");
    assert_eq!(walked.outcome, Outcome::Accepted);
    assert_eq!(
        walked.path,
        vec![
            node("a", "s0"),
            node("a", "s0"),
            node("b", "s1"),
            node("b", "s2")
        ]
    );
    assert!(afd::run(&infos));
}

#[test]
fn dfa_rejects_bac_at_c() {
    let infos = automaton("s0", &["s2"], &DFA, "bac");
    let walked = afd::walk(&infos, "bac");
    assert_eq!(
        walked.outcome,
        Outcome::Rejected {
            prefix: "ba".to_string(),
            offending_symbol: Some('c'),
        }
    );
    assert_eq!(walked.path, vec![node("b", "s1"), node("a", "s1")]);
    assert!(!afd::run(&infos));
}

#[test]
fn dfa_rejects_when_word_ends_in_a_state_that_is_not_accepting() {
    let infos = automaton("s0", &["s2"], &DFA, "ab");
    let walked = afd::walk(&infos, "ab");
    assert_eq!(
        walked.outcome,
        Outcome::Rejected {
            prefix: "ab".to_string(),
            offending_symbol: None,
        }
    );
    assert_eq!(walked.path.len(), 2);
}

#[test]
fn dfa_empty_word() {
    let accepting = automaton("s0", &["s0"], &DFA, "");
    assert_eq!(afd::walk(&accepting, "").outcome, Outcome::Accepted);
    let rejecting = automaton("s0", &["s2"], &DFA, "");
    assert_eq!(
        afd::walk(&rejecting, "").outcome,
        Outcome::Rejected {
            prefix: String::new(),
            offending_symbol: None,
        }
    );
}

#[test]
fn dfa_rejects_at_the_first_symbol() {
    let infos = automaton("s0", &["s2"], &DFA, "xab");
    let walked = afd::walk(&infos, "xab");
    assert_eq!(
        walked.outcome,
        Outcome::Rejected {
            prefix: String::new(),
            offending_symbol: Some('x'),
        }
    );
    assert!(walked.path.is_empty());
}

#[test]
fn walk_stops_in_a_state_without_transitions() {
    let infos = automaton("s0", &["s1"], &[("s0", "a", "s1")], "aa");
    let walked = afd::walk(&infos, "aa");
    assert_eq!(
        walked.outcome,
        Outcome::Rejected {
            prefix: "a".to_string(),
            offending_symbol: Some('a'),
        }
    );
}

#[test]
fn walk_consumes_symbols_outside_ascii() {
    let infos = automaton("s0", &["s1"], &[("s0", "é", "s1"), ("s1", "ß", "s0")], "éßé");
    let walked = afd::walk(&infos, "éßé");
    assert_eq!(walked.outcome, Outcome::Accepted);
    let stopped = afd::walk(&infos, "éßx");
    assert_eq!(
        stopped.outcome,
        Outcome::Rejected {
            prefix: "éß".to_string(),
            offending_symbol: Some('x'),
        }
    );
}

#[test]
fn walk_never_takes_a_lambda_transition() {
    let infos = automaton("s0", &["s1"], &[("s0", "/", "s1")], "/");
    let walked = afd::walk(&infos, "/");
    assert_eq!(
        walked.outcome,
        Outcome::Rejected {
            prefix: String::new(),
            offending_symbol: Some('/'),
        }
    );
}

#[test]
fn walk_takes_the_first_of_two_transitions_for_a_symbol() {
    let infos = automaton(
        "s0",
        &["s2"],
        &[("s0", "a", "s1"), ("s0", "a", "s2")],
        "a",
    );
    let walked = afd::walk(&infos, "a");
    assert_eq!(walked.path, vec![node("a", "s1")]);
    assert_eq!(
        walked.outcome,
        Outcome::Rejected {
            prefix: "a".to_string(),
            offending_symbol: None,
        }
    );
}

#[test]
fn nfa_with_lambda_finds_path_for_b() {
    let infos = automaton(
        "s0",
        &["s2"],
        &[("s0", "a", "s0"), ("s0", "/", "s1"), ("s1", "b", "s2")],
        "b",
    );
    assert!(!*infos.is_afd());
    let path = afn::search(&infos, "b");
    assert_eq!(path, Some(vec![node("/", "s1"), node("b", "s2")]));
    assert!(afn::run(&infos));
}

#[test]
fn nfa_with_lambda_finds_path_for_ab() {
    let infos = automaton(
        "s0",
        &["s2"],
        &[("s0", "a", "s0"), ("s0", "/", "s1"), ("s1", "b", "s2")],
        "ab",
    );
    let path = afn::search(&infos, "ab");
    assert_eq!(
        path,
        Some(vec![node("a", "s0"), node("/", "s1"), node("b", "s2")])
    );
}

#[test]
fn lambda_cycle_is_rejected() {
    let infos = automaton("A", &["B"], &[("A", "/", "B"), ("B", "/", "A")], "a");
    assert_eq!(afn::search(&infos, "a"), None);
    assert!(!afn::run(&infos));
}

#[test]
fn lambda_cycle_with_an_exit_is_accepted() {
    let infos = automaton(
        "A",
        &["C"],
        &[("A", "/", "B"), ("B", "/", "A"), ("B", "a", "C")],
        "a",
    );
    assert_eq!(
        afn::search(&infos, "a"),
        Some(vec![node("/", "B"), node("a", "C")])
    );
}

#[test]
fn lambda_self_loop_is_passed_over() {
    let infos = automaton("A", &["B"], &[("A", "/", "A"), ("A", "a", "B")], "a");
    assert_eq!(afn::search(&infos, "a"), Some(vec![node("a", "B")]));
}

#[test]
fn search_backtracks_to_the_second_choice() {
    let infos = automaton(
        "s0",
        &["s3"],
        &[
            ("s0", "a", "s1"),
            ("s0", "a", "s2"),
            ("s1", "b", "s1"),
            ("s2", "b", "s3"),
        ],
        "ab",
    );
    assert!(!*infos.is_afd());
    assert_eq!(
        afn::search(&infos, "ab"),
        Some(vec![node("a", "s2"), node("b", "s3")])
    );
}

#[test]
fn search_returns_the_leftmost_path() {
    let infos = automaton(
        "s0",
        &["s1", "s2"],
        &[("s0", "a", "s1"), ("s0", "a", "s2")],
        "a",
    );
    assert_eq!(afn::search(&infos, "a"), Some(vec![node("a", "s1")]));
}

#[test]
fn search_tries_consuming_transitions_before_lambda() {
    let infos = automaton(
        "s0",
        &["s1", "s2"],
        &[("s0", "/", "s3"), ("s3", "a", "s2"), ("s0", "a", "s1")],
        "a",
    );
    assert_eq!(afn::search(&infos, "a"), Some(vec![node("a", "s1")]));
}

#[test]
fn search_takes_no_lambda_after_the_last_symbol() {
    let infos = automaton("s0", &["s2"], &[("s0", "a", "s1"), ("s1", "/", "s2")], "a");
    assert_eq!(afn::search(&infos, "a"), None);
}

#[test]
fn search_on_the_empty_word() {
    let accepting = automaton("s0", &["s0"], &[("s0", "a", "s1")], "");
    assert_eq!(afn::search(&accepting, ""), Some(vec![]));
    let rejecting = automaton("s0", &["s1"], &[("s0", "/", "s1")], "");
    assert_eq!(afn::search(&rejecting, ""), None);
}

#[test]
fn search_fails_in_a_state_without_transitions() {
    let infos = automaton("s0", &["s1"], &[("s0", "a", "s1")], "aa");
    assert_eq!(afn::search(&infos, "aa"), None);
}

#[test]
fn search_path_replays_the_word() {
    let infos = automaton(
        "q0",
        &["q3"],
        &[
            ("q0", "/", "q1"),
            ("q0", "a", "q0"),
            ("q1", "b", "q2"),
            ("q2", "/", "q0"),
            ("q2", "c", "q3"),
        ],
        "ababc",
    );
    let word = "ababc";
    let path = afn::search(&infos, word).unwrap();
    let symbols: Vec<char> = word.chars().collect();
    let mut state = "q0".to_string();
    let mut pos = 0;
    for arc in &path {
        assert!(infos.states().get(&state).contains(arc));
        if arc.character != LAMBDA {
            assert_eq!(arc.character, symbols[pos].to_string());
            pos += 1;
        }
        state = arc.destination.clone();
    }
    assert_eq!(pos, symbols.len());
    assert!(infos.is_finish_state(&state));
}

#[test]
fn search_and_walk_agree_on_a_deterministic_automaton() {
    for word in ["", "a", "b", "aabb", "bac", "abab", "bbbb", "ba", "abba"] {
        let infos = automaton("s0", &["s2"], &DFA, word);
        assert!(*infos.is_afd());
        let walked = afd::walk(&infos, word);
        let found = afn::search(&infos, word);
        assert_eq!(walked.outcome == Outcome::Accepted, found.is_some());
        if let Some(path) = found {
            assert_eq!(path, walked.path);
        }
        assert_eq!(afd::run(&infos), afn::run(&infos));
    }
}

#[test]
fn afn_walking_adds_to_the_path_on_success() {
    let infos = automaton(
        "s0",
        &["s2"],
        &[("s0", "a", "s0"), ("s0", "/", "s1"), ("s1", "b", "s2")],
        "ab",
    );
    let word = vec!['a', 'b'];
    let mut seen: Vec<String> = Vec::new();
    let mut path = vec![node("a", "s0")];
    let found = afn::afn_walking(&word, 1, &"s0".to_string(), &infos, &mut seen, &mut path);
    assert!(found);
    assert_eq!(path, vec![node("a", "s0"), node("/", "s1"), node("b", "s2")]);
    assert!(seen.is_empty());
}

#[test]
fn afn_walking_leaves_the_path_on_failure() {
    let infos = automaton(
        "s0",
        &["s2"],
        &[("s0", "a", "s0"), ("s0", "/", "s1"), ("s1", "b", "s2")],
        "ab",
    );
    let word = vec!['a', 'c'];
    let mut seen = vec!["s9".to_string()];
    let mut path = vec![node("x", "y")];
    let found = afn::afn_walking(&word, 0, &"s0".to_string(), &infos, &mut seen, &mut path);
    assert!(!found);
    assert_eq!(path, vec![node("x", "y")]);
    assert_eq!(seen, vec!["s9".to_string()]);
}

#[test]
fn afn_walking_refuses_a_state_already_entered() {
    let infos = automaton("s0", &["s1"], &[("s0", "a", "s1")], "a");
    let word = vec!['a'];
    let mut seen = vec!["s0".to_string()];
    let mut path: Vec<Node> = Vec::new();
    assert!(!afn::afn_walking(&word, 0, &"s0".to_string(), &infos, &mut seen, &mut path));
    let mut none: Vec<String> = Vec::new();
    assert!(afn::afn_walking(&word, 0, &"s0".to_string(), &infos, &mut none, &mut path));
}

#[test]
fn afn_walking_past_the_end_of_the_word() {
    let infos = automaton("s0", &["s0"], &[("s0", "a", "s1")], "a");
    let word = vec!['a'];
    let mut seen: Vec<String> = Vec::new();
    let mut path: Vec<Node> = Vec::new();
    assert!(afn::afn_walking(&word, 5, &"s0".to_string(), &infos, &mut seen, &mut path));
    assert!(path.is_empty());
}

#[test]
fn insert_keeps_consuming_transitions_before_lambda() {
    let r = relation(&[
        ("s0", "/", "s1"),
        ("s0", "a", "s2"),
        ("s0", "/", "s3"),
        ("s0", "b", "s4"),
    ]);
    assert_eq!(
        r.get(&"s0".to_string()),
        &vec![
            node("a", "s2"),
            node("b", "s4"),
            node("/", "s1"),
            node("/", "s3")
        ]
    );
}

#[test]
fn lookup_of_a_state_without_transitions_is_empty() {
    let r = relation(&[("s0", "a", "s1")]);
    assert!(r.get(&"s1".to_string()).is_empty());
    assert!(!r.contains_key(&"s1".to_string()));
    assert!(r.contains_key(&"s0".to_string()));
    assert!(!r.is_empty());
    assert!(Relation::new().is_empty());
}

#[test]
fn keys_are_in_order_of_first_insertion() {
    let r = relation(&[("s1", "a", "s0"), ("s0", "a", "s1"), ("s1", "b", "s1")]);
    assert_eq!(r.keys(), vec!["s1".to_string(), "s0".to_string()]);
}

#[test]
fn classification_of_a_deterministic_relation() {
    assert_eq!(relation(&DFA).classify(), Kind::Afd);
    assert_eq!(Relation::new().classify(), Kind::Afd);
}

#[test]
fn classification_with_a_lambda_transition() {
    assert_eq!(relation(&[("s0", "/", "s1")]).classify(), Kind::Afn);
    assert_eq!(
        relation(&[("s0", "a", "s1"), ("s1", "/", "s0")]).classify(),
        Kind::Afn
    );
}

#[test]
fn classification_with_a_repeated_label() {
    assert_eq!(
        relation(&[("s0", "a", "s1"), ("s0", "b", "s1"), ("s0", "a", "s2")]).classify(),
        Kind::Afn
    );
    assert_eq!(
        relation(&[("s0", "a", "s1"), ("s1", "a", "s1")]).classify(),
        Kind::Afd
    );
}

#[test]
fn classification_does_not_depend_on_insertion_order() {
    let records = [
        ("s0", "a", "s1"),
        ("s0", "/", "s2"),
        ("s1", "b", "s2"),
        ("s0", "b", "s0"),
    ];
    let orders: [[usize; 4]; 4] = [[0, 1, 2, 3], [3, 2, 1, 0], [1, 0, 3, 2], [2, 3, 0, 1]];
    for order in orders {
        let permuted: Vec<(&str, &str, &str)> = order.iter().map(|i| records[*i]).collect();
        assert_eq!(relation(&permuted).classify(), Kind::Afn);
    }
    let plain = [("s0", "a", "s1"), ("s1", "b", "s2"), ("s0", "b", "s0")];
    let orders: [[usize; 3]; 3] = [[0, 1, 2], [2, 1, 0], [1, 2, 0]];
    for order in orders {
        let permuted: Vec<(&str, &str, &str)> = order.iter().map(|i| plain[*i]).collect();
        assert_eq!(relation(&permuted).classify(), Kind::Afd);
    }
}

#[test]
fn descriptor_without_finish_state_is_refused() {
    let r = ParsedFile::new("s0".to_string(), vec![], relation(&DFA), "a".to_string());
    assert_eq!(r.err(), Some(DescriptorError::NoFinishState));
}

#[test]
fn descriptor_with_initial_state_outside_the_relation_is_refused() {
    let r = ParsedFile::new(
        "q".to_string(),
        vec!["s2".to_string()],
        relation(&DFA),
        "a".to_string(),
    );
    assert_eq!(r.err(), Some(DescriptorError::InitialStateWithoutTransitions));
}

#[test]
fn descriptor_with_an_empty_label_is_refused() {
    let r = ParsedFile::new(
        "s0".to_string(),
        vec!["s1".to_string()],
        relation(&[("s0", "a", "s1"), ("s1", "", "s0")]),
        "a".to_string(),
    );
    assert_eq!(r.err(), Some(DescriptorError::UnlabeledTransition));
}

#[test]
fn descriptor_errors_come_in_order() {
    let r = ParsedFile::new(
        "q".to_string(),
        vec![],
        relation(&[("s0", "", "s1")]),
        "a".to_string(),
    );
    assert_eq!(r.err(), Some(DescriptorError::NoFinishState));
    let r = ParsedFile::new(
        "q".to_string(),
        vec!["s1".to_string()],
        relation(&[("s0", "", "s1")]),
        "a".to_string(),
    );
    assert_eq!(r.err(), Some(DescriptorError::InitialStateWithoutTransitions));
}

#[test]
fn descriptor_without_transitions_is_accepted() {
    let infos = ParsedFile::new(
        "s0".to_string(),
        vec!["s0".to_string()],
        Relation::new(),
        String::new(),
    )
    .unwrap();
    assert!(*infos.is_afd());
    assert!(afd::run(&infos));
    assert!(afn::run(&infos));
}

#[test]
fn descriptor_getters() {
    let infos = automaton("s0", &["s2", "s1"], &DFA, "aabb");
    assert_eq!(infos.get_initial_state(), "s0");
    assert_eq!(
        infos.get_finish_state(),
        &vec!["s2".to_string(), "s1".to_string()]
    );
    assert_eq!(infos.get_word(), "aabb");
    assert!(*infos.is_afd());
    assert!(infos.is_finish_state(&"s1".to_string()));
    assert!(!infos.is_finish_state(&"s0".to_string()));
    assert_eq!(infos.states().keys().len(), 3);
}

#[test]
fn lambda_marker() {
    assert_eq!(LAMBDA, "/");
    assert!(node(LAMBDA, "s1").is_lambda());
    assert!(!node("a", "s1").is_lambda());
    assert!(!node("//", "s1").is_lambda());
    assert!(node("a", "s1").consumes('a'));
    assert!(!node("a", "s1").consumes('b'));
    assert!(!node("ab", "s1").consumes('a'));
    assert!(!node("/", "s1").consumes('/'));
}
