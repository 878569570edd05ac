use afdn_animator::afd;
use afdn_animator::afn::{pad, search};
use afdn_animator::dot::dot;
use afdn_animator::reader::parse;
use afdn_animator::relation::{position, Node};
use afdn_animator::step::{steps, Step};

fn node(label: &str, target: &str) -> Node {
    Node {
        character: label.to_string(),
        destination: target.to_string(),
    }
}

fn step(source: &str, label: &str, target: &str, position: usize) -> Step {
    Step {
        source: source.to_string(),
        label: label.to_string(),
        target: target.to_string(),
        position,
    }
}

#[test]
fn dot_of_a_small_automaton() {
    let infos = parse("s0 ; s1 s0\ns0 a > s1\ns1 b > s0\ns0 / > s1\nwrd : ab").unwrap();
    let text = dot(&infos, &"s0".to_string(), &"a".to_string());
    let expected = "digraph G {\n\
\trankdir=LR;\n\toverlap=scale;\n\tsep=0.1;\n\tpad=1;\n\tnodesep=0.5;\n\tranksep=1;\n\n\
\tnode [style=\"rounded,filled\"]\n\
\tedge [color=\"gray\"]\n\n\
\ts1 [peripheries=2]\n\
\ts0 [peripheries=2]\n\
\n\tstart [label= \"\", shape=none,height=.0,width=.0]\n\
\tstart -> s0\n\
\n\ts0 [color=\"#467050\", fontcolor=\"white\"]\n\
\ts0 -> s1 [label=\"a\", color=\"#ad2a2a\"]\n\
\ts0 -> s1 [label=\"/\"]\n\
\ts1 -> s0 [label=\"b\"]\n\
}";
    assert_eq!(text, expected);
}

#[test]
fn dot_colours_only_the_transitions_of_the_current_state() {
    let infos = parse("s0 ; s1\ns0 a > s1\ns1 a > s0\nwrd : a").unwrap();
    let text = dot(&infos, &"s1".to_string(), &"a".to_string());
    assert!(text.contains("\ts1 -> s0 [label=\"a\", color=\"#ad2a2a\"]\n"));
    assert!(text.contains("\ts0 -> s1 [label=\"a\"]\n"));
    assert!(text.contains("\n\ts1 [color=\"#467050\", fontcolor=\"white\"]\n"));
    let plain = dot(&infos, &"s1".to_string(), &"b".to_string());
    assert!(!plain.contains("#ad2a2a"));
}

#[test]
fn dot_without_transitions() {
    let infos = parse("s0 ; s0").unwrap();
    let text = dot(&infos, &"s0".to_string(), &String::new());
    assert!(text.starts_with("digraph G {\n"));
    assert!(text.ends_with("\n\ts0 [color=\"#467050\", fontcolor=\"white\"]\n}"));
}

#[test]
fn steps_of_a_walk() {
    let infos = parse("s0 ; s2\ns0 a > s0\ns0 b > s1\ns1 b > s2\nwrd : abb").unwrap();
    let walked = afd::walk(&infos, "abb");
    assert_eq!(
        steps(infos.get_initial_state(), &walked.path),
        vec![
            step("s0", "a", "s0", 0),
            step("s0", "b", "s1", 1),
            step("s1", "b", "s2", 2)
        ]
    );
}

#[test]
fn steps_of_a_path_with_lambda() {
    let infos = parse("s0 ; s2\ns0 a > s0\ns0 / > s1\ns1 b > s2\nwrd : ab").unwrap();
    let path = search(&infos, "ab").unwrap();
    assert_eq!(
        steps(infos.get_initial_state(), &path),
        vec![
            step("s0", "a", "s0", 0),
            step("s0", "/", "s1", 1),
            step("s1", "b", "s2", 1)
        ]
    );
    assert!(steps(infos.get_initial_state(), &Vec::new()).is_empty());
}

#[test]
fn position_of_a_transition() {
    let nodes = vec![node("a", "s0"), node("b", "s1"), node("a", "s1"), node("b", "s1")];
    assert_eq!(position(&nodes, &node("b", "s1")), Some(1));
    assert_eq!(position(&nodes, &node("a", "s1")), Some(2));
    assert_eq!(position(&nodes, &node("a", "s0")), Some(0));
    assert_eq!(position(&nodes, &node("c", "s0")), None);
    assert_eq!(position(&Vec::new(), &node("a", "s0")), None);
}

#[test]
fn pad_gives_tabulators() {
    assert_eq!(pad(0), "");
    assert_eq!(pad(1), "\t");
    assert_eq!(pad(3), "\t\t\t");
}
