use afdn_animator::afd;
use afdn_animator::afn;
use afdn_animator::file::DescriptorError;
use afdn_animator::reader::{parse, ParseError};
use afdn_animator::relation::Node;

fn node(label: &str, target: &str) -> Node {
    Node {
        character: label.to_string(),
        destination: target.to_string(),
    }
}

const SAMPLE: &str = "s0 ; s2\ns0 a > s0\ns0 b > s1\ns1 a > s1\ns1 b > s2\ns2 a > s2\ns2 b > s2\nwrd : aabb";

#[test]
fn parse_reads_the_sample() {
    let infos = parse(SAMPLE).unwrap();
    assert_eq!(infos.get_initial_state(), "s0");
    assert_eq!(infos.get_finish_state(), &vec!["s2".to_string()]);
    assert_eq!(infos.get_word(), "aabb");
    assert!(*infos.is_afd());
    assert_eq!(
        infos.states().keys(),
        vec!["s0".to_string(), "s1".to_string(), "s2".to_string()]
    );
    assert_eq!(
        infos.states().get(&"s1".to_string()),
        &vec![node("a", "s1"), node("b", "s2")]
    );
    assert!(afd::run(&infos));
}

#[test]
fn parse_reads_an_automaton_with_lambda() {
    let infos = parse("s0 ; s2\ns0 / > s1\ns0 a > s0\ns1 b > s2\nwrd : ab").unwrap();
    assert!(!*infos.is_afd());
    assert_eq!(
        infos.states().get(&"s0".to_string()),
        &vec![node("a", "s0"), node("/", "s1")]
    );
    assert!(afn::run(&infos));
    assert_eq!(
        afn::search(&infos, "ab"),
        Some(vec![node("a", "s0"), node("/", "s1"), node("b", "s2")])
    );
}

#[test]
fn parse_takes_several_finish_states_and_the_first_initial_state() {
    let infos = parse("  q0 q9 ;  q1   q2 \nq0 x q1\nword:x").unwrap();
    assert_eq!(infos.get_initial_state(), "q0");
    assert_eq!(
        infos.get_finish_state(),
        &vec!["q1".to_string(), "q2".to_string()]
    );
    assert_eq!(infos.get_word(), "x");
}

#[test]
fn parse_takes_the_second_word_as_label_and_the_last_as_target() {
    let infos = parse("a ; b\na x b\na y > then b\n: xy").unwrap();
    assert_eq!(
        infos.states().get(&"a".to_string()),
        &vec![node("x", "b"), node("y", "b")]
    );
    let infos = parse("a ; b\na b\n:").unwrap();
    assert_eq!(infos.states().get(&"a".to_string()), &vec![node("b", "b")]);
}

#[test]
fn parse_takes_the_word_behind_the_last_colon() {
    assert_eq!(parse("a ; a\n w : x : yz ").unwrap().get_word(), "yz");
    assert_eq!(parse("a ; a\nyz").unwrap().get_word(), "yz");
    assert_eq!(parse("a ; a\nwrd :").unwrap().get_word(), "");
    assert_eq!(parse("a ; a\n").unwrap().get_word(), "");
}

#[test]
fn parse_of_one_line_takes_the_word_from_it() {
    let infos = parse("a ; b").unwrap();
    assert_eq!(infos.get_word(), "a ; b");
    assert!(infos.states().is_empty());
    let infos = parse("a ; b : c").unwrap();
    assert_eq!(infos.get_word(), "c");
}

#[test]
fn parse_reads_the_word_line_as_a_transition_before_a_final_line_break() {
    let infos = parse("s0 ; s1\ns0 a > s1\nwrd : a\n").unwrap();
    assert_eq!(infos.get_word(), "");
    assert_eq!(infos.states().get(&"wrd".to_string()), &vec![node(":", "a")]);
}

#[test]
fn parse_without_separator() {
    assert_eq!(parse("s0 s1\ns0 a > s1\nwrd : a").err(), Some(ParseError::NoSeparator));
    assert_eq!(parse("").err(), Some(ParseError::NoSeparator));
}

#[test]
fn parse_with_a_bad_transition() {
    assert_eq!(
        parse("s0 ; s1\ns0 a > s1\ns1\ns0\nwrd : a").err(),
        Some(ParseError::BadTransition { line: 2 })
    );
    assert_eq!(
        parse("s0 ; s1\n\nwrd : a").err(),
        Some(ParseError::BadTransition { line: 1 })
    );
    assert_eq!(
        parse(" ; s1\ns0\nwrd : a").err(),
        Some(ParseError::BadTransition { line: 1 })
    );
}

#[test]
fn parse_without_initial_state() {
    assert_eq!(
        parse(" ; s1\ns0 a > s1\nwrd : a").err(),
        Some(ParseError::NoInitialState)
    );
}

#[test]
fn parse_of_a_refused_automaton() {
    assert_eq!(
        parse("s0 ;\ns0 a > s1\nwrd : a").err(),
        Some(ParseError::Descriptor(DescriptorError::NoFinishState))
    );
    assert_eq!(
        parse("q ; s1\ns0 a > s1\nwrd : a").err(),
        Some(ParseError::Descriptor(
            DescriptorError::InitialStateWithoutTransitions
        ))
    );
}
