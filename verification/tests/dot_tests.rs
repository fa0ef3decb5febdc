use sylo::charset::CharSet;
use sylo::dot::{charset_text, regex_dot};
use sylo::regex::RegEx;

#[test]
fn set_notation_lists_points_and_ranges() {
    let set = CharSet::range(0x30, 0x39).union(&CharSet::point(0x0a));
    assert_eq!(charset_text(&set), "{0a,[30..39]}");
    assert_eq!(charset_text(&CharSet::empty()), "{}");
    assert_eq!(charset_text(&CharSet::range(0xf0, 0xff)), "{[f0..ff]}");
}

#[test]
fn regex_drawing_numbers_children_before_their_subtrees() {
    let r = RegEx::set(CharSet::point(b'a')).concat(&RegEx::set(CharSet::point(b'b')).star());
    let expected = "digraph RegEx {\n    node[shape=plain];\n    s0[label=\"cat\"]\n    s0->s1\n    s0->s2\n    s2[label=\"star\"]\n    s2->s3\n    s3[label=\"{62}\"]\n    s1[label=\"{61}\"]\n}\n";
    assert_eq!(regex_dot(&r), expected);
}

#[test]
fn regex_drawing_of_the_empty_language() {
    assert_eq!(regex_dot(&RegEx::none()), "digraph RegEx {\n    node[shape=plain];\n    s0[label=\"\u{2205}\"]\n}\n");
}

#[test]
fn regex_drawing_counts_past_nine() {
    let a = RegEx::set(CharSet::point(b'a'));
    let mut r = a.concat(&a);
    for _ in 0..10 {
        r = r.concat(&a);
    }
    let text = regex_dot(&r);
    assert!(text.contains("    s0->s12\n"));
    assert!(text.contains("    s12[label=\"{61}\"]\n"));
}

#[test]
fn dfa_drawing_of_a_one_byte_language() {
    let dfa = sylo::dfa::DFA::from(&vec![RegEx::set(CharSet::range(b'a', b'c'))]);
    let text = sylo::dot::dfa_dot(&dfa);
    assert!(text.starts_with("digraph DFA {\n    rankdir=LR;\n\n    node[shape=point]; q;\n    node[shape=invhouse]; s0[label=\"\"];\n\n    node[shape=doublecircle];\n"));
    assert!(text.contains("\n    s0->s0[label=\"{[00..ff]}\"];\n    q->s1;\n"));
    assert!(text.contains("    s1->s2[label=\"{[61..63]}\"];\n"));
    assert!(text.contains("    s2[label=\"0\"];\n"));
    assert!(text.contains("    node[shape=circle];\n    s1[label=\"\"];\n"));
    assert!(text.ends_with("}\n"));
}
