use sylo::charset::CharSet;
use sylo::dfa::DFA;
use sylo::regex::{literal, RegEx};

fn keyword_and_ident() -> Vec<RegEx> {
    let letter = RegEx::set(CharSet::range(b'a', b'z'));
    vec![literal("if"), letter.plus()]
}

#[test]
fn dfa_first_matching_class() {
    let dfa = DFA::from(&keyword_and_ident());
    let run = |text: &str| {
        let mut id = 1;
        for b in text.bytes() {
            id = dfa.step(id, b);
        }
        dfa.class(id)
    };
    assert_eq!(run("if"), Some(0));
    assert_eq!(run("i"), Some(1));
    assert_eq!(run("iff"), Some(1));
    assert_eq!(run("abc"), Some(1));
    assert_eq!(run(""), None);
    assert_eq!(run("a1"), None);
}

#[test]
fn dfa_matches() {
    let dfa = DFA::from(&keyword_and_ident());
    assert!(dfa.matches("if"));
    assert!(dfa.matches("hello"));
    assert!(!dfa.matches("Hello"));
    assert!(!dfa.matches(""));
}

#[test]
fn dfa_sink_and_start() {
    let dfa = DFA::from(&keyword_and_ident());
    let states = dfa.states();
    assert!(states.len() >= 2);
    assert_eq!(states[0].class, None);
    for b in 0..=255u8 {
        assert_eq!(dfa.step(0, b), 0);
    }
    assert_eq!(dfa.class(1), None);
    assert_eq!(dfa.step(1, b'0'), 0);
}

#[test]
fn literal_matches_exactly() {
    let dfa = DFA::from(&vec![literal("abc")]);
    assert!(dfa.matches("abc"));
    assert!(!dfa.matches("ab"));
    assert!(!dfa.matches("abcd"));
    assert!(!dfa.matches("abd"));
}

fn run_from_start(dfa: &DFA, text: &str) -> Option<usize> {
    let mut id = 1;
    for b in text.bytes() {
        id = dfa.step(id, b);
    }
    dfa.class(id)
}

#[test]
fn minimize_keeps_classes() {
    let dfa = DFA::from(&keyword_and_ident());
    let min = dfa.minimize();
    assert!(min.states().len() <= dfa.states().len());
    for text in ["", "i", "if", "iff", "abc", "a1", "x", "ifif", "Z"] {
        assert_eq!(run_from_start(&min, text), run_from_start(&dfa, text));
    }
    for b in 0..=255u8 {
        assert_eq!(min.step(0, b), 0);
    }
}

#[test]
fn minimize_merges_equivalent_states() {
    // (a|b)c: after `a` and after `b` the automaton is in equivalent states.
    let ab = RegEx::set(CharSet::range(b'a', b'a')).or(&RegEx::set(CharSet::range(b'b', b'b')));
    let r = ab.concat(&literal("c"));
    let alt = literal("ac").or(&literal("bc"));
    let dfa = DFA::from(&vec![alt]);
    let min = dfa.minimize();
    let min2 = DFA::from(&vec![r]).minimize();
    assert_eq!(min.states().len(), min2.states().len());
    // sink, start, after the first letter, after `c`
    assert_eq!(min.states().len(), 4);
    assert!(min.matches("ac"));
    assert!(min.matches("bc"));
    assert!(!min.matches("cc"));
    assert!(!min.matches("a"));
}

#[test]
fn minimize_empty_language() {
    let dfa = DFA::from(&vec![RegEx::none()]);
    let min = dfa.minimize();
    assert_eq!(min.states().len(), 2);
    assert!(!min.matches(""));
    assert!(!min.matches("abc"));
}

#[test]
fn deriv_classes_separate_a_set_from_the_rest() {
    let r = RegEx::set(CharSet::range(b'a', b'c')).concat(&literal("x"));
    let c = r.deriv_classes();
    assert_eq!(c.len(), 256);
    assert_eq!(c[b'a' as usize], c[b'b' as usize]);
    assert_eq!(c[b'a' as usize], c[b'c' as usize]);
    assert_ne!(c[b'a' as usize], c[b'd' as usize]);
    assert_eq!(c[0], c[b'x' as usize]);
    assert_eq!(c[b'b' as usize], b'a');
}

#[test]
fn deriv_classes_of_nullable_prefix_look_further() {
    let r = RegEx::set(CharSet::point(b'a')).star().concat(&RegEx::set(CharSet::point(b'b')));
    let c = r.deriv_classes();
    assert_ne!(c[b'a' as usize], c[b'b' as usize]);
    assert_ne!(c[b'b' as usize], c[b'z' as usize]);
    assert_eq!(c[b'y' as usize], c[b'z' as usize]);
}

#[test]
fn complement_of_a_set_stays_within_single_bytes() {
    // `not` complements a set within the single bytes, so the derivative of
    // the complement of "ab" by `a` is the set of bytes other than `b`: the
    // string "a", outside "ab", is not matched by the automaton.
    let r = sylo::regex::literal("ab").not();
    let dfa = DFA::from(&vec![r]);
    let after_a = dfa.step(1, b'a');
    assert_eq!(dfa.class(1), Some(0));
    assert_eq!(dfa.class(after_a), None);
    assert_eq!(dfa.class(dfa.step(after_a, b'a')), Some(0));
    assert_eq!(dfa.class(dfa.step(after_a, b'b')), None);
}
