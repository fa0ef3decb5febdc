use sylo::dfa::DFA;
use sylo::regex::RegEx;
use sylo::unicode::{any, basic_latin, basic_multilingual_plane, non_compatibility_char, range};

fn accepts(r: &RegEx, bytes: &[u8]) -> bool {
    let dfa = DFA::from(&vec![r.duplicate()]);
    let mut id = 1;
    for &b in bytes {
        id = dfa.step(id, b);
    }
    dfa.class(id) == Some(0)
}

fn accepts_str(r: &RegEx, text: &str) -> bool {
    accepts(r, text.as_bytes())
}

#[test]
fn range_of_ascii_letters() {
    let r = range('a', 'c');
    assert!(accepts_str(&r, "a"));
    assert!(accepts_str(&r, "b"));
    assert!(accepts_str(&r, "c"));
    assert!(!accepts_str(&r, "d"));
    assert!(!accepts_str(&r, "ab"));
    assert!(!accepts_str(&r, ""));
}

#[test]
fn range_spanning_encoding_lengths() {
    let r = range('\u{7E}', '\u{801}');
    assert!(accepts_str(&r, "\u{7E}"));
    assert!(accepts_str(&r, "\u{7F}"));
    assert!(accepts_str(&r, "\u{80}"));
    assert!(accepts_str(&r, "\u{7FF}"));
    assert!(accepts_str(&r, "\u{800}"));
    assert!(accepts_str(&r, "\u{801}"));
    assert!(!accepts_str(&r, "\u{802}"));
    assert!(!accepts_str(&r, "\u{7D}"));
    assert!(!accepts(&r, &[0xC1, 0xBF]));
}

#[test]
fn range_skips_surrogates() {
    let r = range('\u{D7FF}', '\u{E000}');
    assert!(accepts_str(&r, "\u{D7FF}"));
    assert!(accepts_str(&r, "\u{E000}"));
    assert!(!accepts(&r, &[0xED, 0xA0, 0x80]));
    assert!(!accepts(&r, &[0xED, 0xBF, 0xBF]));
}

#[test]
fn range_of_everything_and_of_nothing() {
    let all = range('\u{0}', '\u{10FFFF}');
    assert!(accepts_str(&all, "\u{0}"));
    assert!(accepts_str(&all, "\u{10FFFF}"));
    assert!(accepts_str(&all, "\u{1F600}"));
    assert!(!accepts(&all, &[0xF4, 0x90, 0x80, 0x80]));
    assert!(!accepts(&all, &[0x80]));
    let none = range('z', 'a');
    assert!(!accepts_str(&none, "a"));
    assert!(!accepts_str(&none, "z"));
}

#[test]
fn range_over_two_bytes_takes_no_other_pairs() {
    let r = range('\u{0}', '\u{100}');
    assert!(accepts_str(&r, "\u{100}"));
    assert!(accepts_str(&r, "\u{1}"));
    assert!(!accepts(&r, &[1, 1]));
    assert!(!accepts_str(&r, "\u{101}"));
}

#[test]
fn basic_latin_chars() {
    let r = basic_latin();
    assert!(accepts_str(&r, "\t"));
    assert!(accepts_str(&r, "\n"));
    assert!(accepts_str(&r, "\r"));
    assert!(accepts_str(&r, " "));
    assert!(accepts_str(&r, "~"));
    assert!(!accepts_str(&r, "\u{7F}"));
    assert!(!accepts_str(&r, "\u{0}"));
    assert!(!accepts_str(&r, "\u{85}"));
}

#[test]
fn basic_multilingual_plane_chars() {
    let r = basic_multilingual_plane();
    assert!(accepts_str(&r, "A"));
    assert!(accepts_str(&r, "\u{85}"));
    assert!(accepts_str(&r, "\u{A0}"));
    assert!(accepts_str(&r, "\u{FFFD}"));
    assert!(!accepts_str(&r, "\u{FFFE}"));
    assert!(!accepts_str(&r, "\u{FDD0}"));
    assert!(!accepts_str(&r, "\u{86}"));
    assert!(!accepts_str(&r, "\u{10000}"));
}

#[test]
fn non_compatibility_chars() {
    let r = non_compatibility_char();
    assert!(accepts_str(&r, "\u{85}"));
    assert!(accepts_str(&r, "\u{10000}"));
    assert!(accepts_str(&r, "\u{10FFFD}"));
    assert!(!accepts_str(&r, "\u{1FFFE}"));
    assert!(!accepts_str(&r, "\u{10FFFF}"));
    assert!(!accepts_str(&r, "\u{8}"));
}

#[test]
fn any_of_a_string() {
    let r = any("a\u{E9}\u{20AC}\u{1F600}");
    assert!(accepts_str(&r, "a"));
    assert!(accepts_str(&r, "\u{E9}"));
    assert!(accepts_str(&r, "\u{20AC}"));
    assert!(accepts_str(&r, "\u{1F600}"));
    assert!(!accepts_str(&r, "b"));
    assert!(!accepts_str(&r, "a\u{E9}"));
    assert!(!accepts_str(&r, ""));
    let none = any("");
    assert!(!accepts_str(&none, ""));
    assert!(!accepts_str(&none, "a"));
}

#[test]
fn ascii_range_is_one_byte_class() {
    let r = sylo::unicode::range('a', 'z');
    match &*r.root {
        sylo::regex::Operator::Class(cs) => assert_eq!(cs.intervals(), &vec![(0x61u8, 0x7au8)]),
        _ => panic!("an ASCII range is a single class"),
    }
    let empty = sylo::unicode::range('z', 'a');
    assert!(matches!(&*empty.root, sylo::regex::Operator::Void));
}

#[test]
fn basic_latin_is_one_byte_class() {
    let r = sylo::unicode::basic_latin();
    match &*r.root {
        sylo::regex::Operator::Class(cs) => assert_eq!(cs.intervals(), &vec![(0x09u8, 0x0au8), (0x0d, 0x0d), (0x20, 0x7e)]),
        _ => panic!("basic latin is a single class"),
    }
}
