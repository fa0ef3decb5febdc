use sylo::charset::CharSet;
use sylo::lex::{Command, LexAnalyzer, LexDef, ParseError, Token};
use sylo::regex::{literal, RegEx};

fn tokens(lexer: &LexAnalyzer, text: &str) -> Result<Vec<Token>, ParseError> {
    let mut parse = lexer.parse(text);
    let mut out = Vec::new();
    loop {
        match parse.next() {
            None => return Ok(out),
            Some(Ok(token)) => out.push(token),
            Some(Err(e)) => return Err(e),
        }
    }
}

#[test]
fn simple_lexer() {
    let ws = RegEx::set(CharSet::point(b' ').union(&CharSet::point(b','))).plus();
    let letters = CharSet::range(b'A', b'Z').union(&CharSet::range(b'a', b'z'));
    let word = RegEx::set(letters).plus();
    let lexer = LexAnalyzer::compile(&LexDef {
        labels: vec!["_ws".to_string(), "word".to_string()],
        regexes: vec![ws, word],
        commands: vec![Command::Skip, Command::Emit],
    });

    let text = "Waltz, bad nymph, for quick jigs vex";

    let tokens = tokens(&lexer, text).unwrap();

    assert_eq!(&text[tokens[0].start..tokens[0].end], "Waltz");
    assert_eq!(&text[tokens[1].start..tokens[1].end], "bad");
    assert_eq!(&text[tokens[2].start..tokens[2].end], "nymph");
    assert_eq!(&text[tokens[3].start..tokens[3].end], "for");
    assert_eq!(&text[tokens[4].start..tokens[4].end], "quick");
    assert_eq!(&text[tokens[5].start..tokens[5].end], "jigs");
    assert_eq!(&text[tokens[6].start..tokens[6].end], "vex");
    assert!(tokens.iter().all(|token| token.class == 1));
}

#[test]
fn lexer_longest_match_and_first_rule_wins() {
    let ident = RegEx::set(CharSet::range(b'a', b'z')).plus();
    let space = RegEx::set(CharSet::point(b' ')).plus();
    let lexer = LexAnalyzer::compile(&LexDef {
        labels: vec!["if".to_string(), "ident".to_string(), "space".to_string()],
        regexes: vec![literal("if"), ident, space],
        commands: vec![Command::Emit, Command::Emit, Command::Skip],
    });
    let toks = tokens(&lexer, "if iff i").unwrap();
    assert_eq!(toks, vec![
        Token { class: 0, start: 0, end: 2 },
        Token { class: 1, start: 3, end: 6 },
        Token { class: 1, start: 7, end: 8 },
    ]);
}

#[test]
fn lexer_reports_position_of_bad_input() {
    let digits = RegEx::set(CharSet::range(b'0', b'9')).plus();
    let lexer = LexAnalyzer::compile(&LexDef {
        labels: vec!["num".to_string()],
        regexes: vec![digits],
        commands: vec![Command::Emit],
    });
    assert_eq!(tokens(&lexer, "12x3"), Err(ParseError { pos: 2 }));
    assert_eq!(tokens(&lexer, ""), Ok(vec![]));
}
