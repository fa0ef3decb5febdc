use sylo::cfg::{GrammarBuilder, GrammarError, Symbol};
use sylo::syn::SynDef;

#[test]
fn a_grammar_needs_a_rule() {
    assert_eq!(GrammarBuilder::new().try_build().err(), Some(GrammarError::NoRules));
}

#[test]
fn a_grammar_names_only_its_variables() {
    let r = GrammarBuilder::new()
        .rule(&[&[Symbol::Terminal(0)], &[Symbol::Variable(0), Symbol::Variable(2)]])
        .rule(&[&[Symbol::Terminal(1)]])
        .try_build();
    assert_eq!(r.err(), Some(GrammarError::UndefinedVariable { rule: 0, alt: 1, var: 2 }));
}

#[test]
fn grammar_shape() {
    let g = GrammarBuilder::new()
        .rule(&[&[Symbol::Terminal(0), Symbol::Variable(1)], &[]])
        .rule(&[&[Symbol::Terminal(1)]])
        .try_build()
        .unwrap();
    // two rules and the start rule
    assert_eq!(g.rule_count(), 3);
    assert_eq!(g.alt_count(), 4);
    assert_eq!(g.alt(0), &vec![Symbol::Terminal(0), Symbol::Variable(1)]);
    assert_eq!(g.alt(3), &vec![Symbol::Variable(0)]);
    assert_eq!(g.alt_rule(2), 1);
    assert_eq!(g.alt_indices(0), (0, 2));
}

#[test]
fn an_ambiguous_grammar_has_no_lr1_tables() {
    // E -> E + E | n
    let e = Symbol::Variable(0);
    let grammar = GrammarBuilder::new()
        .rule(&[&[e, Symbol::Terminal(0), e], &[Symbol::Terminal(1)]])
        .try_build()
        .unwrap();
    let err = SynDef { grammar, word_count: 2 }.compile().err().unwrap();
    assert_eq!(err.item.rule, 0);
}

const WB: usize = 0;
const WC: usize = 1;
const WD: usize = 2;

// S -> B C d, B -> b, C -> (empty) | c
fn nullable_middle() -> sylo::cfg::Grammar {
    let (b, c) = (Symbol::Variable(1), Symbol::Variable(2));
    GrammarBuilder::new()
        .rule(&[&[b, c, Symbol::Terminal(WD)]])
        .rule(&[&[Symbol::Terminal(WB)]])
        .rule(&[&[], &[Symbol::Terminal(WC)]])
        .try_build()
        .unwrap()
}

fn accepts(syn: &sylo::syn::SynAnalyzer, words: &[usize]) -> bool {
    let mut parse = syn.parse(words.to_vec());
    loop {
        match parse.next() {
            None => return true,
            Some(Ok(_)) => {}
            Some(Err(_)) => return false,
        }
    }
}

#[test]
fn lookaheads_after_a_nullable_variable() {
    let syn = SynDef { grammar: nullable_middle(), word_count: 3 }.compile().unwrap();
    assert!(accepts(&syn, &[WB, WD]));
    assert!(accepts(&syn, &[WB, WC, WD]));
    assert!(!accepts(&syn, &[WB]));
    assert!(!accepts(&syn, &[WB, WC]));
    assert!(!accepts(&syn, &[WD]));
}

// S -> B C d | b d, B -> b, C -> (empty) | c: on d after b, reduce B -> b
// and shift d clash
#[test]
fn conflict_found_through_a_nullable_variable() {
    let (b, c) = (Symbol::Variable(1), Symbol::Variable(2));
    let grammar = GrammarBuilder::new()
        .rule(&[&[b, c, Symbol::Terminal(WD)], &[Symbol::Terminal(WB), Symbol::Terminal(WD)]])
        .rule(&[&[Symbol::Terminal(WB)]])
        .rule(&[&[], &[Symbol::Terminal(WC)]])
        .try_build()
        .unwrap();
    assert!(SynDef { grammar, word_count: 3 }.compile().is_err());
}
