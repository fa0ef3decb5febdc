use sylo::cfg::{GrammarBuilder, Symbol};
use sylo::charset::CharSet;
use sylo::ir::{Lexer, LexerState, NTTransition, Parser, ParserState, TTransition};
use sylo::lex::{Command, LexDef};
use sylo::parser::{Associativity, ParserDefBuilder, Precedence, LR1};
use sylo::regex::{literal, RegEx};
use sylo::scanning::ArrayScanningTable;
use sylo::syn::Action;

#[test]
fn parser_state_lists_valid_actions_and_gotos() {
    let actions = [Action::Invalid, Action::Shift(3), Action::Invalid, Action::Reduce(1), Action::Accept];
    let gotos = [None, Some(4), None, Some(2)];
    let symbols = [Symbol::Terminal(0), Symbol::Variable(1)];
    let st = ParserState::new(7, &symbols, &actions, &gotos);
    assert_eq!(st.id, 7);
    assert_eq!(st.input_symbols, symbols.to_vec());
    assert_eq!(st.ttrans, vec![
        TTransition { word: Some(0), action: Action::Shift(3) },
        TTransition { word: Some(2), action: Action::Reduce(1) },
        TTransition { word: Some(3), action: Action::Accept },
    ]);
    assert_eq!(st.nttrans, vec![NTTransition { var: 1, dst: 4 }, NTTransition { var: 3, dst: 2 }]);
    assert!(st.has_shift_transitions);

    let st = ParserState::new(0, &[], &[Action::Accept, Action::Reduce(0)], &[]);
    assert_eq!(st.ttrans[0], TTransition { word: None, action: Action::Accept });
    assert!(!st.has_shift_transitions);
    assert!(st.nttrans.is_empty());
}

fn digits_and_letters() -> ArrayScanningTable {
    let digit = RegEx::set(CharSet::range(b'0', b'9'));
    let lower = RegEx::set(CharSet::range(b'a', b'f'));
    let upper = RegEx::set(CharSet::range(b'A', b'F'));
    ArrayScanningTable::new(&vec![digit.plus(), lower.or(&upper).plus()], vec![Command::Emit, Command::Emit])
}

#[test]
fn lexer_state_groups_bytes_into_intervals() {
    let table = digits_and_letters();
    let start = LexerState::new(&table, 0);
    assert_eq!(start.id, 0);
    assert_eq!(start.class, None);
    assert!(!start.can_transition_to_unlabelled_state);
    assert_eq!(start.transitions.len(), 2);
    let mut intervals: Vec<Vec<(u8, u8)>> = start.transitions.iter().map(|t| t.intervals.clone()).collect();
    intervals.sort();
    assert_eq!(intervals, vec![vec![(b'0', b'9')], vec![(b'A', b'F'), (b'a', b'f')]]);
    assert!(start.transitions[0].dst < start.transitions[1].dst);
    for t in &start.transitions {
        assert_ne!(t.dst, table.sink());
        for &(lo, _) in &t.intervals {
            assert_eq!(table.step(0, lo), t.dst);
        }
    }
}

#[test]
fn lexer_ir_counts_emitted_types() {
    let def = LexDef {
        labels: vec!["num".to_string(), "ws".to_string()],
        regexes: vec![RegEx::set(CharSet::range(b'0', b'9')).plus(), literal(" ")],
        commands: vec![Command::Emit, Command::Skip],
    };
    let lexer = Lexer::new("L", &def);
    assert_eq!(lexer.name, "L");
    assert_eq!(lexer.ttypes, def.labels);
    assert_eq!(lexer.commands, def.commands);
    assert_eq!(lexer.ttype_count, 2);
    assert!(!lexer.states.is_empty());
    assert_eq!(lexer.states[0].id, 0);
}

#[test]
fn parser_ir_states() {
    let lexer_def = LexDef {
        labels: vec!["+".to_string(), "n".to_string()],
        regexes: vec![literal("+"), literal("n")],
        commands: vec![Command::Emit, Command::Emit],
    };
    let e = Symbol::Variable(0);
    let grammar = GrammarBuilder::new()
        .rule(&[&[e, Symbol::Terminal(0), e], &[Symbol::Terminal(1)]])
        .try_build()
        .unwrap();
    let mut builder = ParserDefBuilder::new(lexer_def, vec!["E".to_string()], grammar);
    builder.set_token_precedence(0, Precedence { level: 1, associativity: Associativity::Left });
    let def = builder.build();
    let parser = match Parser::new("P", &def, &LR1) {
        Ok(p) => p,
        Err(_) => panic!("no conflict expected"),
    };
    assert_eq!(parser.name, "P");
    assert_eq!(parser.varnames, vec!["E".to_string()]);
    let start = &parser.states[0];
    assert_eq!(start.id, 0);
    assert!(start.input_symbols.is_empty());
    assert!(start.has_shift_transitions);
    // from the start only `n` can be shifted
    assert_eq!(start.ttrans.len(), 1);
    assert_eq!(start.ttrans[0].word, Some(1));
    assert_eq!(start.nttrans.len(), 1);
    assert_eq!(start.nttrans[0].var, 0);
    for (i, st) in parser.states.iter().enumerate() {
        assert_eq!(st.id, i);
        for t in &st.nttrans {
            assert!(t.dst < parser.states.len());
        }
    }
}

#[test]
fn lr1_parser_ir_from_parser() {
    let lexer_def = LexDef {
        labels: vec!["n".to_string(), "ws".to_string()],
        regexes: vec![literal("n"), literal(" ")],
        commands: vec![Command::Emit, Command::Skip],
    };
    // E -> n
    let grammar = GrammarBuilder::new().rule(&[&[Symbol::Terminal(0)]]).try_build().unwrap();
    let def = ParserDefBuilder::new(lexer_def, vec!["E".to_string()], grammar).build();
    let parser = def.build(&LR1).unwrap();
    let ir = sylo::ir::LR1Parser::new("P", &parser);
    assert_eq!(ir.name, "P");
    assert_eq!(ir.ttypes, vec!["n".to_string(), "ws".to_string()]);
    assert_eq!(ir.varnames, vec!["E".to_string()]);
    assert_eq!(ir.ttype_count, 2);
    assert_eq!(ir.reductions.len(), 2);
    assert_eq!(ir.reductions[0].var, 0);
    assert_eq!(ir.reductions[0].count, 1);
    assert!(ir.states[0].has_shift_transitions);
    assert_eq!(ir.states[0].ttrans.len(), 1);
    assert_eq!(ir.states[0].ttrans[0].word, Some(0));
}
