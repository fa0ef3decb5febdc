use sylo::analyzer::ParserDef;
use sylo::cfg::{GrammarBuilder, Symbol};
use sylo::cst::{CSTBuilder, Node};
use sylo::lex::{Command, LexDef};
use sylo::regex::literal;
use sylo::syn::{Instruction, SynDef};

fn def() -> ParserDef {
    let grammar = GrammarBuilder::new()
        .rule(&[&[Symbol::Variable(0), Symbol::Variable(1)], &[Symbol::Variable(1)]])
        .rule(&[&[Symbol::Terminal(0), Symbol::Variable(0), Symbol::Terminal(1)], &[Symbol::Terminal(0), Symbol::Terminal(1)]])
        .try_build()
        .unwrap();
    ParserDef {
        lex_labels: vec!["(".to_string(), ")".to_string(), "ws".to_string()],
        syn_labels: vec!["list".to_string(), "group".to_string()],
        lex_def: LexDef {
            labels: vec!["(".to_string(), ")".to_string(), "ws".to_string()],
            regexes: vec![literal("("), literal(")"), literal(" ")],
            commands: vec![Command::Emit, Command::Emit, Command::Skip],
        },
        syn_def: SynDef { grammar, word_count: 2 },
        commands: vec![Command::Skip, Command::Emit],
    }
}

#[test]
fn tokenize_skips_and_stops_at_errors() {
    let parser = def().compile().unwrap();
    let tokens = parser.tokenize("( ) ()").unwrap();
    let classes: Vec<usize> = tokens.iter().map(|t| t.class).collect();
    assert_eq!(classes, vec![0, 1, 0, 1]);
    assert_eq!((tokens[1].start, tokens[1].end), (2, 3));
    assert_eq!(parser.tokenize("").unwrap(), vec![]);
    let err = parser.tokenize("(x)").unwrap_err();
    assert_eq!(err.pos, 1);
}

#[test]
fn compiled_parser_builds_trees() {
    let parser = def().compile().unwrap();
    assert_eq!(parser.lex_labels.len(), 3);
    let tokens = parser.tokenize("(())()").unwrap();
    let words: Vec<usize> = tokens.iter().map(|t| t.class).collect();
    let mut parse = parser.syn().parse(words);
    let mut builder = CSTBuilder::new();
    loop {
        match parse.next() {
            None => break,
            Some(Ok(Instruction::Shift { word, index })) => builder.leaf(word, index),
            Some(Ok(Instruction::Reduce { var, count })) => match parser.command(var) {
                Command::Emit => builder.branch(var, count),
                Command::Skip => builder.list(count),
            },
            Some(Err(e)) => panic!("unexpected parse error {:?}", e),
        }
    }
    let cst = builder.build();
    let groups = cst.nodes.iter().filter(|n| matches!(n, Node::Branch { var: 1, .. })).count();
    assert_eq!(groups, 3);
}
