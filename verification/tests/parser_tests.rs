use sylo::cfg::{Grammar, GrammarBuilder, Symbol};
use sylo::lex::{Command, LexDef};
use sylo::lalr1::LALR1;
use sylo::parser::{Associativity, Conflict, LR1TableConstruction, NaiveLR1Table, ParserDef, ParserDefBuilder, Precedence, LR1};
use sylo::regex::literal;
use sylo::syn::Action;

const PLUS: usize = 0;
const TIMES: usize = 1;
const NUM: usize = 2;

fn lexer_def() -> LexDef {
    LexDef {
        labels: vec!["+".to_string(), "*".to_string(), "n".to_string()],
        regexes: vec![literal("+"), literal("*"), literal("n")],
        commands: vec![Command::Emit, Command::Emit, Command::Emit],
    }
}

// E -> E + E | E * E | n
fn ambiguous_grammar() -> Grammar {
    let e = Symbol::Variable(0);
    GrammarBuilder::new()
        .rule(&[
            &[e, Symbol::Terminal(PLUS), e],
            &[e, Symbol::Terminal(TIMES), e],
            &[Symbol::Terminal(NUM)],
        ])
        .try_build()
        .unwrap()
}

fn arithmetic_def(plus: Associativity, times: Associativity) -> ParserDef {
    let mut builder = ParserDefBuilder::new(lexer_def(), vec!["E".to_string()], ambiguous_grammar());
    builder.set_token_precedence(PLUS, Precedence { level: 1, associativity: plus });
    builder.set_token_precedence(TIMES, Precedence { level: 2, associativity: times });
    builder.build()
}

/// Drives the tables over `words`; the alternatives reduced, in order.
fn reductions(table: &NaiveLR1Table, words: &[usize]) -> Option<Vec<usize>> {
    let mut stack = vec![0usize];
    let mut pos = 0;
    let mut out = Vec::new();
    for _ in 0..1000 {
        let word = words.get(pos).copied();
        match table.action(*stack.last().unwrap(), word) {
            Action::Shift(ns) => {
                stack.push(ns);
                pos += 1;
            }
            Action::Reduce(alt) => {
                let red = table.reduction(alt);
                for _ in 0..red.count {
                    stack.pop();
                }
                let ns = table.goto(*stack.last().unwrap(), red.var)?;
                stack.push(ns);
                out.push(alt);
            }
            Action::Accept => return Some(out),
            Action::Invalid => return None,
        }
    }
    None
}

#[test]
fn build_defaults_production_precedence_to_rightmost_word() {
    let def = arithmetic_def(Associativity::Left, Associativity::Left);
    assert_eq!(def.token_precedence.len(), 3);
    assert_eq!(def.production_precedence.len(), 4);
    assert_eq!(def.production_precedence[0], Some(Precedence { level: 1, associativity: Associativity::Left }));
    assert_eq!(def.production_precedence[1], Some(Precedence { level: 2, associativity: Associativity::Left }));
    assert_eq!(def.production_precedence[2], None);
    assert_eq!(def.production_precedence[3], None);
}

#[test]
fn explicit_production_precedence_is_kept() {
    let mut builder = ParserDefBuilder::new(lexer_def(), vec!["E".to_string()], ambiguous_grammar());
    builder.set_token_precedence(PLUS, Precedence { level: 1, associativity: Associativity::Left });
    builder.set_production_precedence(0, Precedence { level: 7, associativity: Associativity::Right });
    let def = builder.build();
    assert_eq!(def.production_precedence[0], Some(Precedence { level: 7, associativity: Associativity::Right }));
    assert_eq!(def.production_precedence[1], None);
}

#[test]
fn conflict_resolution_by_precedence() {
    let def = arithmetic_def(Associativity::Left, Associativity::Right);
    // production E + E (level 1) against `*` (level 2): shift
    assert_eq!(def.conflict_resolution(Conflict::ShiftReduce { word: TIMES, next_state: 5, production: 0 }), Ok(Action::Shift(5)));
    // production E * E (level 2) against `+` (level 1): reduce
    assert_eq!(def.conflict_resolution(Conflict::ShiftReduce { word: PLUS, next_state: 5, production: 1 }), Ok(Action::Reduce(1)));
    // equal levels, left associative: reduce
    assert_eq!(def.conflict_resolution(Conflict::ShiftReduce { word: PLUS, next_state: 5, production: 0 }), Ok(Action::Reduce(0)));
    // equal levels, right associative: shift
    assert_eq!(def.conflict_resolution(Conflict::ShiftReduce { word: TIMES, next_state: 5, production: 1 }), Ok(Action::Shift(5)));
    // no precedence for the production: shift
    assert_eq!(def.conflict_resolution(Conflict::ShiftReduce { word: PLUS, next_state: 3, production: 2 }), Ok(Action::Shift(3)));
    // reduce/reduce conflicts stay
    let rr = Conflict::ReduceReduce { production1: 0, production2: 1 };
    assert_eq!(def.conflict_resolution(rr), Err(rr));
}

#[test]
fn precedence_orders_reductions() {
    let def = arithmetic_def(Associativity::Left, Associativity::Left);
    let table = LR1.construct(&def).unwrap();
    // n + n * n: the product is reduced first
    assert_eq!(reductions(&table, &[NUM, PLUS, NUM, TIMES, NUM]), Some(vec![2, 2, 2, 1, 0]));
    // n * n + n
    assert_eq!(reductions(&table, &[NUM, TIMES, NUM, PLUS, NUM]), Some(vec![2, 2, 1, 2, 0]));
    // n + n + n: left associative
    assert_eq!(reductions(&table, &[NUM, PLUS, NUM, PLUS, NUM]), Some(vec![2, 2, 0, 2, 0]));
    assert_eq!(reductions(&table, &[NUM, PLUS]), None);
    assert_eq!(reductions(&table, &[]), None);
}

#[test]
fn right_associativity_shifts() {
    let def = arithmetic_def(Associativity::Right, Associativity::Left);
    let table = LR1.construct(&def).unwrap();
    // n + n + n: right associative
    assert_eq!(reductions(&table, &[NUM, PLUS, NUM, PLUS, NUM]), Some(vec![2, 2, 2, 0, 0]));
}

#[test]
fn reduce_reduce_conflict_is_an_error() {
    // S -> A | B, A -> n, B -> n
    let grammar = GrammarBuilder::new()
        .rule(&[&[Symbol::Variable(1)], &[Symbol::Variable(2)]])
        .rule(&[&[Symbol::Terminal(0)]])
        .rule(&[&[Symbol::Terminal(0)]])
        .try_build()
        .unwrap();
    let def = ParserDefBuilder::new(lexer_def(), vec!["S".to_string(), "A".to_string(), "B".to_string()], grammar).build();
    match LR1.construct(&def) {
        Ok(_) => panic!("expected a conflict"),
        Err(err) => assert!(matches!(err.conflict, Conflict::ReduceReduce { .. })),
    }
    assert!(def.build(&LR1).is_err());
}

#[test]
fn parser_build_keeps_lexer_and_names() {
    let def = arithmetic_def(Associativity::Left, Associativity::Left);
    let parser = def.build(&LR1).unwrap();
    assert_eq!(parser.var_names, vec!["E".to_string()]);
    let mut scan = parser.lexer.parse("n+n");
    let t = scan.next().unwrap().unwrap();
    assert_eq!((t.class, t.start, t.end), (NUM, 0, 1));
    let t = scan.next().unwrap().unwrap();
    assert_eq!(t.class, PLUS);
}

#[test]
fn lalr1_agrees_with_lr1_on_arithmetic() {
    let def = arithmetic_def(Associativity::Left, Associativity::Left);
    let lalr = LALR1.construct(&def).unwrap();
    assert_eq!(reductions(&lalr, &[NUM, PLUS, NUM, TIMES, NUM]), Some(vec![2, 2, 2, 1, 0]));
    assert_eq!(reductions(&lalr, &[NUM, TIMES, NUM, PLUS, NUM]), Some(vec![2, 2, 1, 2, 0]));
    assert_eq!(reductions(&lalr, &[NUM, PLUS]), None);
    let parser = def.build(&LALR1).unwrap();
    assert_eq!(parser.var_names, vec!["E".to_string()]);
}

#[test]
fn lalr1_merges_states_into_a_conflict() {
    // S -> a A d | b B d | a B e | b A e ; A -> c ; B -> c
    let (a, b, c, d, e) = (0, 1, 2, 3, 4);
    let (s, va, vb) = (Symbol::Variable(0), Symbol::Variable(1), Symbol::Variable(2));
    let t = Symbol::Terminal;
    let grammar = GrammarBuilder::new()
        .rule(&[&[t(a), va, t(d)], &[t(b), vb, t(d)], &[t(a), vb, t(e)], &[t(b), va, t(e)]])
        .rule(&[&[t(c)]])
        .rule(&[&[t(c)]])
        .try_build()
        .unwrap();
    let _ = s;
    let lexer_def = LexDef {
        labels: vec!["a".to_string(), "b".to_string(), "c".to_string(), "d".to_string(), "e".to_string()],
        regexes: vec![literal("a"), literal("b"), literal("c"), literal("d"), literal("e")],
        commands: vec![Command::Emit; 5],
    };
    let def = ParserDefBuilder::new(lexer_def, vec!["S".to_string(), "A".to_string(), "B".to_string()], grammar).build();
    let lr1 = LR1.construct(&def).unwrap();
    // a c d: A -> c (alternative 4), then S -> a A d (alternative 0)
    assert_eq!(reductions(&lr1, &[a, c, d]), Some(vec![4, 0]));
    assert_eq!(reductions(&lr1, &[a, c, e]), Some(vec![5, 2]));
    match LALR1.construct(&def) {
        Ok(_) => panic!("expected a reduce/reduce conflict"),
        Err(err) => assert!(matches!(err.conflict, Conflict::ReduceReduce { .. })),
    }
}
