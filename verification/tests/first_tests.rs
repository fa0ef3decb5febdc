use sylo::cfg::{GrammarBuilder, Symbol};
use sylo::first::First;

const A: usize = 0;
const B: usize = 1;
const C: usize = 2;

// S -> X c | b
// X -> a X | (empty)
#[test]
fn first_sets_with_a_nullable_variable() {
    let s = Symbol::Variable(0);
    let x = Symbol::Variable(1);
    let grammar = GrammarBuilder::new()
        .rule(&[&[x, Symbol::Terminal(C)], &[Symbol::Terminal(B)]])
        .rule(&[&[Symbol::Terminal(A), x], &[]])
        .try_build()
        .unwrap();
    let first = First::new(&grammar);
    assert_eq!(first.get(0), &vec![Some(A), Some(B), Some(C)]);
    assert_eq!(first.get(1), &vec![None, Some(A)]);
    // the start rule derives what `S` derives
    assert_eq!(first.get(2), &vec![Some(A), Some(B), Some(C)]);
    let _ = s;
}

// E -> E + n | n
#[test]
fn first_sets_of_a_left_recursive_rule() {
    let e = Symbol::Variable(0);
    let grammar = GrammarBuilder::new()
        .rule(&[&[e, Symbol::Terminal(B), Symbol::Terminal(A)], &[Symbol::Terminal(A)]])
        .try_build()
        .unwrap();
    let first = First::new(&grammar);
    assert_eq!(first.get(0), &vec![Some(A)]);
}
