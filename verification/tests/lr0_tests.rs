use sylo::cfg::{GrammarBuilder, Symbol};
use sylo::lr0::{LR0ABuilder, LR0Item, LR0A};

#[test]
fn lr0_automaton_of_parentheses() {
    // S -> S P | P ; P -> ( S ) | ( )
    let grammar = GrammarBuilder::new()
        .rule(&[&[Symbol::Variable(0), Symbol::Variable(1)], &[Symbol::Variable(1)]])
        .rule(&[&[Symbol::Terminal(0), Symbol::Variable(0), Symbol::Terminal(1)], &[Symbol::Terminal(0), Symbol::Terminal(1)]])
        .try_build()
        .unwrap();
    let lr0a = LR0A::new(&grammar);
    let states = lr0a.states();
    // the start state: the closure of the start item
    let start = &states[0].items;
    assert_eq!(start, &vec![
        LR0Item { alt: 0, pos: 0 },
        LR0Item { alt: 1, pos: 0 },
        LR0Item { alt: 2, pos: 0 },
        LR0Item { alt: 3, pos: 0 },
        LR0Item { alt: 4, pos: 0 },
    ]);
    // transitions on S, P and ( from the start
    let mut symbols: Vec<Symbol> = states[0].next.iter().map(|&(x, _)| x).collect();
    symbols.sort();
    assert_eq!(symbols, vec![Symbol::Terminal(0), Symbol::Variable(0), Symbol::Variable(1)]);
    // every transition leads to a state whose kernel has the dot moved
    for state in states {
        for &(x, j) in &state.next {
            for item in &states[j].items {
                if item.pos > 0 {
                    assert_eq!(grammar.alt(item.alt)[item.pos - 1], x);
                }
            }
        }
    }
    // no two states have the same items
    for i in 0..states.len() {
        for j in i + 1..states.len() {
            assert_ne!(states[i].items, states[j].items);
        }
    }
    // the canonical LR(0) collection of this grammar has 8 states
    assert_eq!(states.len(), 8);
    let again = LR0ABuilder::new(&grammar).build();
    assert_eq!(again.states().len(), states.len());
}
