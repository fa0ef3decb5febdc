use sylo::cfg::{GrammarBuilder, Symbol};
use sylo::syn::{Instruction, ParseError, ParseErrorType, SynAnalyzer, SynDef};

fn parentheses_def() -> SynDef {
    let grammar = GrammarBuilder::new()
        .rule(&[&[Symbol::Variable(0), Symbol::Variable(1)], &[Symbol::Variable(1)]])
        .rule(&[&[Symbol::Terminal(0), Symbol::Variable(0), Symbol::Terminal(1)], &[Symbol::Terminal(0), Symbol::Terminal(1)]])
        .try_build()
        .unwrap();
    SynDef { grammar, word_count: 2 }
}

fn run(parser: &SynAnalyzer, input: &[usize]) -> Result<Vec<Instruction>, ParseError> {
    let mut parse = parser.parse(input.to_vec());
    let mut out = Vec::new();
    loop {
        match parse.next() {
            None => return Ok(out),
            Some(Ok(instruction)) => out.push(instruction),
            Some(Err(e)) => return Err(e),
        }
    }
}

fn all_sentences(termcount: usize, maxlen: usize) -> Vec<Vec<usize>> {
    let mut all = Vec::new();
    let mut ws: Vec<Vec<usize>> = vec![Vec::new()];
    for _ in 0..=maxlen {
        all.extend(ws.iter().cloned());
        let mut next = Vec::new();
        for w in &ws {
            for b in 0..termcount {
                let mut v = w.clone();
                v.push(b);
                next.push(v);
            }
        }
        ws = next;
    }
    all
}

#[test]
fn tests_parentheses_grammar() {
    let parser = parentheses_def().compile().unwrap();

    // ad hoc ground truth
    let is_valid = |input: &[usize]| -> bool {
        if input.is_empty() {
            false
        } else {
            let mut counter = 0_isize;
            for word in input {
                if *word == 0 {
                    counter += 1;
                } else {
                    counter -= 1;
                    if counter < 0 {
                        return false;
                    }
                }
            }
            counter == 0
        }
    };

    for input in &all_sentences(2, 12) {
        let valid = is_valid(input);
        let parse = run(&parser, input);

        assert!(parse.is_ok() == valid,
            "Input {:?} is {}",
            input.iter().map(|i| (&["(", ")"])[*i]).collect::<String>(),
            if valid { "valid" } else { "invalid" }
        );
    }
}

#[test]
fn tests_parentheses_grammar_2() {
    let parser = parentheses_def().compile().unwrap();

    let input = vec![0, 0, 1, 1];

    let actions = run(&parser, &input).unwrap();

    assert_eq!(actions[0], Instruction::Shift { word: 0, index: 0 });
    assert_eq!(actions[1], Instruction::Shift { word: 0, index: 1 });
    assert_eq!(actions[2], Instruction::Shift { word: 1, index: 2 });
    assert_eq!(actions[3], Instruction::Reduce { var: 1, count: 2 });
    assert_eq!(actions[4], Instruction::Reduce { var: 0, count: 1 });
    assert_eq!(actions[5], Instruction::Shift { word: 1, index: 3 });
    assert_eq!(actions[6], Instruction::Reduce { var: 1, count: 3 });
    assert_eq!(actions[7], Instruction::Reduce { var: 0, count: 1 });
}

#[test]
fn parse_errors_come_from_missing_actions() {
    let parser = parentheses_def().compile().unwrap();
    for input in &all_sentences(2, 8) {
        if let Err(e) = run(&parser, input) {
            assert!(matches!(e.source, ParseErrorType::InvalidAction { .. }));
            assert!(e.count <= input.len());
        }
    }
    let e = run(&parser, &[1]).unwrap_err();
    assert_eq!(e.count, 0);
    assert!(matches!(e.source, ParseErrorType::InvalidAction { state: 0, word: Some(1) }));
    let e = run(&parser, &[0]).unwrap_err();
    assert_eq!(e.count, 1);
    assert!(matches!(e.source, ParseErrorType::InvalidAction { word: None, .. }));
}

#[test]
fn accepted_run_shifts_every_word_in_order() {
    let parser = parentheses_def().compile().unwrap();
    let input = vec![0, 0, 1, 1, 0, 1];
    let steps = run(&parser, &input).unwrap();
    let shifted: Vec<(usize, usize)> = steps
        .iter()
        .filter_map(|s| match s {
            Instruction::Shift { word, index } => Some((*word, *index)),
            _ => None,
        })
        .collect();
    let expected: Vec<(usize, usize)> = input.iter().enumerate().map(|(i, w)| (*w, i)).collect();
    assert_eq!(shifted, expected);
}
