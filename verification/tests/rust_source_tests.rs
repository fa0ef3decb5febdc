use sylo::cfg::{GrammarBuilder, Symbol};
use sylo::ir::Parser;
use sylo::lex::{Command, LexDef};
use sylo::parser::{ParserDefBuilder, LR1};
use sylo::regex::literal;
use sylo::rust_parser_source::rust_parser_source;

fn single_token_parser() -> Parser {
    let lexer_def = LexDef {
        labels: vec!["n".to_string(), "ws".to_string()],
        regexes: vec![literal("n"), literal(" ")],
        commands: vec![Command::Emit, Command::Skip],
    };
    // E -> n
    let grammar = GrammarBuilder::new().rule(&[&[Symbol::Terminal(0)]]).try_build().unwrap();
    let def = ParserDefBuilder::new(lexer_def, vec!["E".to_string()], grammar).build();
    match Parser::new("P", &def, &LR1) {
        Ok(parser) => parser,
        Err(_) => panic!("the grammar has no conflict"),
    }
}

#[test]
fn rust_parser_source_stubs_each_production() {
    let text = rust_parser_source(&single_token_parser());
    assert!(text.starts_with("#![allow(non_camel_case_types)]\n"));
    assert!(text.contains("#![allow(clippy::unit_arg)]\n\ntype EProduct = ();\n\n// E -> n\nfn p0(_: &[u8]) -> EProduct {\n    panic!(\"no semantic action for production 0\")\n}\n\n/* sylo lexer */\n"));
    assert!(text.contains("pub enum Variable {\n    E(EProduct),\n}\n"));
    assert!(text.contains("pub fn parse<I: AsRef<[u8]> + ?Sized>(input: &I) -> Result<EProduct, ParseError> {\n"));
    assert!(text.ends_with("fn decrement((var, goto): (Variable, usize)) -> Result<(Variable, usize), ParseError> {\n    assert!(goto > 0);\n    Ok((var, goto - 1))\n}\n"));
}

#[test]
fn rust_parser_source_writes_one_function_per_state() {
    let text = rust_parser_source(&single_token_parser());
    assert!(text.contains("    fn s0(&mut self) -> Result<(Variable, usize), ParseError> {\n"));
    assert!(text.contains("(&mut self, arg: Token) -> Result<(Variable, usize), ParseError> {\n        match self.next_token {\n            None => return Ok((Variable::E(p0(self.lexeme(&arg))), 0)),\n"));
    assert!(text.contains("Some(t @ Token { ttype: TokenType::n, .. }) => { self.update()?; self.s"));
}

#[test]
fn tables_of_a_parser_are_ready_for_the_writer() {
    assert!(sylo::rust_parser_source::rust_parser_is_ready(&single_token_parser()));
}
