use sylo::c_source::c_lexer_source;
use sylo::ir::{Lexer, LexerState, Transition};
use sylo::lex::Command;

fn numbers_and_blanks() -> Lexer {
    Lexer {
        name: "lx".to_string(),
        ttypes: vec!["num".to_string(), "ws".to_string()],
        commands: vec![Command::Emit, Command::Skip],
        ttype_count: 2,
        states: vec![
            LexerState {
                id: 0,
                transitions: vec![
                    Transition { intervals: vec![(0x30, 0x39)], dst: 1 },
                    Transition { intervals: vec![(0x09, 0x0a), (0x20, 0x20)], dst: 2 },
                ],
                can_transition_to_unlabelled_state: false,
                class: None,
            },
            LexerState {
                id: 1,
                transitions: vec![Transition { intervals: vec![(0x30, 0x39)], dst: 1 }],
                can_transition_to_unlabelled_state: true,
                class: Some(0),
            },
            LexerState { id: 2, transitions: vec![], can_transition_to_unlabelled_state: false, class: Some(1) },
        ],
    }
}

#[test]
fn c_source_declares_emitted_token_types_in_upper_case() {
    let text = c_lexer_source("lx", &numbers_and_blanks());
    assert!(text.starts_with("#include <stddef.h>\n#include <stdint.h>\n\nstruct lx {\n"));
    assert!(text.contains("enum lx_TokenType {\n    NUM,\n    TT_ERROR = -1,\n    TT_SKIP = -2,\n};\n"));
    assert!(text.contains("struct lx_Item lx_next(struct lx *const this) {\n"));
    assert!(text.ends_with("            return lx_Item_newToken(last_accept_ttype, start_index, last_accept_index);\n        }\n}\n"));
}

#[test]
fn c_source_writes_one_block_per_state() {
    let text = c_lexer_source("lx", &numbers_and_blanks());
    let s0 = "    s0: {\n        if (this->index >= this->length) goto sink;\n        uint8_t ch = this->input[this->index];\n        if ((0x30 <= ch && ch <= 0x39)) { ++this->index; goto s1; }\n        if (ch == 0x09 ||\n            ch == 0x0a ||\n            ch == 0x20) { ++this->index; goto s2; }\n        goto sink;\n    }\n";
    let s1 = "    s1: {\n        if (this->index >= this->length) goto sink;\n        uint8_t ch = this->input[this->index];\n        last_accept_ttype = NUM;\n        last_accept_index = this->index;\n        if ((0x30 <= ch && ch <= 0x39)) { ++this->index; goto s1; }\n        return lx_Item_newToken(NUM, start_index, this->index);\n    }\n";
    let s2 = "    s2: {\n        return lx_next(this);\n    }\n";
    let table = format!("    // *** LEXER TABLE START ***\n{}{}{}    // ***  LEXER TABLE END  ***\n", s0, s1, s2);
    assert!(text.contains(&table));
}

#[test]
fn c_source_of_the_last_byte() {
    let mut lexer = numbers_and_blanks();
    lexer.states[0].transitions[0].intervals = vec![(0xff, 0xff)];
    let text = c_lexer_source("lx", &lexer);
    assert!(text.contains("        if (ch == 0xff) { ++this->index; goto s1; }\n"));
}

#[test]
fn rust_source_writes_one_method_per_state() {
    let text = sylo::rust_source::rust_lexer_source(&numbers_and_blanks());
    assert!(text.starts_with("/* sylo lexer */\n\npub fn scan<I: AsRef<[u8]> + ?Sized>(input: &I) -> Scan<'_> {\n"));
    assert!(text.contains("pub enum TokenType {\n    num,\n}\n"));
    let s0 = "    fn s0(&mut self, mut ctx: Context) -> Option<<Self as Iterator>::Item> {\n        if self.index < self.input.len() {\n            let ch = self.input[self.index];\n            if (0x30..=0x39).contains(&ch) { self.index += 1; return self.s1(ctx); }\n            if ch == 0x09 ||\n               ch == 0x0a ||\n               ch == 0x20 { self.index += 1; return self.s2(ctx); }\n        }\n        self.sink(&ctx)\n    }\n\n";
    let s1 = "    fn s1(&mut self, mut ctx: Context) -> Option<<Self as Iterator>::Item> {\n        if self.index < self.input.len() {\n            let ch = self.input[self.index];\n            ctx.last_accept_ttype = LastAcceptTType::Tok(TokenType::num);\n            ctx.last_accept_index = self.index;\n            if (0x30..=0x39).contains(&ch) { self.index += 1; return self.s1(ctx); }\n        }\n        Some(Ok(Token { ttype: TokenType::num, span: (ctx.start_index, self.index) }))\n    }\n\n";
    let s2 = "    fn s2(&mut self, mut ctx: Context) -> Option<<Self as Iterator>::Item> {\n        self.begin()\n    }\n\n";
    let table = format!("// *** LEXER TABLE START ***\n\n{}{}{}// ***  LEXER TABLE END  ***\n\n", s0, s1, s2);
    assert!(text.contains(&table));
    assert!(text.ends_with("                self.begin()\n            }\n        }\n    }\n}\n"));
}

#[test]
fn writer_readiness_checks() {
    let lexer = numbers_and_blanks();
    assert!(sylo::c_source::c_lexer_ready(&lexer));
    assert!(sylo::rust_source::rust_lexer_ready(&lexer));
    let mut bad = numbers_and_blanks();
    bad.states[2].class = Some(5);
    assert!(!sylo::c_source::c_lexer_ready(&bad));
    assert!(!sylo::rust_source::rust_lexer_ready(&bad));
    let mut short = numbers_and_blanks();
    short.commands.pop();
    assert!(!sylo::c_source::c_lexer_ready(&short));
}
