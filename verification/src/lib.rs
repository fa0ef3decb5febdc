//! Lexer and parser generator: byte-level character sets, regular expressions
//! with Brzozowski derivatives and over UTF-8 character ranges, deterministic
//! automata, context-free grammars, canonical LR(1) automata, parsing tables
//! and table-driven parsing.

pub mod charset;
pub mod regex;
pub mod unicode;
pub mod cfg;
pub mod first;
pub mod lr1;
pub mod lr0;
pub mod syn;
pub mod cst;
pub mod dfa;
pub mod lex;
pub mod parser;
pub mod lalr1;
pub mod scanning;
pub mod ir;
pub mod analyzer;
pub mod dot;
pub mod c_source;
pub mod rust_source;
pub mod rust_parser_source;
