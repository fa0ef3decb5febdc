//! A parser made of a lexical and a syntactic analyzer: text is cut into
//! tokens, whose classes are the words the syntactic analyzer parses.

use vstd::prelude::*;
use vstd::string::StringSliceAdditionalSpecFns;
use crate::cfg::Symbol;
use crate::first::terminals_below;
use crate::lex::{self, Command, LexAnalyzer, LexDef, Token, copy_strings, tokens_from};
use crate::lr1::{Item, is_lr1a};
use crate::syn::{self, CompileError, SynAnalyzer, SynDef, compile_outcome};

verus! {

/// A parser definition: the labels of the token classes and of the
/// variables, the lexer and grammar definitions, and for each variable
/// whether its nodes are kept or spliced into their parent.
pub struct ParserDef {
    pub lex_labels: Vec<String>,
    pub syn_labels: Vec<String>,
    pub lex_def: LexDef,
    pub syn_def: SynDef,
    pub commands: Vec<Command>,
}

/// A parser: labels, a lexical and a syntactic analyzer, and the command of
/// each variable.
pub struct Parser {
    pub lex_labels: Vec<String>,
    pub syn_labels: Vec<String>,
    lex: LexAnalyzer,
    syn: SynAnalyzer,
    commands: Vec<Command>,
}

/// What went wrong in a parse: no token where the text goes on, or no
/// parse of the tokens.
#[derive(Clone, Copy, Debug, PartialEq, Eq, Structural)]
pub enum ParseError {
    Lex(lex::ParseError),
    Syn(syn::ParseError),
}

impl Parser {
    /// The labels of the token classes.
    pub closed spec fn spec_lex_labels(&self) -> Seq<String> {
        self.lex_labels@
    }

    /// The labels of the variables.
    pub closed spec fn spec_syn_labels(&self) -> Seq<String> {
        self.syn_labels@
    }

    /// The lexical analyzer.
    pub closed spec fn spec_lex(&self) -> LexAnalyzer {
        self.lex
    }

    /// The syntactic analyzer.
    pub closed spec fn spec_syn(&self) -> SynAnalyzer {
        self.syn
    }

    /// The command of each variable.
    pub closed spec fn spec_commands(&self) -> Seq<Command> {
        self.commands@
    }

    /// Both analyzers are consistent.
    pub open spec fn wf(&self) -> bool {
        &&& self.spec_lex().wf()
        &&& self.spec_syn().wf()
    }

    /// All the tokens of `text`, or the first error.
    pub fn tokenize(&self, text: &str) -> (r: Result<Vec<Token>, lex::ParseError>)
        requires
            self.wf(),
        ensures
            r matches Ok(v) ==> tokens_from(self.spec_lex(), text.spec_bytes(), 0) == Ok::<Seq<Token>, lex::ParseError>(v@),
            r matches Err(e) ==> tokens_from(self.spec_lex(), text.spec_bytes(), 0) == Err::<Seq<Token>, lex::ParseError>(e),
    {
        self.lex.tokenize(text)
    }

    /// The lexical analyzer.
    pub fn lex(&self) -> (r: &LexAnalyzer)
        ensures
            *r == self.spec_lex(),
    {
        &self.lex
    }

    /// The syntactic analyzer.
    pub fn syn(&self) -> (r: &SynAnalyzer)
        ensures
            *r == self.spec_syn(),
    {
        &self.syn
    }

    /// The command of each variable.
    pub fn commands(&self) -> (r: &Vec<Command>)
        ensures
            r@ == self.spec_commands(),
    {
        &self.commands
    }

    /// The command of variable `var`.
    pub fn command(&self, var: usize) -> (r: Command)
        requires
            var < self.spec_commands().len(),
        ensures
            r == self.spec_commands()[var as int],
    {
        self.commands[var]
    }
}

/// The syntactic analyzer of a compiled parser, or the compile error.
pub open spec fn syn_result(r: Result<Parser, CompileError>) -> Result<SynAnalyzer, CompileError> {
    match r {
        Ok(p) => Ok(p.spec_syn()),
        Err(e) => Err(e),
    }
}

impl ParserDef {
    /// The parser of the definition: its lexer compiled, its grammar's LR(1)
    /// tables built, or the first conflict found where the grammar is not
    /// LR(1).
    pub fn compile(&self) -> (r: Result<Parser, CompileError>)
        requires
            forall|k: int| 0 <= k < self.lex_def.regexes@.len() ==> #[trigger] crate::regex::wf(self.lex_def.regexes@[k]),
            self.lex_def.commands@.len() == self.lex_def.regexes@.len(),
            self.syn_def.grammar.wf(),
            terminals_below(self.syn_def.grammar, self.syn_def.word_count as int),
            self.syn_def.word_count < usize::MAX,
        ensures
            r matches Ok(p) ==> {
                &&& p.wf()
                &&& p.spec_lex_labels() == self.lex_labels@
                &&& p.spec_syn_labels() == self.syn_labels@
                &&& p.spec_commands() == self.commands@
                &&& p.spec_lex().spec_regexes() == self.lex_def.regexes@
                &&& p.spec_lex().spec_commands() == self.lex_def.commands@
                &&& p.spec_lex().spec_labels() == self.lex_def.labels@
            },
            exists|items: Seq<Seq<Item>>, nexts: Seq<Seq<(Symbol, usize)>>| #[trigger] is_lr1a(self.syn_def.grammar, items, nexts)
                && compile_outcome(self.syn_def.grammar, self.syn_def.word_count, items, nexts, syn_result(r)),
    {
        let lex = LexAnalyzer::compile(&self.lex_def);
        let s = self.syn_def.compile();
        let ghost sr = s;
        match s {
            Ok(syn) => {
                let mut commands: Vec<Command> = Vec::new();
                let mut i = 0usize;
                while i < self.commands.len()
                    invariant
                        i <= self.commands@.len(),
                        commands@ == self.commands@.take(i as int),
                    decreases self.commands@.len() - i,
                {
                    commands.push(self.commands[i]);
                    i += 1;
                    assert(commands@ =~= self.commands@.take(i as int));
                }
                assert(commands@ =~= self.commands@);
                let r = Parser { lex_labels: copy_strings(&self.lex_labels), syn_labels: copy_strings(&self.syn_labels), lex, syn, commands };
                assert(syn_result(Ok::<Parser, CompileError>(r)) == sr);
                Ok(r)
            },
            Err(e) => Err(e),
        }
    }
}

} // verus!
