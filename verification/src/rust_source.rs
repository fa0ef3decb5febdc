//! Rust source of a table-driven scanner, from a lexer in intermediate form:
//! an iterator of tokens with one method per state and a sink that returns
//! the longest token seen, skips it, or reports an error.

use vstd::prelude::*;
use vstd::string::StringExecFns;
use crate::dot::{decimal, hex_byte};
use crate::ir::{Lexer, LexerState, Transition};
use crate::lex::Command;

verus! {

/// The bound the writer relies on: state classes name token types that
/// have commands.
pub open spec fn rust_ready(l: Lexer) -> bool {
    forall|i: int| 0 <= i < l.states@.len() && (#[trigger] l.states@[i]).class is Some ==> {
        let c = l.states@[i].class->0;
        c < l.ttypes@.len() && c < l.commands@.len()
    }
}

/// The variants of the first `j` token types that are emitted.
pub open spec fn rust_enum_lines(l: Lexer, j: int) -> Seq<char>
    decreases j,
{
    if j <= 0 {
        Seq::empty()
    } else {
        rust_enum_lines(l, j - 1) + if l.commands@[j - 1] == Command::Emit {
            "    "@ + l.ttypes@[j - 1]@ + ",\n"@
        } else {
            Seq::empty()
        }
    }
}

/// The number of token types that have a command.
pub open spec fn rust_typed(l: Lexer) -> int {
    if l.ttypes@.len() <= l.commands@.len() { l.ttypes@.len() as int } else { l.commands@.len() as int }
}

/// The scanner's entry point, its types, and the opening of the token type
/// enumeration.
pub open spec fn rust_prelude() -> Seq<char> {
    "/* sylo lexer */\n\npub fn scan<I: AsRef<[u8]> + ?Sized>(input: &I) -> Scan<'_> {\n    Scan {\n        input: input.as_ref(),\n        index: 0,\n    }\n}\n\npub struct Scan<'a> {\n    input: &'a [u8],\n    index: usize,\n}\n\n#[derive(Debug)]\npub struct ScanError {\n    pub pos: usize,\n}\n\n#[derive(Debug, Clone, Copy)]\npub enum TokenType {\n"@
}

/// The end of the enumeration, the token type, the iterator and the start
/// of the scanning methods.
pub open spec fn rust_body_start() -> Seq<char> {
    "}\n\n#[derive(Debug, Clone, Copy)]\npub struct Token {\n    pub ttype: TokenType,\n    pub span: (usize, usize),\n}\n\nimpl<'a> Iterator for Scan<'a> {\n    type Item = Result<Token, ScanError>;\n\n    fn next(&mut self) -> Option<Self::Item> {\n        self.begin()\n    }\n}\n\nenum LastAcceptTType {\n    Tok(TokenType),\n    Error,\n    Skip,\n}\n\nstruct Context {\n    start_index: usize,\n    last_accept_ttype: LastAcceptTType,\n    last_accept_index: usize,\n}\n\nimpl Scan<'_> {\n    fn begin(&mut self) -> Option<<Self as Iterator>::Item> {\n        if self.index >= self.input.len() {\n            return None;\n        }\n\n        let ctx = Context {\n            start_index: self.index,\n            last_accept_ttype: LastAcceptTType::Error,\n            last_accept_index: 0,\n        };\n\n        self.s0(ctx)\n    }\n\n// *** LEXER TABLE START ***\n\n"@
}

/// The sink and the end of the scanning methods.
pub open spec fn rust_sink() -> Seq<char> {
    "// ***  LEXER TABLE END  ***\n\n    fn sink(&mut self, ctx: &Context) -> Option<<Self as Iterator>::Item> {\n        match ctx.last_accept_ttype {\n            LastAcceptTType::Tok(ttype) => {\n                self.index = ctx.last_accept_index;\n                Some(Ok(Token { ttype, span: (ctx.start_index, ctx.last_accept_index) }))\n            }\n            LastAcceptTType::Error => {\n                let pos = self.index;\n                self.index = usize::MAX; // forces next iteration to return None\n                Some(Err(ScanError { pos }))\n            }\n            LastAcceptTType::Skip => {\n                self.index = ctx.last_accept_index;\n                self.begin()\n            }\n        }\n    }\n}\n"@
}

/// The test of one interval of bytes: a comparison for one byte, two for
/// two bytes (on two lines), a range test for more.
pub open spec fn rust_interval(iv: (u8, u8)) -> Seq<char> {
    if iv.0 + 1 < iv.1 {
        "(0x"@ + hex_byte(iv.0) + "..=0x"@ + hex_byte(iv.1) + ").contains(&ch)"@
    } else if iv.0 + 1 == iv.1 {
        "ch == 0x"@ + hex_byte(iv.0) + " ||\n               ch == 0x"@ + hex_byte(iv.1)
    } else {
        "ch == 0x"@ + hex_byte(iv.0)
    }
}

/// The tests of the first `j` intervals of `ivs`, joined by `||`, one per line.
pub open spec fn rust_intervals(ivs: Seq<(u8, u8)>, j: int) -> Seq<char>
    decreases j,
{
    if j <= 0 {
        Seq::empty()
    } else {
        rust_intervals(ivs, j - 1) + (if j > 1 { "               "@ } else { Seq::empty() }) + rust_interval(ivs[j - 1])
            + if j < ivs.len() { " ||\n"@ } else { Seq::empty() }
    }
}

/// The statement that takes transition `t`.
pub open spec fn rust_transition(t: Transition) -> Seq<char> {
    "            if "@ + rust_intervals(t.intervals@, t.intervals@.len() as int) + " { self.index += 1; return self.s"@
        + decimal(t.dst as nat) + "(ctx); }\n"@
}

/// The statements of the first `j` transitions of `ts`.
pub open spec fn rust_transitions(ts: Seq<Transition>, j: int) -> Seq<char>
    decreases j,
{
    if j <= 0 {
        Seq::empty()
    } else {
        rust_transitions(ts, j - 1) + rust_transition(ts[j - 1])
    }
}

/// The record of an accepting state from which a state of no class can be
/// reached.
pub open spec fn rust_accept(l: Lexer, s: LexerState) -> Seq<char> {
    match s.class {
        Some(c) => if s.can_transition_to_unlabelled_state {
            (if l.commands@[c as int] == Command::Skip {
                "            ctx.last_accept_ttype = LastAcceptTType::Skip;\n"@
            } else {
                "            ctx.last_accept_ttype = LastAcceptTType::Tok(TokenType::"@ + l.ttypes@[c as int]@ + ");\n"@
            }) + "            ctx.last_accept_index = self.index;\n"@
        } else {
            Seq::empty()
        },
        None => Seq::empty(),
    }
}

/// What a state returns when no transition is taken.
pub open spec fn rust_state_end(l: Lexer, s: LexerState) -> Seq<char> {
    match s.class {
        Some(c) => if l.commands@[c as int] == Command::Skip {
            "        self.begin()\n"@
        } else {
            "        Some(Ok(Token { ttype: TokenType::"@ + l.ttypes@[c as int]@ + ", span: (ctx.start_index, self.index) }))\n"@
        },
        None => "        self.sink(&ctx)\n"@,
    }
}

/// The method of state `s`.
pub open spec fn rust_state(l: Lexer, s: LexerState) -> Seq<char> {
    "    fn s"@ + decimal(s.id as nat) + "(&mut self, mut ctx: Context) -> Option<<Self as Iterator>::Item> {\n"@
        + (if s.transitions@.len() == 0 {
            Seq::empty()
        } else {
            "        if self.index < self.input.len() {\n            let ch = self.input[self.index];\n"@ + rust_accept(l, s)
                + rust_transitions(s.transitions@, s.transitions@.len() as int) + "        }\n"@
        }) + rust_state_end(l, s) + "    }\n\n"@
}

/// The methods of the first `j` states.
pub open spec fn rust_states(l: Lexer, j: int) -> Seq<char>
    decreases j,
{
    if j <= 0 {
        Seq::empty()
    } else {
        rust_states(l, j - 1) + rust_state(l, l.states@[j - 1])
    }
}

/// The Rust source of a scanner for `l`.
pub open spec fn rust_lexer_text(l: Lexer) -> Seq<char> {
    rust_prelude() + rust_enum_lines(l, rust_typed(l)) + rust_body_start() + rust_states(l, l.states@.len() as int)
        + rust_sink()
}

fn push_interval(out: &mut String, iv: (u8, u8))
    ensures
        final(out)@ == old(out)@ + rust_interval(iv),
{
    let ghost start = out@;
    if (iv.0 as u16) + 1 < (iv.1 as u16) {
        out.append("(0x");
        crate::dot::push_hex_byte(out, iv.0);
        out.append("..=0x");
        crate::dot::push_hex_byte(out, iv.1);
        out.append(").contains(&ch)");
    } else if (iv.0 as u16) + 1 == (iv.1 as u16) {
        out.append("ch == 0x");
        crate::dot::push_hex_byte(out, iv.0);
        out.append(" ||\n               ch == 0x");
        crate::dot::push_hex_byte(out, iv.1);
    } else {
        out.append("ch == 0x");
        crate::dot::push_hex_byte(out, iv.0);
    }
    assert(out@ =~= start + rust_interval(iv));
}

fn push_transition(out: &mut String, t: &Transition)
    ensures
        final(out)@ == old(out)@ + rust_transition(*t),
{
    let ghost start = out@;
    out.append("            if ");
    let ghost open = out@;
    let ivs = &t.intervals;
    let mut j: usize = 0;
    while j < ivs.len()
        invariant
            j <= ivs@.len(),
            out@ == open + rust_intervals(ivs@, j as int),
        decreases ivs@.len() - j,
    {
        if j > 0 {
            out.append("               ");
        }
        push_interval(out, ivs[j]);
        if j + 1 < ivs.len() {
            out.append(" ||\n");
        }
        j = j + 1;
        assert(out@ =~= open + rust_intervals(ivs@, j as int));
    }
    out.append(" { self.index += 1; return self.s");
    crate::dot::push_decimal(out, t.dst);
    out.append("(ctx); }\n");
    assert(out@ =~= start + rust_transition(*t));
}

fn push_accept(out: &mut String, l: &Lexer, s: &LexerState)
    requires
        s.class is Some ==> s.class->0 < l.ttypes@.len() && s.class->0 < l.commands@.len(),
    ensures
        final(out)@ == old(out)@ + rust_accept(*l, *s),
{
    let ghost a = out@;
    match s.class {
        Some(c) => {
            if s.can_transition_to_unlabelled_state {
                if l.commands[c] == Command::Skip {
                    out.append("            ctx.last_accept_ttype = LastAcceptTType::Skip;\n");
                } else {
                    out.append("            ctx.last_accept_ttype = LastAcceptTType::Tok(TokenType::");
                    out.append(l.ttypes[c].as_str());
                    out.append(");\n");
                }
                out.append("            ctx.last_accept_index = self.index;\n");
            }
        },
        None => {},
    }
    assert(out@ =~= a + rust_accept(*l, *s));
}

fn push_state_end(out: &mut String, l: &Lexer, s: &LexerState)
    requires
        s.class is Some ==> s.class->0 < l.ttypes@.len() && s.class->0 < l.commands@.len(),
    ensures
        final(out)@ == old(out)@ + rust_state_end(*l, *s),
{
    let ghost e = out@;
    match s.class {
        Some(c) => {
            if l.commands[c] == Command::Skip {
                out.append("        self.begin()\n");
            } else {
                out.append("        Some(Ok(Token { ttype: TokenType::");
                out.append(l.ttypes[c].as_str());
                out.append(", span: (ctx.start_index, self.index) }))\n");
            }
        },
        None => {
            out.append("        self.sink(&ctx)\n");
        },
    }
    assert(out@ =~= e + rust_state_end(*l, *s));
}

fn push_state(out: &mut String, l: &Lexer, s: &LexerState)
    requires
        s.class is Some ==> s.class->0 < l.ttypes@.len() && s.class->0 < l.commands@.len(),
    ensures
        final(out)@ == old(out)@ + rust_state(*l, *s),
{
    let ghost start = out@;
    out.append("    fn s");
    crate::dot::push_decimal(out, s.id);
    out.append("(&mut self, mut ctx: Context) -> Option<<Self as Iterator>::Item> {\n");
    let ghost head = out@;
    if s.transitions.len() > 0 {
        out.append("        if self.index < self.input.len() {\n            let ch = self.input[self.index];\n");
        push_accept(out, l, s);
        let ghost before = out@;
        let mut j: usize = 0;
        while j < s.transitions.len()
            invariant
                j <= s.transitions@.len(),
                out@ == before + rust_transitions(s.transitions@, j as int),
            decreases s.transitions@.len() - j,
        {
            push_transition(out, &s.transitions[j]);
            j = j + 1;
            assert(out@ =~= before + rust_transitions(s.transitions@, j as int));
        }
        out.append("        }\n");
    }
    push_state_end(out, l, s);
    out.append("    }\n\n");
    assert(out@ =~= start + rust_state(*l, *s));
}

/// The Rust source of a scanner for `lexer`: a `scan` function, its token
/// types, and one method per state.
pub fn rust_lexer_source(lexer: &Lexer) -> (r: String)
    requires
        rust_ready(*lexer),
    ensures
        r@ == rust_lexer_text(*lexer),
{
    let mut out = String::new();
    out.append("/* sylo lexer */\n\npub fn scan<I: AsRef<[u8]> + ?Sized>(input: &I) -> Scan<'_> {\n    Scan {\n        input: input.as_ref(),\n        index: 0,\n    }\n}\n\npub struct Scan<'a> {\n    input: &'a [u8],\n    index: usize,\n}\n\n#[derive(Debug)]\npub struct ScanError {\n    pub pos: usize,\n}\n\n#[derive(Debug, Clone, Copy)]\npub enum TokenType {\n");
    let ghost p = out@;
    let n: usize = if lexer.ttypes.len() <= lexer.commands.len() { lexer.ttypes.len() } else { lexer.commands.len() };
    let mut j: usize = 0;
    while j < n
        invariant
            j <= n,
            n == rust_typed(*lexer),
            out@ == p + rust_enum_lines(*lexer, j as int),
        decreases n - j,
    {
        if lexer.commands[j] == Command::Emit {
            out.append("    ");
            out.append(lexer.ttypes[j].as_str());
            out.append(",\n");
        }
        j = j + 1;
        assert(out@ =~= p + rust_enum_lines(*lexer, j as int));
    }
    out.append("}\n\n#[derive(Debug, Clone, Copy)]\npub struct Token {\n    pub ttype: TokenType,\n    pub span: (usize, usize),\n}\n\nimpl<'a> Iterator for Scan<'a> {\n    type Item = Result<Token, ScanError>;\n\n    fn next(&mut self) -> Option<Self::Item> {\n        self.begin()\n    }\n}\n\nenum LastAcceptTType {\n    Tok(TokenType),\n    Error,\n    Skip,\n}\n\nstruct Context {\n    start_index: usize,\n    last_accept_ttype: LastAcceptTType,\n    last_accept_index: usize,\n}\n\nimpl Scan<'_> {\n    fn begin(&mut self) -> Option<<Self as Iterator>::Item> {\n        if self.index >= self.input.len() {\n            return None;\n        }\n\n        let ctx = Context {\n            start_index: self.index,\n            last_accept_ttype: LastAcceptTType::Error,\n            last_accept_index: 0,\n        };\n\n        self.s0(ctx)\n    }\n\n// *** LEXER TABLE START ***\n\n");
    let ghost before = out@;
    let mut i: usize = 0;
    while i < lexer.states.len()
        invariant
            i <= lexer.states@.len(),
            rust_ready(*lexer),
            out@ == before + rust_states(*lexer, i as int),
        decreases lexer.states@.len() - i,
    {
        assert(lexer.states@[i as int].class is Some ==> lexer.states@[i as int].class->0 < lexer.ttypes@.len());
        push_state(&mut out, lexer, &lexer.states[i]);
        i = i + 1;
        assert(out@ =~= before + rust_states(*lexer, i as int));
    }
    out.append("// ***  LEXER TABLE END  ***\n\n    fn sink(&mut self, ctx: &Context) -> Option<<Self as Iterator>::Item> {\n        match ctx.last_accept_ttype {\n            LastAcceptTType::Tok(ttype) => {\n                self.index = ctx.last_accept_index;\n                Some(Ok(Token { ttype, span: (ctx.start_index, ctx.last_accept_index) }))\n            }\n            LastAcceptTType::Error => {\n                let pos = self.index;\n                self.index = usize::MAX; // forces next iteration to return None\n                Some(Err(ScanError { pos }))\n            }\n            LastAcceptTType::Skip => {\n                self.index = ctx.last_accept_index;\n                self.begin()\n            }\n        }\n    }\n}\n");
    assert(out@ =~= rust_lexer_text(*lexer));
    out
}

/// Whether `l` meets the bound of `rust_ready`.
pub fn rust_lexer_ready(l: &Lexer) -> (b: bool)
    ensures
        b == rust_ready(*l),
{
    let mut i: usize = 0;
    while i < l.states.len()
        invariant
            i <= l.states@.len(),
            forall|k: int| 0 <= k < i && (#[trigger] l.states@[k]).class is Some ==> {
                let c = l.states@[k].class->0;
                c < l.ttypes@.len() && c < l.commands@.len()
            },
        decreases l.states@.len() - i,
    {
        match l.states[i].class {
            Some(c) => {
                if c >= l.ttypes.len() || c >= l.commands.len() {
                    return false;
                }
            },
            None => {},
        }
        i = i + 1;
    }
    true
}

} // verus!
