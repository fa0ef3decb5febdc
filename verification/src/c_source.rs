//! C source of a table-driven scanner, from a lexer in intermediate form:
//! one labelled block per state, a `goto` per transition, and a sink that
//! returns the longest token seen, skips it, or reports an error.

use vstd::prelude::*;
use vstd::string::StringExecFns;
use crate::dot::{decimal, hex_byte};
use crate::ir::{Lexer, LexerState, Transition};
use crate::lex::Command;

verus! {

/// `s` with the ASCII letters `a` to `z` in upper case.
pub open spec fn ascii_upper(s: Seq<char>) -> Seq<char> {
    s.map_values(|c: char| if 'a' <= c && c <= 'z' { ((c as u32) - 32) as char } else { c })
}

/// The capital of a lowercase ASCII letter, as a string.
fn capital(c: char) -> (s: &'static str)
    requires
        'a' <= c && c <= 'z',
    ensures
        s@ == seq![((c as u32) - 32) as char],
{
    match c {
        'a' => {
            proof { reveal_strlit("A"); }
            "A"
        },
        'b' => {
            proof { reveal_strlit("B"); }
            "B"
        },
        'c' => {
            proof { reveal_strlit("C"); }
            "C"
        },
        'd' => {
            proof { reveal_strlit("D"); }
            "D"
        },
        'e' => {
            proof { reveal_strlit("E"); }
            "E"
        },
        'f' => {
            proof { reveal_strlit("F"); }
            "F"
        },
        'g' => {
            proof { reveal_strlit("G"); }
            "G"
        },
        'h' => {
            proof { reveal_strlit("H"); }
            "H"
        },
        'i' => {
            proof { reveal_strlit("I"); }
            "I"
        },
        'j' => {
            proof { reveal_strlit("J"); }
            "J"
        },
        'k' => {
            proof { reveal_strlit("K"); }
            "K"
        },
        'l' => {
            proof { reveal_strlit("L"); }
            "L"
        },
        'm' => {
            proof { reveal_strlit("M"); }
            "M"
        },
        'n' => {
            proof { reveal_strlit("N"); }
            "N"
        },
        'o' => {
            proof { reveal_strlit("O"); }
            "O"
        },
        'p' => {
            proof { reveal_strlit("P"); }
            "P"
        },
        'q' => {
            proof { reveal_strlit("Q"); }
            "Q"
        },
        'r' => {
            proof { reveal_strlit("R"); }
            "R"
        },
        's' => {
            proof { reveal_strlit("S"); }
            "S"
        },
        't' => {
            proof { reveal_strlit("T"); }
            "T"
        },
        'u' => {
            proof { reveal_strlit("U"); }
            "U"
        },
        'v' => {
            proof { reveal_strlit("V"); }
            "V"
        },
        'w' => {
            proof { reveal_strlit("W"); }
            "W"
        },
        'x' => {
            proof { reveal_strlit("X"); }
            "X"
        },
        'y' => {
            proof { reveal_strlit("Y"); }
            "Y"
        },
        'z' => {
            proof { reveal_strlit("Z"); }
            "Z"
        },
        _ => {
            proof { reveal_strlit("Z"); }
            "Z"
        },
    }
}

/// A copy of `s` whose ASCII letters `a` to `z` are in upper case.
fn to_ascii_uppercase(s: &String) -> (r: String)
    ensures
        r@ == ascii_upper(s@),
{
    let t = s.as_str();
    let n = t.unicode_len();
    let mut out = String::new();
    let mut i: usize = 0;
    while i < n
        invariant
            i <= n,
            n == t@.len(),
            t@ == s@,
            out@ == ascii_upper(s@.take(i as int)),
        decreases n - i,
    {
        let c = t.get_char(i);
        if 'a' <= c && c <= 'z' {
            out.append(capital(c));
        } else {
            out.append(t.substring_char(i, i + 1));
        }
        proof {
            assert(s@.take(i + 1) =~= s@.take(i as int).push(c));
            assert(t@.subrange(i as int, i + 1) =~= seq![c]);
            assert(ascii_upper(s@.take(i + 1)) =~= ascii_upper(s@.take(i as int)).push(
                if 'a' <= c && c <= 'z' { ((c as u32) - 32) as char } else { c }));
        }
        i = i + 1;
    }
    assert(s@.take(n as int) =~= s@);
    out
}

/// The bounds the writer relies on: token types have commands, and state
/// classes name token types.
pub open spec fn c_ready(l: Lexer) -> bool {
    &&& l.ttypes@.len() <= l.commands@.len()
    &&& forall|i: int| 0 <= i < l.states@.len() && (#[trigger] l.states@[i]).class is Some ==> {
        let c = l.states@[i].class->0;
        c < l.ttypes@.len() && c < l.commands@.len()
    }
}

/// The C name of token type `c`: its label in upper case.
pub open spec fn c_ttype(l: Lexer, c: int) -> Seq<char> {
    ascii_upper(l.ttypes@[c]@)
}

/// The enumerators of the first `j` token types that are emitted.
pub open spec fn c_enum_lines(l: Lexer, j: int) -> Seq<char>
    decreases j,
{
    if j <= 0 {
        Seq::empty()
    } else {
        c_enum_lines(l, j - 1) + if l.commands@[j - 1] == Command::Emit {
            "    "@ + c_ttype(l, j - 1) + ",\n"@
        } else {
            Seq::empty()
        }
    }
}

/// The start of the source: includes, the scanner struct, and the opening
/// of the token type enumeration.
pub open spec fn c_prelude(n: Seq<char>) -> Seq<char> {
    "#include <stddef.h>\n#include <stdint.h>\n\nstruct "@ + n
        + " {\n    const uint8_t *const input;\n    const size_t length;\n    size_t index;\n};\n\nenum "@
        + n + "_TokenType {\n"@
}

/// The end of the enumeration and the token, error and item types.
pub open spec fn c_types(n: Seq<char>) -> Seq<char> {
    "    TT_ERROR = -1,\n    TT_SKIP = -2,\n};\n\nstruct "@ + n + "_Token {\n    enum "@ + n
        + "_TokenType type;\n    size_t span_start;\n    size_t span_end;\n};\n\nstruct "@ + n
        + "_Error {\n    size_t pos;\n};\n\nstruct "@ + n
        + "_Item {\n    enum { OK = 0, ERR = 1, NONE = -1 } tag;\n    union {\n        struct "@ + n
        + "_Token token;\n        struct "@ + n + "_Error error;\n    };\n};\n\n"@
}

/// The item constructors.
pub open spec fn c_constructors(n: Seq<char>) -> Seq<char> {
    "static inline struct "@ + n + "_Item "@ + n + "_Item_newToken(enum "@ + n
        + "_TokenType type, size_t span_start, size_t span_end) {\n    return (struct "@ + n
        + "_Item) { .tag = OK, .token = { type, span_start, span_end } };\n}\n\nstatic inline struct "@ + n
        + "_Item "@ + n + "_Item_newError(size_t pos) {\n    return (struct "@ + n
        + "_Item) { .tag = ERR, .error = pos };\n}\n\nstatic inline struct "@ + n + "_Item "@ + n
        + "_Item_newNone() {\n    return (struct "@ + n + "_Item) { .tag = NONE };\n}\n\n"@
}

/// The scanner's constructor and the start of its `next` function.
pub open spec fn c_next_start(n: Seq<char>) -> Seq<char> {
    "struct "@ + n + " "@ + n + "_new(const uint8_t *input, size_t length) {\n    return (struct "@ + n
        + ") { .input = input, .length = length, .index = 0 };\n}\n\nstruct "@ + n + "_Item "@ + n
        + "_next(struct "@ + n + " *const this) {\n    if (this->index >= this->length) {\n        return "@
        + n + "_Item_newNone();\n    }\n\n    size_t start_index = this->index;\n    enum "@ + n
        + "_TokenType last_accept_ttype = TT_ERROR;\n    size_t last_accept_index;\n\n    // *** LEXER TABLE START ***\n"@
}

/// The sink and the end of `next`.
pub open spec fn c_sink(n: Seq<char>) -> Seq<char> {
    "    // ***  LEXER TABLE END  ***\n\n    sink:\n        if (last_accept_ttype == TT_ERROR) {\n            size_t pos = this->index;\n            this->index = -1; // forces next iteration to return None\n            return "@
        + n + "_Item_newError(pos);\n        } else if (last_accept_ttype == TT_SKIP) {\n            this->index = last_accept_index;\n            return "@
        + n + "_next(this);\n        } else {\n            this->index = last_accept_index;\n            return "@
        + n + "_Item_newToken(last_accept_ttype, start_index, last_accept_index);\n        }\n}\n"@
}

/// The test of one interval of bytes: a comparison for one byte, two
/// for two bytes (on two lines), a range test for more.
pub open spec fn c_interval(iv: (u8, u8)) -> Seq<char> {
    if iv.0 + 1 < iv.1 {
        "(0x"@ + hex_byte(iv.0) + " <= ch && ch <= 0x"@ + hex_byte(iv.1) + ")"@
    } else if iv.0 + 1 == iv.1 {
        "ch == 0x"@ + hex_byte(iv.0) + " ||\n            ch == 0x"@ + hex_byte(iv.1)
    } else {
        "ch == 0x"@ + hex_byte(iv.0)
    }
}

/// The tests of the first `j` intervals of `ivs`, joined by `||`, one per line.
pub open spec fn c_intervals(ivs: Seq<(u8, u8)>, j: int) -> Seq<char>
    decreases j,
{
    if j <= 0 {
        Seq::empty()
    } else {
        c_intervals(ivs, j - 1) + (if j > 1 { "            "@ } else { Seq::empty() }) + c_interval(ivs[j - 1])
            + if j < ivs.len() { " ||\n"@ } else { Seq::empty() }
    }
}

/// The statement that takes transition `t`.
pub open spec fn c_transition(t: Transition) -> Seq<char> {
    "        if ("@ + c_intervals(t.intervals@, t.intervals@.len() as int) + ") { ++this->index; goto s"@
        + decimal(t.dst as nat) + "; }\n"@
}

/// The statements of the first `j` transitions of `ts`.
pub open spec fn c_transitions(ts: Seq<Transition>, j: int) -> Seq<char>
    decreases j,
{
    if j <= 0 {
        Seq::empty()
    } else {
        c_transitions(ts, j - 1) + c_transition(ts[j - 1])
    }
}

/// What a state does when no transition is taken: return its token, scan on
/// past a skipped one, or go to the sink.
pub open spec fn c_state_end(n: Seq<char>, l: Lexer, s: LexerState) -> Seq<char> {
    match s.class {
        Some(c) => if l.commands@[c as int] == Command::Skip {
            "        return "@ + n + "_next(this);\n"@
        } else {
            "        return "@ + n + "_Item_newToken("@ + c_ttype(l, c as int) + ", start_index, this->index);\n"@
        },
        None => "        goto sink;\n"@,
    }
}

/// The record of an accepting state from which a state of no class can be
/// reached: the token type to fall back on and where it ends.
pub open spec fn c_accept(l: Lexer, s: LexerState) -> Seq<char> {
    match s.class {
        Some(c) => if s.can_transition_to_unlabelled_state {
            "        last_accept_ttype = "@ + (if l.commands@[c as int] == Command::Skip { "TT_SKIP"@ } else { c_ttype(l, c as int) })
                + ";\n        last_accept_index = this->index;\n"@
        } else {
            Seq::empty()
        },
        None => Seq::empty(),
    }
}

/// The block of state `i`.
pub open spec fn c_state(n: Seq<char>, l: Lexer, i: nat, s: LexerState) -> Seq<char> {
    "    s"@ + decimal(i) + ": {\n"@ + (if s.transitions@.len() == 0 {
        c_state_end(n, l, s)
    } else {
        "        if (this->index >= this->length) goto sink;\n        uint8_t ch = this->input[this->index];\n"@
            + c_accept(l, s) + c_transitions(s.transitions@, s.transitions@.len() as int) + c_state_end(n, l, s)
    }) + "    }\n"@
}

/// The blocks of the first `j` states.
pub open spec fn c_states(n: Seq<char>, l: Lexer, j: int) -> Seq<char>
    decreases j,
{
    if j <= 0 {
        Seq::empty()
    } else {
        c_states(n, l, j - 1) + c_state(n, l, (j - 1) as nat, l.states@[j - 1])
    }
}

/// The C source of a scanner named `n` for `l`.
pub open spec fn c_lexer_text(n: Seq<char>, l: Lexer) -> Seq<char> {
    c_prelude(n) + c_enum_lines(l, l.ttypes@.len() as int) + c_types(n) + c_constructors(n) + c_next_start(n)
        + c_states(n, l, l.states@.len() as int) + c_sink(n)
}

fn push_prelude(out: &mut String, n: &str)
    ensures
        final(out)@ == old(out)@ + c_prelude(n@),
{
    let ghost start = out@;
    out.append("#include <stddef.h>\n#include <stdint.h>\n\nstruct ");
    out.append(n);
    out.append(" {\n    const uint8_t *const input;\n    const size_t length;\n    size_t index;\n};\n\nenum ");
    out.append(n);
    out.append("_TokenType {\n");
    assert(out@ =~= start + c_prelude(n@));
}

fn push_types(out: &mut String, n: &str)
    ensures
        final(out)@ == old(out)@ + c_types(n@),
{
    let ghost start = out@;
    out.append("    TT_ERROR = -1,\n    TT_SKIP = -2,\n};\n\nstruct ");
    out.append(n);
    out.append("_Token {\n    enum ");
    out.append(n);
    out.append("_TokenType type;\n    size_t span_start;\n    size_t span_end;\n};\n\nstruct ");
    out.append(n);
    out.append("_Error {\n    size_t pos;\n};\n\nstruct ");
    out.append(n);
    out.append("_Item {\n    enum { OK = 0, ERR = 1, NONE = -1 } tag;\n    union {\n        struct ");
    out.append(n);
    out.append("_Token token;\n        struct ");
    out.append(n);
    out.append("_Error error;\n    };\n};\n\n");
    assert(out@ =~= start + c_types(n@));
}

fn push_constructors(out: &mut String, n: &str)
    ensures
        final(out)@ == old(out)@ + c_constructors(n@),
{
    let ghost start = out@;
    out.append("static inline struct ");
    out.append(n);
    out.append("_Item ");
    out.append(n);
    out.append("_Item_newToken(enum ");
    out.append(n);
    out.append("_TokenType type, size_t span_start, size_t span_end) {\n    return (struct ");
    out.append(n);
    out.append("_Item) { .tag = OK, .token = { type, span_start, span_end } };\n}\n\nstatic inline struct ");
    out.append(n);
    out.append("_Item ");
    out.append(n);
    out.append("_Item_newError(size_t pos) {\n    return (struct ");
    out.append(n);
    out.append("_Item) { .tag = ERR, .error = pos };\n}\n\nstatic inline struct ");
    out.append(n);
    out.append("_Item ");
    out.append(n);
    out.append("_Item_newNone() {\n    return (struct ");
    out.append(n);
    out.append("_Item) { .tag = NONE };\n}\n\n");
    assert(out@ =~= start + c_constructors(n@));
}

fn push_next_start(out: &mut String, n: &str)
    ensures
        final(out)@ == old(out)@ + c_next_start(n@),
{
    let ghost start = out@;
    out.append("struct ");
    out.append(n);
    out.append(" ");
    out.append(n);
    out.append("_new(const uint8_t *input, size_t length) {\n    return (struct ");
    out.append(n);
    out.append(") { .input = input, .length = length, .index = 0 };\n}\n\nstruct ");
    out.append(n);
    out.append("_Item ");
    out.append(n);
    out.append("_next(struct ");
    out.append(n);
    out.append(" *const this) {\n    if (this->index >= this->length) {\n        return ");
    out.append(n);
    out.append("_Item_newNone();\n    }\n\n    size_t start_index = this->index;\n    enum ");
    out.append(n);
    out.append("_TokenType last_accept_ttype = TT_ERROR;\n    size_t last_accept_index;\n\n    // *** LEXER TABLE START ***\n");
    assert(out@ =~= start + c_next_start(n@));
}

fn push_sink(out: &mut String, n: &str)
    ensures
        final(out)@ == old(out)@ + c_sink(n@),
{
    let ghost start = out@;
    out.append("    // ***  LEXER TABLE END  ***\n\n    sink:\n        if (last_accept_ttype == TT_ERROR) {\n            size_t pos = this->index;\n            this->index = -1; // forces next iteration to return None\n            return ");
    out.append(n);
    out.append("_Item_newError(pos);\n        } else if (last_accept_ttype == TT_SKIP) {\n            this->index = last_accept_index;\n            return ");
    out.append(n);
    out.append("_next(this);\n        } else {\n            this->index = last_accept_index;\n            return ");
    out.append(n);
    out.append("_Item_newToken(last_accept_ttype, start_index, last_accept_index);\n        }\n}\n");
    assert(out@ =~= start + c_sink(n@));
}

fn push_enum_lines(out: &mut String, l: &Lexer)
    requires
        c_ready(*l),
    ensures
        final(out)@ == old(out)@ + c_enum_lines(*l, l.ttypes@.len() as int),
{
    let ghost start = out@;
    let mut j: usize = 0;
    while j < l.ttypes.len()
        invariant
            j <= l.ttypes@.len(),
            c_ready(*l),
            out@ == start + c_enum_lines(*l, j as int),
        decreases l.ttypes@.len() - j,
    {
        if l.commands[j] == Command::Emit {
            let u = to_ascii_uppercase(&l.ttypes[j]);
            out.append("    ");
            out.append(u.as_str());
            out.append(",\n");
        }
        j = j + 1;
        assert(out@ =~= start + c_enum_lines(*l, j as int));
    }
}

fn push_interval(out: &mut String, iv: (u8, u8))
    ensures
        final(out)@ == old(out)@ + c_interval(iv),
{
    let ghost start = out@;
    if (iv.0 as u16) + 1 < (iv.1 as u16) {
        out.append("(0x");
        crate::dot::push_hex_byte(out, iv.0);
        out.append(" <= ch && ch <= 0x");
        crate::dot::push_hex_byte(out, iv.1);
        out.append(")");
    } else if (iv.0 as u16) + 1 == (iv.1 as u16) {
        out.append("ch == 0x");
        crate::dot::push_hex_byte(out, iv.0);
        out.append(" ||\n            ch == 0x");
        crate::dot::push_hex_byte(out, iv.1);
    } else {
        out.append("ch == 0x");
        crate::dot::push_hex_byte(out, iv.0);
    }
    assert(out@ =~= start + c_interval(iv));
}

fn push_transition(out: &mut String, t: &Transition)
    ensures
        final(out)@ == old(out)@ + c_transition(*t),
{
    let ghost start = out@;
    out.append("        if (");
    let ghost open = out@;
    let ivs = &t.intervals;
    let mut j: usize = 0;
    while j < ivs.len()
        invariant
            j <= ivs@.len(),
            out@ == open + c_intervals(ivs@, j as int),
        decreases ivs@.len() - j,
    {
        if j > 0 {
            out.append("            ");
        }
        push_interval(out, ivs[j]);
        if j + 1 < ivs.len() {
            out.append(" ||\n");
        }
        j = j + 1;
        assert(out@ =~= open + c_intervals(ivs@, j as int));
    }
    out.append(") { ++this->index; goto s");
    crate::dot::push_decimal(out, t.dst);
    out.append("; }\n");
    assert(out@ =~= start + c_transition(*t));
}

fn push_state_end(out: &mut String, n: &str, l: &Lexer, s: &LexerState)
    requires
        s.class is Some ==> s.class->0 < l.ttypes@.len() && s.class->0 < l.commands@.len(),
    ensures
        final(out)@ == old(out)@ + c_state_end(n@, *l, *s),
{
    let ghost start = out@;
    match s.class {
        Some(c) => {
            if l.commands[c] == Command::Skip {
                out.append("        return ");
                out.append(n);
                out.append("_next(this);\n");
            } else {
                let u = to_ascii_uppercase(&l.ttypes[c]);
                out.append("        return ");
                out.append(n);
                out.append("_Item_newToken(");
                out.append(u.as_str());
                out.append(", start_index, this->index);\n");
            }
        },
        None => {
            out.append("        goto sink;\n");
        },
    }
    assert(out@ =~= start + c_state_end(n@, *l, *s));
}

fn push_accept(out: &mut String, l: &Lexer, s: &LexerState)
    requires
        s.class is Some ==> s.class->0 < l.ttypes@.len() && s.class->0 < l.commands@.len(),
    ensures
        final(out)@ == old(out)@ + c_accept(*l, *s),
{
    let ghost start = out@;
    match s.class {
        Some(c) => {
            if s.can_transition_to_unlabelled_state {
                out.append("        last_accept_ttype = ");
                if l.commands[c] == Command::Skip {
                    out.append("TT_SKIP");
                } else {
                    let u = to_ascii_uppercase(&l.ttypes[c]);
                    out.append(u.as_str());
                }
                out.append(";\n        last_accept_index = this->index;\n");
            }
        },
        None => {},
    }
    assert(out@ =~= start + c_accept(*l, *s));
}

fn push_state(out: &mut String, n: &str, l: &Lexer, i: usize, s: &LexerState)
    requires
        s.class is Some ==> s.class->0 < l.ttypes@.len() && s.class->0 < l.commands@.len(),
    ensures
        final(out)@ == old(out)@ + c_state(n@, *l, i as nat, *s),
{
    let ghost start = out@;
    out.append("    s");
    crate::dot::push_decimal(out, i);
    out.append(": {\n");
    let ghost head = out@;
    if s.transitions.len() == 0 {
        push_state_end(out, n, l, s);
    } else {
        out.append("        if (this->index >= this->length) goto sink;\n        uint8_t ch = this->input[this->index];\n");
        push_accept(out, l, s);
        let ghost before = out@;
        let mut j: usize = 0;
        while j < s.transitions.len()
            invariant
                j <= s.transitions@.len(),
                out@ == before + c_transitions(s.transitions@, j as int),
            decreases s.transitions@.len() - j,
        {
            push_transition(out, &s.transitions[j]);
            j = j + 1;
            assert(out@ =~= before + c_transitions(s.transitions@, j as int));
        }
        push_state_end(out, n, l, s);
    }
    out.append("    }\n");
    assert(out@ =~= start + c_state(n@, *l, i as nat, *s));
}

/// The C source of a scanner named `name` for `lexer`: its types, its item
/// constructors, and a `next` function with one block per state.
pub fn c_lexer_source(name: &str, lexer: &Lexer) -> (r: String)
    requires
        c_ready(*lexer),
    ensures
        r@ == c_lexer_text(name@, *lexer),
{
    let mut out = String::new();
    push_prelude(&mut out, name);
    push_enum_lines(&mut out, lexer);
    push_types(&mut out, name);
    push_constructors(&mut out, name);
    push_next_start(&mut out, name);
    let ghost before = out@;
    let mut i: usize = 0;
    while i < lexer.states.len()
        invariant
            i <= lexer.states@.len(),
            c_ready(*lexer),
            out@ == before + c_states(name@, *lexer, i as int),
        decreases lexer.states@.len() - i,
    {
        assert(lexer.states@[i as int].class is Some ==> lexer.states@[i as int].class->0 < lexer.ttypes@.len());
        push_state(&mut out, name, lexer, i, &lexer.states[i]);
        i = i + 1;
        assert(out@ =~= before + c_states(name@, *lexer, i as int));
    }
    push_sink(&mut out, name);
    assert(out@ =~= c_lexer_text(name@, *lexer));
    out
}

/// Whether `l` meets the bounds of `c_ready`.
pub fn c_lexer_ready(l: &Lexer) -> (b: bool)
    ensures
        b == c_ready(*l),
{
    if l.ttypes.len() > l.commands.len() {
        return false;
    }
    let mut i: usize = 0;
    while i < l.states.len()
        invariant
            i <= l.states@.len(),
            l.ttypes@.len() <= l.commands@.len(),
            forall|k: int| 0 <= k < i && (#[trigger] l.states@[k]).class is Some ==> {
                let c = l.states@[k].class->0;
                c < l.ttypes@.len() && c < l.commands@.len()
            },
        decreases l.states@.len() - i,
    {
        match l.states[i].class {
            Some(c) => {
                if c >= l.ttypes.len() || c >= l.commands.len() {
                    return false;
                }
            },
            None => {},
        }
        i = i + 1;
    }
    true
}

} // verus!
