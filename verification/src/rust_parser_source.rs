//! Rust source of a recursive-ascent parser, from a parser in intermediate
//! form: one function per state, which matches the next token and shifts,
//! reduces or accepts, and one stub per production for its semantic action.

use vstd::prelude::*;
use vstd::string::StringExecFns;
use crate::cfg::Symbol;
use crate::dot::decimal;
use crate::ir::{Parser, ParserState, TTransition};
use crate::rust_source::{rust_lexer_text, rust_ready};
use crate::syn::Action;

verus! {

/// The name of variable `v`.
pub open spec fn var_name(p: Parser, v: int) -> Seq<char> {
    p.varnames@[v]@
}

/// The name of token type `t`.
pub open spec fn word_name(p: Parser, t: int) -> Seq<char> {
    p.lexer.ttypes@[t]@
}

/// Symbols name known token types and variables.
pub open spec fn symbols_named(p: Parser, syms: Seq<Symbol>) -> bool {
    forall|k: int| 0 <= k < syms.len() ==> match #[trigger] syms[k] {
        Symbol::Terminal(a) => a < p.lexer.ttypes@.len(),
        Symbol::Variable(v) => v < p.varnames@.len(),
    }
}

/// The argument list that a transition from `src` to `dst` passes on:
/// `dst` takes one symbol more than the last ones `src` holds.
pub open spec fn arglist_ok(src: ParserState, dst: ParserState) -> bool {
    1 <= dst.input_symbols@.len() <= src.input_symbols@.len() + 1
}

/// The bounds the writer relies on for one state.
pub open spec fn state_ready(p: Parser, s: ParserState) -> bool {
    &&& symbols_named(p, s.input_symbols@)
    &&& forall|k: int| 0 <= k < s.ttrans@.len() ==> {
        let t = #[trigger] s.ttrans@[k];
        &&& (t.word matches Some(w) ==> w < p.lexer.ttypes@.len())
        &&& t.action != Action::Invalid
        &&& (t.action matches Action::Shift(d) ==> d < p.states@.len() && arglist_ok(s, p.states@[d as int]))
        &&& (t.action matches Action::Reduce(a) ==> {
            &&& a < p.grammar.spec_alt_count()
            &&& p.grammar.spec_alt_rule()[a as int] < p.varnames@.len()
            &&& 1 <= p.grammar.spec_rhs(a as int).len() <= s.input_symbols@.len()
        })
    }
    &&& forall|k: int| 0 <= k < s.nttrans@.len() ==> {
        let n = #[trigger] s.nttrans@[k];
        &&& n.var < p.varnames@.len()
        &&& n.dst < p.states@.len()
        &&& arglist_ok(s, p.states@[n.dst as int])
    }
}

/// The bounds the writer relies on: a valid grammar whose alternatives,
/// the start one aside, name known symbols and variables; a start
/// variable; a ready lexer; and ready states.
pub open spec fn rust_parser_ready(p: Parser) -> bool {
    &&& p.grammar.wf()
    &&& p.varnames@.len() >= 1
    &&& rust_ready(p.lexer)
    &&& forall|a: int| 0 <= a < p.grammar.spec_alt_count() && #[trigger] p.grammar.spec_alt_rule()[a] < p.grammar.spec_rule_count() - 1 ==> {
        &&& p.grammar.spec_alt_rule()[a] < p.varnames@.len()
        &&& symbols_named(p, p.grammar.spec_rhs(a))
    }
    &&& forall|i: int| 0 <= i < p.states@.len() ==> state_ready(p, #[trigger] p.states@[i])
}

/// The attributes at the head of the source.
pub open spec fn rp_allows() -> Seq<char> {
    "#![allow(non_camel_case_types)]\n#![allow(unused_comparisons)]\n#![allow(dead_code)]\n#![allow(non_snake_case)]\n#![allow(unused_mut)]\n#![allow(clippy::match_same_arms)]\n#![allow(clippy::needless_return)]\n#![allow(clippy::unnecessary_wraps)]\n#![allow(clippy::unit_arg)]\n\n"@
}

/// The product type aliases of the first `j` variables.
pub open spec fn rp_products(p: Parser, j: int) -> Seq<char>
    decreases j,
{
    if j <= 0 { Seq::empty() } else { rp_products(p, j - 1) + "type "@ + var_name(p, j - 1) + "Product = ();\n"@ }
}

/// The name of symbol `s` in a production comment.
pub open spec fn symbol_name(p: Parser, s: Symbol) -> Seq<char> {
    match s {
        Symbol::Terminal(a) => word_name(p, a as int),
        Symbol::Variable(v) => var_name(p, v as int),
    }
}

/// The names of the first `j` symbols of `rhs`, each after a space.
pub open spec fn rp_comment_symbols(p: Parser, rhs: Seq<Symbol>, j: int) -> Seq<char>
    decreases j,
{
    if j <= 0 { Seq::empty() } else { rp_comment_symbols(p, rhs, j - 1) + " "@ + symbol_name(p, rhs[j - 1]) }
}

/// The parameter type of a production stub for symbol `s`.
pub open spec fn param_type(p: Parser, s: Symbol) -> Seq<char> {
    match s {
        Symbol::Terminal(_) => "_: &[u8]"@,
        Symbol::Variable(v) => "_: "@ + var_name(p, v as int) + "Product"@,
    }
}

/// The parameters of the first `j` symbols of `rhs`, joined by commas.
pub open spec fn rp_params(p: Parser, rhs: Seq<Symbol>, j: int) -> Seq<char>
    decreases j,
{
    if j <= 0 {
        Seq::empty()
    } else {
        rp_params(p, rhs, j - 1) + param_type(p, rhs[j - 1]) + if j < rhs.len() { ", "@ } else { Seq::empty() }
    }
}

/// The comment and stub of alternative `a`.
pub open spec fn rp_production(p: Parser, a: int) -> Seq<char> {
    let lhs = p.grammar.spec_alt_rule()[a] as int;
    let rhs = p.grammar.spec_rhs(a);
    "// "@ + var_name(p, lhs) + " ->"@ + rp_comment_symbols(p, rhs, rhs.len() as int) + "\nfn p"@ + decimal(a as nat) + "("@
        + rp_params(p, rhs, rhs.len() as int) + ") -> "@ + var_name(p, lhs) + "Product {\n    panic!(\"no semantic action for production "@
        + decimal(a as nat) + "\")\n}\n\n"@
}

/// The stubs of the first `j` alternatives but the start one.
pub open spec fn rp_productions(p: Parser, j: int) -> Seq<char>
    decreases j,
{
    if j <= 0 {
        Seq::empty()
    } else {
        rp_productions(p, j - 1) + if p.grammar.spec_alt_rule()[j - 1] < p.grammar.spec_rule_count() - 1 {
            rp_production(p, j - 1)
        } else {
            Seq::empty()
        }
    }
}

/// The entry point and the opening of the variable enumeration.
pub open spec fn rp_parse_fn(p: Parser) -> Seq<char> {
    "\npub fn parse<I: AsRef<[u8]> + ?Sized>(input: &I) -> Result<"@ + var_name(p, 0)
        + "Product, ParseError> {\n    let res = Parse { input: scan(input), next_token: None }.begin();\n    match res? {\n        Variable::"@
        + var_name(p, 0) + "(product) => Ok(product),\n        _ => unreachable!(),\n    }\n}\n\n#[derive(Debug, Clone, Copy)]\npub enum Variable {\n"@
}

/// The variants of the first `j` variables.
pub open spec fn rp_variants(p: Parser, j: int) -> Seq<char>
    decreases j,
{
    if j <= 0 {
        Seq::empty()
    } else {
        rp_variants(p, j - 1) + "    "@ + var_name(p, j - 1) + "("@ + var_name(p, j - 1) + "Product),\n"@
    }
}

/// The parser type, its errors and the start of its methods.
pub open spec fn rp_impl_start() -> Seq<char> {
    "}\n\npub struct Parse<'a> {\n    input: Scan<'a>,\n    next_token: Option<Token>,\n}\n\n#[derive(Debug)]\npub enum ParseError {\n    InputError(ScanError),\n    InvalidAction { state: usize, ttype: Option<TokenType> },\n    InvalidGoto { state: usize },\n}\n\nimpl Parse<'_> {\n    fn begin(mut self) -> Result<Variable, ParseError> {\n        self.update()?;\n        Ok(self.s0()?.0)\n    }\n\n    fn update(&mut self) -> Result<(), ParseError> {\n        self.next_token = self.input.next().transpose().map_err(|err| { ParseError::InputError(err) })?;\n        Ok(())\n    }\n\n"@
}

/// The end of the methods and the helper that counts down a return.
pub open spec fn rp_impl_end() -> Seq<char> {
    "\n    fn lexeme(&self, token: &Token) -> &[u8] {\n        &self.input.input[token.span.0..token.span.1]\n    }\n}\n\nfn decrement((var, goto): (Variable, usize)) -> Result<(Variable, usize), ParseError> {\n    assert!(goto > 0);\n    Ok((var, goto - 1))\n}\n"@
}

/// The type of the value a state holds for symbol `s`.
pub open spec fn value_type(p: Parser, s: Symbol) -> Seq<char> {
    match s {
        Symbol::Terminal(_) => "Token"@,
        Symbol::Variable(v) => var_name(p, v as int) + "Product"@,
    }
}

/// The types of the first `j` symbols of `syms`, joined by commas.
pub open spec fn value_types(p: Parser, syms: Seq<Symbol>, j: int) -> Seq<char>
    decreases j,
{
    if j <= 0 {
        Seq::empty()
    } else {
        value_types(p, syms, j - 1) + (if j > 1 { ", "@ } else { Seq::empty() }) + value_type(p, syms[j - 1])
    }
}

/// The name of a state's parameter: `args` for a tuple, `arg` for one value.
pub open spec fn arg_name(s: ParserState) -> Seq<char> {
    if s.input_symbols@.len() > 1 { "args"@ } else { "arg"@ }
}

/// The type of a state's parameter.
pub open spec fn arg_type(p: Parser, s: ParserState) -> Seq<char> {
    if s.input_symbols@.len() > 1 {
        "("@ + value_types(p, s.input_symbols@, s.input_symbols@.len() as int) + ")"@
    } else {
        value_type(p, s.input_symbols@[0])
    }
}

/// The parameter declaration of a state after `&mut self` or a tuple, if it
/// holds any value.
pub open spec fn arg_decl(p: Parser, s: ParserState) -> Seq<char> {
    if s.input_symbols@.len() == 0 { Seq::empty() } else { ", "@ + arg_name(s) + ": "@ + arg_type(p, s) }
}

/// The values `src` holds from position `from` to `to`, each followed by a comma.
pub open spec fn held_values(src: ParserState, from: int, to: int) -> Seq<char>
    decreases to - from,
{
    if to <= from {
        Seq::empty()
    } else {
        held_values(src, from, to - 1) + if src.input_symbols@.len() == 1 {
            "arg, "@
        } else {
            "args."@ + decimal((to - 1) as nat) + ", "@
        }
    }
}

/// The argument passed from `src` to `dst` with the new value `v`.
pub open spec fn arglist(src: ParserState, dst: ParserState, v: Seq<char>) -> Seq<char> {
    let n = src.input_symbols@.len() as int;
    let m = dst.input_symbols@.len() as int;
    (if m > 1 { "("@ } else { Seq::empty() }) + held_values(src, n - (m - 1), n) + v
        + if m > 1 { ")"@ } else { Seq::empty() }
}

/// The arms of the goto match for the first `j` transitions on variables.
pub open spec fn goto_arms(p: Parser, s: ParserState, j: int) -> Seq<char>
    decreases j,
{
    if j <= 0 {
        Seq::empty()
    } else {
        let n = s.nttrans@[j - 1];
        goto_arms(p, s, j - 1) + "                    Variable::"@ + var_name(p, n.var as int) + "(v) => parse.s"@
            + decimal(n.dst as nat) + "("@ + arglist(s, p.states@[n.dst as int], "v"@) + "),\n"@
    }
}

/// The call of `on_return` by a state with the parser `who`.
pub open spec fn on_return_call(s: ParserState, who: Seq<char>) -> Seq<char> {
    "on_return("@ + who + ", tuple"@ + (if s.input_symbols@.len() == 0 { Seq::empty() } else { ", "@ + arg_name(s) }) + ")\n"@
}

/// The local function that handles what a callee returns: at zero, the
/// goto of its variable, otherwise one level less.
pub open spec fn on_return_fn(p: Parser, s: ParserState) -> Seq<char> {
    "        fn on_return(parse: &mut Parse, (var, goto): (Variable, usize)"@ + arg_decl(p, s)
        + ") -> Result<(Variable, usize), ParseError> {\n            if goto == 0 {\n                let tuple = match var {\n"@
        + goto_arms(p, s, s.nttrans@.len() as int)
        + (if s.nttrans@.len() < p.varnames@.len() {
            "                    _ => return Err(ParseError::InvalidGoto { state: "@ + decimal(s.id as nat) + " }),\n"@
        } else {
            Seq::empty()
        }) + "                }?;\n                "@ + on_return_call(s, "parse"@)
        + "            } else {\n                Ok((var, goto - 1))\n            }\n        }\n"@
}

/// The pattern of a token arm: a token of type `w`, bound to `t` when
/// `bind`, or the end of input.
pub open spec fn token_pattern(p: Parser, word: Option<usize>, bind: bool) -> Seq<char> {
    match word {
        Some(w) => (if bind { "Some(t @ Token { ttype: TokenType::"@ } else { "Some(Token { ttype: TokenType::"@ })
            + word_name(p, w as int) + ", .. }) => "@,
        None => "None => "@,
    }
}

/// The values a reduction by an alternative of `len` symbols passes on,
/// from position `from` to `to` of the `n` that `s` holds.
pub open spec fn reduce_args(s: ParserState, from: int, to: int) -> Seq<char>
    decreases to - from,
{
    if to <= from {
        Seq::empty()
    } else {
        let n = s.input_symbols@.len() as int;
        let i = to - 1;
        let name = if n == 1 { "arg"@ } else { "args."@ + decimal(i as nat) };
        reduce_args(s, from, to - 1) + (match s.input_symbols@[i] {
            Symbol::Terminal(_) => "self.lexeme(&"@ + name + ")"@,
            Symbol::Variable(_) => name,
        }) + if i < n - 1 { ", "@ } else { Seq::empty() }
    }
}

/// How the value that a state holds for its input symbol `i` is named: `arg`
/// where it holds one value, the field `args.i` of its tuple otherwise.
pub open spec fn held_name(s: ParserState, i: int) -> Seq<char> {
    if s.input_symbols@.len() == 1 { "arg"@ } else { "args."@ + decimal(i as nat) }
}

/// The argument passed for input symbol `i`: the text of a token, the value
/// of a variable; followed by a comma unless it is the last symbol held.
pub open spec fn passed_value(s: ParserState, i: int) -> Seq<char> {
    (match s.input_symbols@[i] {
        Symbol::Terminal(_) => "self.lexeme(&"@ + held_name(s, i) + ")"@,
        Symbol::Variable(_) => held_name(s, i),
    }) + if i < s.input_symbols@.len() - 1 { ", "@ } else { Seq::empty() }
}

/// Law: the arguments of a reduction are passed in the order of the
/// symbols they stand for: those from `from` to `to` are those from `from`
/// to `mid` followed by those from `mid` to `to`, and the one for position
/// `i` is the value held for input symbol `i`, so that the `k`-th argument
/// of the semantic action is the value of the `k`-th symbol reduced.
pub proof fn lemma_reduce_args_in_order(s: ParserState, from: int, mid: int, to: int)
    requires
        from <= mid <= to,
    ensures
        reduce_args(s, from, to) == reduce_args(s, from, mid) + reduce_args(s, mid, to),
        from < to ==> reduce_args(s, from, from + 1) == passed_value(s, from),
    decreases to - mid,
{
    if from < to {
        assert(reduce_args(s, from, from) =~= Seq::<char>::empty());
        assert(reduce_args(s, from, from + 1) =~= passed_value(s, from));
    }
    if mid < to {
        lemma_reduce_args_in_order(s, from, mid, to - 1);
        lemma_reduce_args_in_order(s, mid, mid, to - 1);
        assert(reduce_args(s, mid, mid) =~= Seq::<char>::empty());
        assert(reduce_args(s, from, to) =~= reduce_args(s, from, mid) + reduce_args(s, mid, to));
    } else {
        assert(reduce_args(s, mid, to) =~= Seq::<char>::empty());
        assert(reduce_args(s, from, to) =~= reduce_args(s, from, mid) + reduce_args(s, mid, to));
    }
}

/// The arm of one transition on a token.
pub open spec fn token_arm(p: Parser, s: ParserState, t: TTransition) -> Seq<char> {
    match t.action {
        Action::Accept => "            "@ + token_pattern(p, t.word, false) + "return Ok((Variable::"@ + var_name(p, 0)
            + "(arg), 1)),\n"@,
        Action::Shift(d) => "            "@ + token_pattern(p, t.word, true) + "{ self.update()?; self.s"@ + decimal(d as nat)
            + "("@ + arglist(s, p.states@[d as int], "t"@) + ") }\n"@,
        Action::Reduce(a) => {
            let n = s.input_symbols@.len() as int;
            let len = p.grammar.spec_rhs(a as int).len() as int;
            "            "@ + token_pattern(p, t.word, false) + "return Ok((Variable::"@
                + var_name(p, p.grammar.spec_alt_rule()[a as int] as int) + "(p"@ + decimal(a as nat) + "("@
                + reduce_args(s, n - len, n) + ")), "@ + decimal((len - 1) as nat) + ")),\n"@
        },
        Action::Invalid => Seq::empty(),
    }
}

/// The arms of the first `j` transitions on tokens.
pub open spec fn token_arms(p: Parser, s: ParserState, j: int) -> Seq<char>
    decreases j,
{
    if j <= 0 { Seq::empty() } else { token_arms(p, s, j - 1) + token_arm(p, s, s.ttrans@[j - 1]) }
}

/// What precedes the match on the next token: where the state shifts, the
/// handler of returns and the binding of what the match yields.
pub open spec fn body_head(p: Parser, s: ParserState) -> Seq<char> {
    if s.has_shift_transitions {
        (if s.nttrans@.len() > 0 { on_return_fn(p, s) } else { Seq::empty() }) + "        let tuple = "@
    } else {
        "        "@
    }
}

/// What follows the arms: the arm of invalid tokens where some have no
/// action, and where the state shifts, the handling of the return.
pub open spec fn body_tail(p: Parser, s: ParserState) -> Seq<char> {
    (if s.ttrans@.len() < p.lexer.ttype_count {
        "            t => return Err(ParseError::InvalidAction { state: "@ + decimal(s.id as nat)
            + ", ttype: t.map(|t| t.ttype) }),\n"@
    } else {
        Seq::empty()
    }) + "        }"@ + if s.has_shift_transitions {
        "?;\n        "@ + if s.nttrans@.len() == 0 { "decrement(tuple)\n"@ } else { on_return_call(s, "self"@) }
    } else {
        "\n"@
    }
}

/// The body of state `s`: the match on the next token, and, where it
/// shifts, what follows the return of the callee.
pub open spec fn state_body(p: Parser, s: ParserState) -> Seq<char> {
    if s.ttrans@.len() == 0 {
        Seq::empty()
    } else {
        body_head(p, s) + "match self.next_token {\n"@ + token_arms(p, s, s.ttrans@.len() as int) + body_tail(p, s)
    }
}

/// The function of state `s`.
pub open spec fn state_fn(p: Parser, s: ParserState) -> Seq<char> {
    "    fn s"@ + decimal(s.id as nat) + "(&mut self"@ + arg_decl(p, s) + ") -> Result<(Variable, usize), ParseError> {\n"@
        + state_body(p, s) + "    }\n"@ + if s.id + 1 < p.states@.len() { "\n"@ } else { Seq::empty() }
}

/// The functions of the first `j` states.
pub open spec fn state_fns(p: Parser, j: int) -> Seq<char>
    decreases j,
{
    if j <= 0 { Seq::empty() } else { state_fns(p, j - 1) + state_fn(p, p.states@[j - 1]) }
}

/// The Rust source of a parser for `p`, its scanner included.
pub open spec fn rust_parser_text(p: Parser) -> Seq<char> {
    rp_allows() + rp_products(p, p.varnames@.len() as int) + "\n"@
        + rp_productions(p, p.grammar.spec_alt_count() as int) + rust_lexer_text(p.lexer) + rp_parse_fn(p)
        + rp_variants(p, p.varnames@.len() as int) + rp_impl_start() + state_fns(p, p.states@.len() as int)
        + rp_impl_end()
}

fn push_symbol_name(out: &mut String, p: &Parser, sym: Symbol)
    requires
        match sym {
            Symbol::Terminal(a) => a < p.lexer.ttypes@.len(),
            Symbol::Variable(v) => v < p.varnames@.len(),
        },
    ensures
        final(out)@ == old(out)@ + symbol_name(*p, sym),
{
    match sym {
        Symbol::Terminal(a) => out.append(p.lexer.ttypes[a].as_str()),
        Symbol::Variable(v) => out.append(p.varnames[v].as_str()),
    }
}

fn push_value_type(out: &mut String, p: &Parser, sym: Symbol)
    requires
        sym matches Symbol::Variable(v) ==> v < p.varnames@.len(),
    ensures
        final(out)@ == old(out)@ + value_type(*p, sym),
{
    let ghost start = out@;
    match sym {
        Symbol::Terminal(_) => out.append("Token"),
        Symbol::Variable(v) => {
            out.append(p.varnames[v].as_str());
            out.append("Product");
        },
    }
    assert(out@ =~= start + value_type(*p, sym));
}

fn push_production(out: &mut String, p: &Parser, a: usize)
    requires
        rust_parser_ready(*p),
        a < p.grammar.spec_alt_count(),
        p.grammar.spec_alt_rule()[a as int] < p.grammar.spec_rule_count() - 1,
    ensures
        final(out)@ == old(out)@ + rp_production(*p, a as int),
{
    let ghost start = out@;
    let lhs = p.grammar.alt_rule(a);
    let rhs = p.grammar.alt(a);
    assert(symbols_named(*p, rhs@));
    out.append("// ");
    out.append(p.varnames[lhs].as_str());
    out.append(" ->");
    let ghost c0 = out@;
    let mut j: usize = 0;
    while j < rhs.len()
        invariant
            j <= rhs@.len(),
            symbols_named(*p, rhs@),
            out@ == c0 + rp_comment_symbols(*p, rhs@, j as int),
        decreases rhs@.len() - j,
    {
        out.append(" ");
        let sym = rhs[j];
        assert(rhs@[j as int] == sym);
        push_symbol_name(out, p, sym);
        j = j + 1;
        assert(out@ =~= c0 + rp_comment_symbols(*p, rhs@, j as int));
    }
    out.append("\nfn p");
    crate::dot::push_decimal(out, a);
    out.append("(");
    let ghost c1 = out@;
    let mut j: usize = 0;
    while j < rhs.len()
        invariant
            j <= rhs@.len(),
            symbols_named(*p, rhs@),
            out@ == c1 + rp_params(*p, rhs@, j as int),
        decreases rhs@.len() - j,
    {
        let ghost b = out@;
        let sym = rhs[j];
        assert(rhs@[j as int] == sym);
        match sym {
            Symbol::Terminal(_) => out.append("_: &[u8]"),
            Symbol::Variable(v) => {
                out.append("_: ");
                out.append(p.varnames[v].as_str());
                out.append("Product");
            },
        }
        assert(out@ =~= b + param_type(*p, sym));
        if j + 1 < rhs.len() {
            out.append(", ");
        }
        j = j + 1;
        assert(out@ =~= c1 + rp_params(*p, rhs@, j as int));
    }
    out.append(") -> ");
    out.append(p.varnames[lhs].as_str());
    out.append("Product {\n    panic!(\"no semantic action for production ");
    crate::dot::push_decimal(out, a);
    out.append("\")\n}\n\n");
    assert(out@ =~= start + rp_production(*p, a as int));
}

fn push_held_values(out: &mut String, src: &ParserState, from: usize, to: usize)
    requires
        from <= to,
    ensures
        final(out)@ == old(out)@ + held_values(*src, from as int, to as int),
{
    let ghost start = out@;
    let mut i: usize = from;
    assert(held_values(*src, from as int, from as int) =~= Seq::empty());
    while i < to
        invariant
            from <= i <= to,
            out@ == start + held_values(*src, from as int, i as int),
        decreases to - i,
    {
        if src.input_symbols.len() == 1 {
            out.append("arg, ");
        } else {
            out.append("args.");
            crate::dot::push_decimal(out, i);
            out.append(", ");
        }
        i = i + 1;
        assert(out@ =~= start + held_values(*src, from as int, i as int));
    }
}

fn push_arglist(out: &mut String, src: &ParserState, dst: &ParserState, v: &str)
    requires
        arglist_ok(*src, *dst),
    ensures
        final(out)@ == old(out)@ + arglist(*src, *dst, v@),
{
    let ghost start = out@;
    let n = src.input_symbols.len();
    let m = dst.input_symbols.len();
    if m > 1 {
        out.append("(");
    }
    push_held_values(out, src, n - (m - 1), n);
    out.append(v);
    if m > 1 {
        out.append(")");
    }
    assert(out@ =~= start + arglist(*src, *dst, v@));
}

fn push_arg_decl(out: &mut String, p: &Parser, s: &ParserState)
    requires
        symbols_named(*p, s.input_symbols@),
    ensures
        final(out)@ == old(out)@ + arg_decl(*p, *s),
{
    let ghost start = out@;
    let n = s.input_symbols.len();
    if n == 0 {
        return;
    }
    out.append(", ");
    if n > 1 {
        out.append("args");
        out.append(": ");
        out.append("(");
        let ghost c = out@;
        let mut j: usize = 0;
        while j < n
            invariant
                j <= n,
                n == s.input_symbols@.len(),
                symbols_named(*p, s.input_symbols@),
                out@ == c + value_types(*p, s.input_symbols@, j as int),
            decreases n - j,
        {
            if j > 0 {
                out.append(", ");
            }
            let sym = s.input_symbols[j];
            assert(s.input_symbols@[j as int] == sym);
            push_value_type(out, p, sym);
            j = j + 1;
            assert(out@ =~= c + value_types(*p, s.input_symbols@, j as int));
        }
        out.append(")");
    } else {
        out.append("arg");
        out.append(": ");
        let sym = s.input_symbols[0];
        assert(s.input_symbols@[0] == sym);
        push_value_type(out, p, sym);
    }
    assert(out@ =~= start + arg_decl(*p, *s));
}

fn push_on_return_call(out: &mut String, s: &ParserState, who: &str)
    ensures
        final(out)@ == old(out)@ + on_return_call(*s, who@),
{
    let ghost start = out@;
    out.append("on_return(");
    out.append(who);
    out.append(", tuple");
    if s.input_symbols.len() > 0 {
        out.append(", ");
        if s.input_symbols.len() > 1 {
            out.append("args");
        } else {
            out.append("arg");
        }
    }
    out.append(")\n");
    assert(out@ =~= start + on_return_call(*s, who@));
}

fn push_on_return_fn(out: &mut String, p: &Parser, s: &ParserState)
    requires
        state_ready(*p, *s),
    ensures
        final(out)@ == old(out)@ + on_return_fn(*p, *s),
{
    let ghost start = out@;
    out.append("        fn on_return(parse: &mut Parse, (var, goto): (Variable, usize)");
    push_arg_decl(out, p, s);
    out.append(") -> Result<(Variable, usize), ParseError> {\n            if goto == 0 {\n                let tuple = match var {\n");
    let ghost c = out@;
    let mut j: usize = 0;
    while j < s.nttrans.len()
        invariant
            j <= s.nttrans@.len(),
            state_ready(*p, *s),
            out@ == c + goto_arms(*p, *s, j as int),
        decreases s.nttrans@.len() - j,
    {
        let ghost b = out@;
        let n = s.nttrans[j];
        assert(s.nttrans@[j as int] == n);
        out.append("                    Variable::");
        out.append(p.varnames[n.var].as_str());
        out.append("(v) => parse.s");
        crate::dot::push_decimal(out, n.dst);
        out.append("(");
        push_arglist(out, s, &p.states[n.dst], "v");
        out.append("),\n");
        j = j + 1;
        assert(out@ =~= c + goto_arms(*p, *s, j as int));
    }
    let ghost d = out@;
    if s.nttrans.len() < p.varnames.len() {
        out.append("                    _ => return Err(ParseError::InvalidGoto { state: ");
        crate::dot::push_decimal(out, s.id);
        out.append(" }),\n");
    }
    out.append("                }?;\n                ");
    push_on_return_call(out, s, "parse");
    out.append("            } else {\n                Ok((var, goto - 1))\n            }\n        }\n");
    assert(out@ =~= start + on_return_fn(*p, *s));
}

fn push_token_pattern(out: &mut String, p: &Parser, word: Option<usize>, bind: bool)
    requires
        word matches Some(w) ==> w < p.lexer.ttypes@.len(),
    ensures
        final(out)@ == old(out)@ + token_pattern(*p, word, bind),
{
    let ghost start = out@;
    match word {
        Some(w) => {
            if bind {
                out.append("Some(t @ Token { ttype: TokenType::");
            } else {
                out.append("Some(Token { ttype: TokenType::");
            }
            out.append(p.lexer.ttypes[w].as_str());
            out.append(", .. }) => ");
        },
        None => out.append("None => "),
    }
    assert(out@ =~= start + token_pattern(*p, word, bind));
}

#[verifier::rlimit(40)]
fn push_reduce_args(out: &mut String, s: &ParserState, from: usize, to: usize)
    requires
        from <= to <= s.input_symbols@.len(),
    ensures
        final(out)@ == old(out)@ + reduce_args(*s, from as int, to as int),
{
    let ghost start = out@;
    let n = s.input_symbols.len();
    let mut i: usize = from;
    assert(reduce_args(*s, from as int, from as int) =~= Seq::empty());
    while i < to
        invariant
            from <= i <= to,
            to <= n,
            n == s.input_symbols@.len(),
            out@ == start + reduce_args(*s, from as int, i as int),
        decreases to - i,
    {
        let ghost b = out@;
        let sym = s.input_symbols[i];
        assert(s.input_symbols@[i as int] == sym);
        match sym {
            Symbol::Terminal(_) => {
                out.append("self.lexeme(&");
                if n == 1 {
                    out.append("arg");
                } else {
                    out.append("args.");
                    crate::dot::push_decimal(out, i);
                }
                out.append(")");
            },
            Symbol::Variable(_) => {
                if n == 1 {
                    out.append("arg");
                } else {
                    out.append("args.");
                    crate::dot::push_decimal(out, i);
                }
            },
        }
        if i + 1 < n {
            out.append(", ");
        }
        i = i + 1;
        assert(out@ =~= start + reduce_args(*s, from as int, i as int));
    }
}

fn push_shift_arm(out: &mut String, p: &Parser, s: &ParserState, word: Option<usize>, d: usize)
    requires
        word matches Some(w) ==> w < p.lexer.ttypes@.len(),
        d < p.states@.len(),
        arglist_ok(*s, p.states@[d as int]),
    ensures
        final(out)@ == old(out)@ + "            "@ + token_pattern(*p, word, true) + "{ self.update()?; self.s"@ + decimal(d as nat)
            + "("@ + arglist(*s, p.states@[d as int], "t"@) + ") }\n"@,
{
    let ghost start = out@;
    out.append("            ");
    push_token_pattern(out, p, word, true);
    out.append("{ self.update()?; self.s");
    crate::dot::push_decimal(out, d);
    out.append("(");
    push_arglist(out, s, &p.states[d], "t");
    out.append(") }\n");
    assert(out@ =~= start + "            "@ + token_pattern(*p, word, true) + "{ self.update()?; self.s"@ + decimal(d as nat)
        + "("@ + arglist(*s, p.states@[d as int], "t"@) + ") }\n"@);
}

#[verifier::rlimit(40)]
fn push_reduce_arm(out: &mut String, p: &Parser, s: &ParserState, word: Option<usize>, a: usize)
    requires
        p.grammar.wf(),
        word matches Some(w) ==> w < p.lexer.ttypes@.len(),
        a < p.grammar.spec_alt_count(),
        p.grammar.spec_alt_rule()[a as int] < p.varnames@.len(),
        1 <= p.grammar.spec_rhs(a as int).len() <= s.input_symbols@.len(),
    ensures
        final(out)@ == old(out)@ + token_arm(*p, *s, TTransition { word, action: Action::Reduce(a) }),
{
    let ghost start = out@;
    let n = s.input_symbols.len();
    let len = p.grammar.alt(a).len();
    let lhs = p.grammar.alt_rule(a);
    out.append("            ");
    push_token_pattern(out, p, word, false);
    out.append("return Ok((Variable::");
    out.append(p.varnames[lhs].as_str());
    out.append("(p");
    crate::dot::push_decimal(out, a);
    out.append("(");
    push_reduce_args(out, s, n - len, n);
    out.append(")), ");
    crate::dot::push_decimal(out, len - 1);
    out.append(")),\n");
    assert(out@ =~= start + token_arm(*p, *s, TTransition { word, action: Action::Reduce(a) }));
}

fn push_token_arm(out: &mut String, p: &Parser, s: &ParserState, t: TTransition)
    requires
        p.grammar.wf(),
        p.varnames@.len() >= 1,
        t.word matches Some(w) ==> w < p.lexer.ttypes@.len(),
        t.action != Action::Invalid,
        t.action matches Action::Shift(d) ==> d < p.states@.len() && arglist_ok(*s, p.states@[d as int]),
        t.action matches Action::Reduce(a) ==> {
            &&& a < p.grammar.spec_alt_count()
            &&& p.grammar.spec_alt_rule()[a as int] < p.varnames@.len()
            &&& 1 <= p.grammar.spec_rhs(a as int).len() <= s.input_symbols@.len()
        },
    ensures
        final(out)@ == old(out)@ + token_arm(*p, *s, t),
{
    let ghost start = out@;
    match t.action {
        Action::Accept => {
            out.append("            ");
            push_token_pattern(out, p, t.word, false);
            out.append("return Ok((Variable::");
            out.append(p.varnames[0].as_str());
            out.append("(arg), 1)),\n");
            assert(out@ =~= start + token_arm(*p, *s, t));
        },
        Action::Shift(d) => {
            push_shift_arm(out, p, s, t.word, d);
        },
        Action::Reduce(a) => {
            push_reduce_arm(out, p, s, t.word, a);
            assert(t == TTransition { word: t.word, action: Action::Reduce(a) });
        },
        Action::Invalid => {},
    }
}

fn push_token_arms(out: &mut String, p: &Parser, s: &ParserState)
    requires
        p.grammar.wf(),
        p.varnames@.len() >= 1,
        state_ready(*p, *s),
    ensures
        final(out)@ == old(out)@ + token_arms(*p, *s, s.ttrans@.len() as int),
{
    let ghost c = out@;
    let mut j: usize = 0;
    while j < s.ttrans.len()
        invariant
            j <= s.ttrans@.len(),
            p.grammar.wf(),
            p.varnames@.len() >= 1,
            state_ready(*p, *s),
            out@ == c + token_arms(*p, *s, j as int),
        decreases s.ttrans@.len() - j,
    {
        let t = s.ttrans[j];
        assert(s.ttrans@[j as int] == t);
        push_token_arm(out, p, s, t);
        j = j + 1;
        assert(out@ =~= c + token_arms(*p, *s, j as int));
    }
}

fn push_body_head(out: &mut String, p: &Parser, s: &ParserState)
    requires
        state_ready(*p, *s),
    ensures
        final(out)@ == old(out)@ + body_head(*p, *s),
{
    let ghost start = out@;
    if s.has_shift_transitions {
        if s.nttrans.len() > 0 {
            push_on_return_fn(out, p, s);
        }
        out.append("        let tuple = ");
    } else {
        out.append("        ");
    }
    assert(out@ =~= start + body_head(*p, *s));
}

fn push_body_tail(out: &mut String, p: &Parser, s: &ParserState)
    ensures
        final(out)@ == old(out)@ + body_tail(*p, *s),
{
    let ghost start = out@;
    if s.ttrans.len() < p.lexer.ttype_count {
        out.append("            t => return Err(ParseError::InvalidAction { state: ");
        crate::dot::push_decimal(out, s.id);
        out.append(", ttype: t.map(|t| t.ttype) }),\n");
    }
    out.append("        }");
    if s.has_shift_transitions {
        out.append("?;\n        ");
        if s.nttrans.len() == 0 {
            out.append("decrement(tuple)\n");
        } else {
            push_on_return_call(out, s, "self");
        }
    } else {
        out.append("\n");
    }
    assert(out@ =~= start + body_tail(*p, *s));
}

fn push_state_body(out: &mut String, p: &Parser, s: &ParserState)
    requires
        p.grammar.wf(),
        p.varnames@.len() >= 1,
        state_ready(*p, *s),
    ensures
        final(out)@ == old(out)@ + state_body(*p, *s),
{
    let ghost start = out@;
    if s.ttrans.len() == 0 {
        assert(out@ =~= start + state_body(*p, *s));
        return;
    }
    push_body_head(out, p, s);
    out.append("match self.next_token {\n");
    push_token_arms(out, p, s);
    push_body_tail(out, p, s);
    assert(out@ =~= start + state_body(*p, *s));
}

#[verifier::rlimit(40)]
fn push_state_fn(out: &mut String, p: &Parser, s: &ParserState)
    requires
        p.grammar.wf(),
        p.varnames@.len() >= 1,
        state_ready(*p, *s),
    ensures
        final(out)@ == old(out)@ + state_fn(*p, *s),
{
    let ghost start = out@;
    out.append("    fn s");
    crate::dot::push_decimal(out, s.id);
    out.append("(&mut self");
    push_arg_decl(out, p, s);
    out.append(") -> Result<(Variable, usize), ParseError> {\n");
    push_state_body(out, p, s);
    out.append("    }\n");
    if p.states.len() > 0 && s.id < p.states.len() - 1 {
        out.append("\n");
    }
    assert(out@ =~= start + state_fn(*p, *s));
}

/// The Rust source of a parser for `parser`: a stub per production for its
/// semantic action, the scanner of its lexer, and a function per state.
pub fn rust_parser_source(parser: &Parser) -> (r: String)
    requires
        rust_parser_ready(*parser),
    ensures
        r@ == rust_parser_text(*parser),
{
    let p = parser;
    let mut out = String::new();
    out.append("#![allow(non_camel_case_types)]\n#![allow(unused_comparisons)]\n#![allow(dead_code)]\n#![allow(non_snake_case)]\n#![allow(unused_mut)]\n#![allow(clippy::match_same_arms)]\n#![allow(clippy::needless_return)]\n#![allow(clippy::unnecessary_wraps)]\n#![allow(clippy::unit_arg)]\n\n");
    let ghost c0 = out@;
    let mut j: usize = 0;
    while j < p.varnames.len()
        invariant
            j <= p.varnames@.len(),
            out@ == c0 + rp_products(*p, j as int),
        decreases p.varnames@.len() - j,
    {
        out.append("type ");
        out.append(p.varnames[j].as_str());
        out.append("Product = ();\n");
        j = j + 1;
        assert(out@ =~= c0 + rp_products(*p, j as int));
    }
    out.append("\n");
    let ghost c1 = out@;
    let rules = p.grammar.rule_count();
    let alts = p.grammar.alt_count();
    let mut a: usize = 0;
    while a < alts
        invariant
            a <= alts,
            alts == p.grammar.spec_alt_count(),
            rules == p.grammar.spec_rule_count(),
            rust_parser_ready(*p),
            out@ == c1 + rp_productions(*p, a as int),
        decreases alts - a,
    {
        if p.grammar.alt_rule(a) < rules - 1 {
            push_production(&mut out, p, a);
        }
        a = a + 1;
        assert(out@ =~= c1 + rp_productions(*p, a as int));
    }
    let lexer_text = crate::rust_source::rust_lexer_source(&p.lexer);
    out.append(lexer_text.as_str());
    out.append("\npub fn parse<I: AsRef<[u8]> + ?Sized>(input: &I) -> Result<");
    out.append(p.varnames[0].as_str());
    out.append("Product, ParseError> {\n    let res = Parse { input: scan(input), next_token: None }.begin();\n    match res? {\n        Variable::");
    out.append(p.varnames[0].as_str());
    out.append("(product) => Ok(product),\n        _ => unreachable!(),\n    }\n}\n\n#[derive(Debug, Clone, Copy)]\npub enum Variable {\n");
    let ghost c2 = out@;
    let mut j: usize = 0;
    while j < p.varnames.len()
        invariant
            j <= p.varnames@.len(),
            out@ == c2 + rp_variants(*p, j as int),
        decreases p.varnames@.len() - j,
    {
        out.append("    ");
        out.append(p.varnames[j].as_str());
        out.append("(");
        out.append(p.varnames[j].as_str());
        out.append("Product),\n");
        j = j + 1;
        assert(out@ =~= c2 + rp_variants(*p, j as int));
    }
    out.append("}\n\npub struct Parse<'a> {\n    input: Scan<'a>,\n    next_token: Option<Token>,\n}\n\n#[derive(Debug)]\npub enum ParseError {\n    InputError(ScanError),\n    InvalidAction { state: usize, ttype: Option<TokenType> },\n    InvalidGoto { state: usize },\n}\n\nimpl Parse<'_> {\n    fn begin(mut self) -> Result<Variable, ParseError> {\n        self.update()?;\n        Ok(self.s0()?.0)\n    }\n\n    fn update(&mut self) -> Result<(), ParseError> {\n        self.next_token = self.input.next().transpose().map_err(|err| { ParseError::InputError(err) })?;\n        Ok(())\n    }\n\n");
    let ghost c3 = out@;
    let mut i: usize = 0;
    while i < p.states.len()
        invariant
            i <= p.states@.len(),
            rust_parser_ready(*p),
            out@ == c3 + state_fns(*p, i as int),
        decreases p.states@.len() - i,
    {
        assert(state_ready(*p, p.states@[i as int]));
        push_state_fn(&mut out, p, &p.states[i]);
        i = i + 1;
        assert(out@ =~= c3 + state_fns(*p, i as int));
    }
    out.append("\n    fn lexeme(&self, token: &Token) -> &[u8] {\n        &self.input.input[token.span.0..token.span.1]\n    }\n}\n\nfn decrement((var, goto): (Variable, usize)) -> Result<(Variable, usize), ParseError> {\n    assert!(goto > 0);\n    Ok((var, goto - 1))\n}\n");
    assert(out@ =~= rust_parser_text(*p));
    out
}

fn symbols_named_check(p: &Parser, syms: &Vec<Symbol>) -> (b: bool)
    ensures
        b == symbols_named(*p, syms@),
{
    let mut k: usize = 0;
    while k < syms.len()
        invariant
            k <= syms@.len(),
            forall|j: int| 0 <= j < k ==> match #[trigger] syms@[j] {
                Symbol::Terminal(a) => a < p.lexer.ttypes@.len(),
                Symbol::Variable(v) => v < p.varnames@.len(),
            },
        decreases syms@.len() - k,
    {
        match syms[k] {
            Symbol::Terminal(a) => {
                if a >= p.lexer.ttypes.len() {
                    assert(syms@[k as int] == Symbol::Terminal(a));
                    return false;
                }
            },
            Symbol::Variable(v) => {
                if v >= p.varnames.len() {
                    assert(syms@[k as int] == Symbol::Variable(v));
                    return false;
                }
            },
        }
        k = k + 1;
    }
    true
}

fn arglist_check(src: &ParserState, dst: &ParserState) -> (b: bool)
    ensures
        b == arglist_ok(*src, *dst),
{
    1 <= dst.input_symbols.len() && dst.input_symbols.len() - 1 <= src.input_symbols.len()
}

/// Whether state `s` meets the bounds of `state_ready`.
fn state_ready_check(p: &Parser, s: &ParserState) -> (b: bool)
    requires
        p.grammar.wf(),
    ensures
        b == state_ready(*p, *s),
{
    if !symbols_named_check(p, &s.input_symbols) {
        return false;
    }
    let mut k: usize = 0;
    while k < s.ttrans.len()
        invariant
            k <= s.ttrans@.len(),
            p.grammar.wf(),
            forall|j: int| 0 <= j < k ==> {
                let t = #[trigger] s.ttrans@[j];
                &&& (t.word matches Some(w) ==> w < p.lexer.ttypes@.len())
                &&& t.action != Action::Invalid
                &&& (t.action matches Action::Shift(d) ==> d < p.states@.len() && arglist_ok(*s, p.states@[d as int]))
                &&& (t.action matches Action::Reduce(a) ==> {
                    &&& a < p.grammar.spec_alt_count()
                    &&& p.grammar.spec_alt_rule()[a as int] < p.varnames@.len()
                    &&& 1 <= p.grammar.spec_rhs(a as int).len() <= s.input_symbols@.len()
                })
            },
        decreases s.ttrans@.len() - k,
    {
        let t = s.ttrans[k];
        assert(s.ttrans@[k as int] == t);
        match t.word {
            Some(w) => {
                if w >= p.lexer.ttypes.len() {
                    return false;
                }
            },
            None => {},
        }
        match t.action {
            Action::Invalid => {
                return false;
            },
            Action::Accept => {},
            Action::Shift(d) => {
                if d >= p.states.len() || !arglist_check(s, &p.states[d]) {
                    return false;
                }
            },
            Action::Reduce(a) => {
                if a >= p.grammar.alt_count() {
                    return false;
                }
                if p.grammar.alt_rule(a) >= p.varnames.len() {
                    return false;
                }
                let len = p.grammar.alt(a).len();
                if len < 1 || len > s.input_symbols.len() {
                    return false;
                }
            },
        }
        k = k + 1;
    }
    let mut k: usize = 0;
    while k < s.nttrans.len()
        invariant
            k <= s.nttrans@.len(),
            forall|j: int| 0 <= j < k ==> {
                let n = #[trigger] s.nttrans@[j];
                &&& n.var < p.varnames@.len()
                &&& n.dst < p.states@.len()
                &&& arglist_ok(*s, p.states@[n.dst as int])
            },
        decreases s.nttrans@.len() - k,
    {
        let n = s.nttrans[k];
        assert(s.nttrans@[k as int] == n);
        if n.var >= p.varnames.len() || n.dst >= p.states.len() || !arglist_check(s, &p.states[n.dst]) {
            return false;
        }
        k = k + 1;
    }
    true
}

/// Whether `p`, whose grammar is valid, meets the bounds of
/// `rust_parser_ready`.
pub fn rust_parser_is_ready(p: &Parser) -> (b: bool)
    requires
        p.grammar.wf(),
    ensures
        b == rust_parser_ready(*p),
{
    if p.varnames.len() < 1 || !crate::rust_source::rust_lexer_ready(&p.lexer) {
        return false;
    }
    let rules = p.grammar.rule_count();
    let alts = p.grammar.alt_count();
    let mut a: usize = 0;
    while a < alts
        invariant
            a <= alts,
            alts == p.grammar.spec_alt_count(),
            rules == p.grammar.spec_rule_count(),
            p.grammar.wf(),
            forall|j: int| 0 <= j < a && #[trigger] p.grammar.spec_alt_rule()[j] < p.grammar.spec_rule_count() - 1 ==> {
                &&& p.grammar.spec_alt_rule()[j] < p.varnames@.len()
                &&& symbols_named(*p, p.grammar.spec_rhs(j))
            },
        decreases alts - a,
    {
        let lhs = p.grammar.alt_rule(a);
        if lhs < rules - 1 {
            if lhs >= p.varnames.len() || !symbols_named_check(p, p.grammar.alt(a)) {
                return false;
            }
        }
        a = a + 1;
    }
    let mut i: usize = 0;
    while i < p.states.len()
        invariant
            i <= p.states@.len(),
            p.grammar.wf(),
            forall|j: int| 0 <= j < i ==> state_ready(*p, #[trigger] p.states@[j]),
        decreases p.states@.len() - i,
    {
        if !state_ready_check(p, &p.states[i]) {
            return false;
        }
        i = i + 1;
    }
    true
}

} // verus!
