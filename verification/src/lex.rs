//! Lexical analysis: a lexer compiled from a list of regular expressions,
//! each emitted as a token class or skipped, scanning text by longest
//! match (maximal munch), ties going to the first expression.

use vstd::prelude::*;
use vstd::string::StringSliceAdditionalSpecFns;
use crate::regex::{RegEx, wf};
use crate::dfa::{DFA, run, first_match, vec_not_free, has_class, lemma_run_in_range};

verus! {

/// What to do with a token of a class: hand it on, or drop it.
#[derive(Clone, Copy, Debug, PartialEq, Eq, Structural)]
pub enum Command {
    Emit,
    Skip,
}

/// The definition of a lexer: for each token class a label, an
/// expression, and a command.
pub struct LexDef {
    pub labels: Vec<String>,
    pub regexes: Vec<RegEx>,
    pub commands: Vec<Command>,
}

/// A token: its class, and the span `start..end` of the text it covers.
#[derive(Clone, Copy, Debug, PartialEq, Eq, Structural)]
pub struct Token {
    pub class: usize,
    pub start: usize,
    pub end: usize,
}

/// No token starts at byte `pos`.
#[derive(Clone, Copy, Debug, PartialEq, Eq, Structural)]
pub struct ParseError {
    pub pos: usize,
}

/// A lexer: the automaton of its expressions, and their commands.
pub struct LexAnalyzer {
    labels: Vec<String>,
    dfa: DFA,
    commands: Vec<Command>,
    regexes: Ghost<Seq<RegEx>>,
}

impl LexAnalyzer {
    /// The expressions the lexer was compiled from.
    pub closed spec fn spec_regexes(&self) -> Seq<RegEx> {
        self.regexes@
    }

    /// The labels of the token classes.
    pub closed spec fn spec_labels(&self) -> Seq<String> {
        self.labels@
    }

    /// The commands of the token classes.
    pub closed spec fn spec_commands(&self) -> Seq<Command> {
        self.commands@
    }

    /// The class of the string `w`: the index of the first expression that
    /// matches it, as the automaton computes it.
    pub closed spec fn class_of(&self, w: Seq<u8>) -> Option<usize> {
        self.dfa.spec_classes()[run(self.dfa.spec_next(), 1, w)]
    }

    /// The lexer is consistent: its automaton is that of its expressions,
    /// and every class has a command.
    pub closed spec fn wf(&self) -> bool {
        &&& self.dfa.wf()
        &&& self.commands@.len() == self.regexes@.len()
        &&& forall|k: int| 0 <= k < self.regexes@.len() ==> #[trigger] wf(self.regexes@[k])
        &&& vec_not_free(self.regexes@) ==> forall|w: Seq<u8>| #[trigger] self.dfa.spec_classes()[run(self.dfa.spec_next(), 1, w)] == first_match(self.regexes@, w)
        &&& forall|s: int| 0 <= s < self.dfa.spec_classes().len() ==> (#[trigger] self.dfa.spec_classes()[s] matches Some(c) ==> c < self.regexes@.len())
    }

    /// Compiles the lexer of `def`.
    pub fn compile(def: &LexDef) -> (r: Self)
        requires
            forall|k: int| 0 <= k < def.regexes@.len() ==> #[trigger] wf(def.regexes@[k]),
            def.commands@.len() == def.regexes@.len(),
        ensures
            r.wf(),
            r.spec_regexes() == def.regexes@,
            r.spec_commands() == def.commands@,
            r.spec_labels() == def.labels@,
    {
        let d0 = DFA::from(&def.regexes);
        let dfa = d0.minimize();
        let labels = copy_strings(&def.labels);
        let mut commands: Vec<Command> = Vec::new();
        let mut j = 0usize;
        while j < def.commands.len()
            invariant
                j <= def.commands@.len(),
                commands@ == def.commands@.take(j as int),
            decreases def.commands@.len() - j,
        {
            commands.push(def.commands[j]);
            j += 1;
            assert(commands@ =~= def.commands@.take(j as int));
        }
        assert(commands@ =~= def.commands@);
        let r = LexAnalyzer { labels, dfa, commands, regexes: Ghost(def.regexes@) };
        proof {
            assert forall|s: int| 0 <= s < r.dfa.spec_classes().len() implies (#[trigger] r.dfa.spec_classes()[s] matches Some(c) ==> c < r.regexes@.len()) by {
                assert(has_class(d0.spec_classes(), r.dfa.spec_classes()[s]));
                let t = choose|t: int| 0 <= t < d0.spec_classes().len() && d0.spec_classes()[t] == r.dfa.spec_classes()[s];
            }
        }
        r
    }

    /// All the tokens of `text`, or the first error.
    pub fn tokenize(&self, text: &str) -> (r: Result<Vec<Token>, ParseError>)
        requires
            self.wf(),
        ensures
            r matches Ok(v) ==> tokens_from(*self, text.spec_bytes(), 0) == Ok::<Seq<Token>, ParseError>(v@),
            r matches Err(e) ==> tokens_from(*self, text.spec_bytes(), 0) == Err::<Seq<Token>, ParseError>(e),
    {
        let ghost t = text.spec_bytes();
        let mut scan = self.parse(text);
        let mut out: Vec<Token> = Vec::new();
        assert(out@ + Seq::<Token>::empty() =~= out@);
        loop
            invariant
                scan.wf(),
                scan.spec_lex() == self,
                scan.spec_text() == t,
                t == text.spec_bytes(),
                tokens_from(*self, t, 0) == prepend_tokens(out@, tokens_from(*self, t, scan.spec_pos())),
            decreases t.len() - scan.spec_pos(),
        {
            let ghost i = scan.spec_pos();
            proof {
                lemma_scan_from_advances(*self, t, i);
            }
            match scan.next() {
                None => {
                    assert(tokens_from(*self, t, i) == Ok::<Seq<Token>, ParseError>(Seq::empty()));
                    assert(out@ + Seq::<Token>::empty() =~= out@);
                    return Ok(out);
                },
                Some(Err(e)) => {
                    assert(tokens_from(*self, t, i) == Err::<Seq<Token>, ParseError>(e));
                    return Err(e);
                },
                Some(Ok(tok)) => {
                    let ghost out0 = out@;
                    out.push(tok);
                    proof {
                        assert(tokens_from(*self, t, i) == prepend_tokens(seq![tok], tokens_from(*self, t, scan.spec_pos())));
                        match tokens_from(*self, t, scan.spec_pos()) {
                            Ok(rest) => {
                                assert(out0 + (seq![tok] + rest) =~= out@ + rest);
                            },
                            Err(_) => {},
                        }
                    }
                },
            }
        }
    }

    /// The tokens of `text`, scanned on demand by `next`.
    pub fn parse<'a>(&'a self, text: &'a str) -> (r: Parse<'a>)
        requires
            self.wf(),
        ensures
            r.wf(),
            r.spec_lex() == self,
            r.spec_text() == text.spec_bytes(),
            r.spec_pos() == 0,
    {
        Parse { lex: self, bytes: text.as_bytes(), pos: 0 }
    }

    /// The commands of the token classes.
    pub(crate) fn commands(&self) -> (r: &Vec<Command>)
        ensures
            r@ == self.spec_commands(),
    {
        &self.commands
    }

    /// The labels of the token classes.
    pub(crate) fn labels(&self) -> (r: &Vec<String>)
        ensures
            r@ == self.spec_labels(),
    {
        &self.labels
    }

    /// The command of class `class`.
    fn command(&self, class: usize) -> (r: Command)
        requires
            class < self.spec_commands().len(),
        ensures
            r == self.spec_commands()[class as int],
    {
        self.commands[class]
    }
}

/// A copy of a list of strings.
pub(crate) fn copy_strings(v: &Vec<String>) -> (r: Vec<String>)
    ensures
        r@ == v@,
{
    let mut r: Vec<String> = Vec::new();
    let mut i = 0usize;
    while i < v.len()
        invariant
            i <= v@.len(),
            r@ == v@.take(i as int),
        decreases v@.len() - i,
    {
        r.push(v[i].clone());
        i += 1;
        assert(r@ =~= v@.take(i as int));
    }
    assert(r@ =~= v@);
    r
}

/// The end of the longest token starting at `i` and ending at most at `p`:
/// the greatest `j` in `i + 1 ..= p` such that `t[i..j]` has a class.
pub open spec fn best_upto(lex: LexAnalyzer, t: Seq<u8>, i: int, p: int) -> Option<int>
    decreases p - i,
{
    if p <= i {
        None
    } else if lex.class_of(t.subrange(i, p)) is Some {
        Some(p)
    } else {
        best_upto(lex, t, i, p - 1)
    }
}

/// The end of the longest token starting at `i`.
pub open spec fn longest(lex: LexAnalyzer, t: Seq<u8>, i: int) -> Option<int> {
    best_upto(lex, t, i, t.len() as int)
}

/// The result of scanning from `i`: skipped tokens are passed over; the
/// first token to emit is returned with the position after it; an error
/// where no token starts; nothing at the end of the text.
pub open spec fn scan_from(lex: LexAnalyzer, t: Seq<u8>, i: int) -> (Option<Result<Token, ParseError>>, int)
    decreases t.len() - i,
{
    if i < 0 || i >= t.len() {
        (None, i)
    } else {
        match longest(lex, t, i) {
            None => (Some(Err(ParseError { pos: i as usize })), i),
            Some(j) => {
                let c = lex.class_of(t.subrange(i, j))->Some_0;
                if i < j <= t.len() && lex.spec_commands()[c as int] == Command::Skip {
                    scan_from(lex, t, j)
                } else {
                    (Some(Ok(Token { class: c, start: i as usize, end: j as usize })), j)
                }
            },
        }
    }
}

/// A token scanned from `i` ends after `i`, within the text, where the
/// scan goes on.
pub proof fn lemma_scan_from_advances(lex: LexAnalyzer, t: Seq<u8>, i: int)
    ensures
        scan_from(lex, t, i).0 matches Some(Ok(tok)) ==> i < scan_from(lex, t, i).1 <= t.len(),
    decreases t.len() - i,
{
    if 0 <= i < t.len() {
        lemma_best_upto(lex, t, i, t.len() as int);
        match longest(lex, t, i) {
            None => {},
            Some(j) => {
                let c = lex.class_of(t.subrange(i, j))->Some_0;
                if i < j <= t.len() && lex.spec_commands()[c as int] == Command::Skip {
                    lemma_scan_from_advances(lex, t, j);
                }
            },
        }
    }
}

/// The tokens of the text from `i` on, or the first error.
pub open spec fn tokens_from(lex: LexAnalyzer, t: Seq<u8>, i: int) -> Result<Seq<Token>, ParseError>
    decreases t.len() - i,
{
    let (r, j) = scan_from(lex, t, i);
    match r {
        None => Ok(Seq::empty()),
        Some(Err(e)) => Err(e),
        Some(Ok(tok)) => if i < j <= t.len() {
            match tokens_from(lex, t, j) {
                Ok(rest) => Ok(seq![tok] + rest),
                Err(e) => Err(e),
            }
        } else {
            Ok(seq![tok])
        },
    }
}

/// `acc` followed by the tokens of `r`, or `r`'s error.
pub open spec fn prepend_tokens(acc: Seq<Token>, r: Result<Seq<Token>, ParseError>) -> Result<Seq<Token>, ParseError> {
    match r {
        Ok(s) => Ok(acc + s),
        Err(e) => Err(e),
    }
}

proof fn lemma_best_upto(lex: LexAnalyzer, t: Seq<u8>, i: int, p: int)
    ensures
        best_upto(lex, t, i, p) matches Some(j) ==> i < j <= p && lex.class_of(t.subrange(i, j)) is Some,
    decreases p - i,
{
    if p > i && !(lex.class_of(t.subrange(i, p)) is Some) {
        lemma_best_upto(lex, t, i, p - 1);
    }
}

proof fn lemma_run_push(next: Seq<Seq<usize>>, s: int, w: Seq<u8>, a: u8)
    ensures
        run(next, s, w.push(a)) == next[run(next, s, w)][a as int] as int,
    decreases w.len(),
{
    if w.len() == 0 {
        assert(w.push(a)[0] == a);
        assert(w.push(a).drop_first() =~= Seq::<u8>::empty());
        assert(run(next, s, w.push(a)) == run(next, next[s][a as int] as int, w.push(a).drop_first()));
    } else {
        assert(w.push(a)[0] == w[0]);
        assert(w.push(a).drop_first() =~= w.drop_first().push(a));
        lemma_run_push(next, next[s][w[0] as int] as int, w.drop_first(), a);
        assert(run(next, s, w.push(a)) == run(next, next[s][w[0] as int] as int, w.push(a).drop_first()));
    }
}

/// A scan of a text, token by token.
pub struct Parse<'a> {
    lex: &'a LexAnalyzer,
    bytes: &'a [u8],
    pos: usize,
}

impl<'a> Parse<'a> {
    /// The lexer.
    pub closed spec fn spec_lex(&self) -> &'a LexAnalyzer {
        self.lex
    }

    /// The bytes of the text.
    pub closed spec fn spec_text(&self) -> Seq<u8> {
        self.bytes@
    }

    /// The position the scan has reached.
    pub closed spec fn spec_pos(&self) -> int {
        self.pos as int
    }

    /// The scan is within its text, with a consistent lexer.
    pub open spec fn wf(&self) -> bool {
        &&& self.spec_lex().wf()
        &&& 0 <= self.spec_pos() <= self.spec_text().len()
    }

    /// The end of the longest token starting at the current position.
    fn longest_token(&self) -> (r: Option<usize>)
        requires
            self.wf(),
            self.spec_pos() < self.spec_text().len(),
        ensures
            r matches Some(j) ==> longest(*self.spec_lex(), self.spec_text(), self.spec_pos()) == Some(j as int),
            r is None ==> longest(*self.spec_lex(), self.spec_text(), self.spec_pos()) is None,
    {
        let ghost lex = *self.lex;
        let ghost t = self.bytes@;
        let ghost i = self.pos as int;
        let dfa = &self.lex.dfa;
        let mut state = 1usize;
        let mut best: Option<usize> = None;
        let mut p = self.pos;
        proof {
            assert(t.subrange(i, i) =~= Seq::<u8>::empty());
        }
        while p < self.bytes.len()
            invariant
                lex == *self.lex,
                lex.wf(),
                t == self.bytes@,
                i == self.pos,
                dfa == &lex.dfa,
                i <= p <= t.len(),
                state < dfa.spec_next().len(),
                state == run(dfa.spec_next(), 1, t.subrange(i, p as int)),
                best matches Some(j) ==> best_upto(lex, t, i, p as int) == Some(j as int),
                best is None ==> best_upto(lex, t, i, p as int) is None,
            decreases t.len() - p,
        {
            let ghost w = t.subrange(i, p as int);
            proof {
                lemma_run_push(dfa.spec_next(), 1, w, t[p as int]);
                assert(t.subrange(i, p + 1) =~= w.push(t[p as int]));
            }
            state = dfa.step(state, self.bytes[p]);
            p += 1;
            if dfa.class(state).is_some() {
                best = Some(p);
            }
        }
        best
    }

    /// The next token to emit, skipping tokens of skipped classes; an error
    /// where no token starts at the current position (which then stays
    /// where it is); `None` at the end of the text.
    pub fn next(&mut self) -> (r: Option<Result<Token, ParseError>>)
        requires
            old(self).wf(),
        ensures
            final(self).wf(),
            final(self).spec_lex() == old(self).spec_lex(),
            final(self).spec_text() == old(self).spec_text(),
            (r, final(self).spec_pos()) == scan_from(*old(self).spec_lex(), old(self).spec_text(), old(self).spec_pos()),
    {
        let ghost lex = *self.lex;
        let ghost t = self.bytes@;
        let ghost i0 = self.pos as int;
        loop
            invariant
                self.wf(),
                lex == *self.spec_lex(),
                t == self.spec_text(),
                self.spec_lex() == old(self).spec_lex(),
                self.spec_text() == old(self).spec_text(),
                scan_from(lex, t, self.spec_pos()) == scan_from(lex, t, i0),
                i0 == old(self).spec_pos(),
            decreases t.len() - self.spec_pos(),
        {
            if self.pos >= self.bytes.len() {
                return None;
            }
            match self.longest_token() {
                None => {
                    return Some(Err(ParseError { pos: self.pos }));
                },
                Some(j) => {
                    let ghost i = self.pos as int;
                    proof {
                        lemma_best_upto(lex, t, i, t.len() as int);
                        assert(lex.class_of(t.subrange(i, j as int)) is Some);
                        lemma_class_bound(lex, t.subrange(i, j as int));
                    }
                    let c = self.class_at(j);
                    let start = self.pos;
                    self.pos = j;
                    if let Command::Skip = self.lex.command(c) {
                    } else {
                        return Some(Ok(Token { class: c, start, end: j }));
                    }
                },
            }
        }
    }

    /// The class of the text from the current position to `j`.
    fn class_at(&self, j: usize) -> (r: usize)
        requires
            self.wf(),
            self.spec_pos() <= j <= self.spec_text().len(),
            self.spec_lex().class_of(self.spec_text().subrange(self.spec_pos(), j as int)) is Some,
        ensures
            Some(r) == self.spec_lex().class_of(self.spec_text().subrange(self.spec_pos(), j as int)),
            r < self.spec_lex().spec_commands().len(),
    {
        let ghost t = self.bytes@;
        let ghost i = self.pos as int;
        let dfa = &self.lex.dfa;
        let mut state = 1usize;
        let mut p = self.pos;
        proof {
            assert(t.subrange(i, i) =~= Seq::<u8>::empty());
        }
        while p < j
            invariant
                self.spec_lex().wf(),
                t == self.bytes@,
                i == self.pos,
                dfa == &self.lex.dfa,
                i <= p <= j,
                j <= t.len(),
                state < dfa.spec_next().len(),
                state == run(dfa.spec_next(), 1, t.subrange(i, p as int)),
            decreases j - p,
        {
            proof {
                lemma_run_push(dfa.spec_next(), 1, t.subrange(i, p as int), t[p as int]);
                assert(t.subrange(i, p + 1) =~= t.subrange(i, p as int).push(t[p as int]));
            }
            state = dfa.step(state, self.bytes[p]);
            p += 1;
        }
        proof {
            lemma_class_bound(*self.lex, t.subrange(i, j as int));
        }
        match dfa.class(state) {
            Some(c) => c,
            None => 0,
        }
    }
}

/// A class is the index of one of the expressions.
proof fn lemma_class_bound(lex: LexAnalyzer, w: Seq<u8>)
    requires
        lex.wf(),
    ensures
        lex.class_of(w) matches Some(c) ==> c < lex.spec_commands().len(),
{
    let next = lex.dfa.spec_next();
    lemma_run_in_range(next, 1, w);
}

/// For expressions free of complements, the class of a string is the index
/// of the first expression that matches it.
pub proof fn lemma_class_of(lex: LexAnalyzer, w: Seq<u8>)
    requires
        lex.wf(),
        vec_not_free(lex.spec_regexes()),
    ensures
        lex.class_of(w) == first_match(lex.spec_regexes(), w),
{
}

proof fn lemma_scan_token(lex: LexAnalyzer, t: Seq<u8>, i: int)
    requires
        0 <= i,
        t.len() <= usize::MAX,
    ensures
        scan_from(lex, t, i).0 matches Some(Ok(tok)) ==> {
            &&& i <= tok.start < tok.end
            &&& tok.end == scan_from(lex, t, i).1 <= t.len()
            &&& longest(lex, t, tok.start as int) == Some(tok.end as int)
            &&& lex.class_of(t.subrange(tok.start as int, tok.end as int)) == Some(tok.class)
        },
    decreases t.len() - i,
{
    if i < t.len() {
        lemma_best_upto(lex, t, i, t.len() as int);
        match longest(lex, t, i) {
            None => {},
            Some(j) => {
                let c = lex.class_of(t.subrange(i, j))->Some_0;
                if i < j <= t.len() && lex.spec_commands()[c as int] == Command::Skip {
                    lemma_scan_token(lex, t, j);
                }
            },
        }
    }
}

/// Maximal munch: every token of a scan that succeeds is the longest
/// match at its start and has the class of its text; the tokens follow one
/// another through the text.
pub proof fn lemma_tokens_maximal_munch(lex: LexAnalyzer, t: Seq<u8>, i: int)
    requires
        0 <= i,
        t.len() <= usize::MAX,
        tokens_from(lex, t, i) is Ok,
    ensures
        ({
            let toks = tokens_from(lex, t, i)->Ok_0;
            &&& forall|k: int| 0 <= k < toks.len() ==> {
                &&& i <= (#[trigger] toks[k]).start < toks[k].end <= t.len()
                &&& longest(lex, t, toks[k].start as int) == Some(toks[k].end as int)
                &&& lex.class_of(t.subrange(toks[k].start as int, toks[k].end as int)) == Some(toks[k].class)
            }
            &&& forall|k: int| 0 <= k < toks.len() - 1 ==> (#[trigger] toks[k]).end <= toks[k + 1].start
        }),
    decreases t.len() - i,
{
    lemma_scan_token(lex, t, i);
    let (r, j) = scan_from(lex, t, i);
    match r {
        Some(Ok(tok)) => {
            if i < j <= t.len() {
                lemma_tokens_maximal_munch(lex, t, j);
                let rest = tokens_from(lex, t, j)->Ok_0;
                let toks = tokens_from(lex, t, i)->Ok_0;
                assert(toks == seq![tok] + rest);
                assert forall|k: int| 0 <= k < toks.len() implies {
                    &&& i <= (#[trigger] toks[k]).start < toks[k].end <= t.len()
                    &&& longest(lex, t, toks[k].start as int) == Some(toks[k].end as int)
                    &&& lex.class_of(t.subrange(toks[k].start as int, toks[k].end as int)) == Some(toks[k].class)
                } by {
                    if k > 0 {
                        assert(toks[k] == rest[k - 1]);
                    }
                }
                assert forall|k: int| 0 <= k < toks.len() - 1 implies (#[trigger] toks[k]).end <= toks[k + 1].start by {
                    if k > 0 {
                        assert(toks[k] == rest[k - 1]);
                        assert(toks[k + 1] == rest[k]);
                    } else {
                        assert(toks[1] == rest[0]);
                    }
                }
            }
        },
        _ => {},
    }
}

} // verus!
