//! Parser definitions with operator precedence: precedences of words and
//! productions, the resolution of shift/reduce conflicts they decide, and
//! LR(1) tables built with that resolution.

use vstd::prelude::*;
use crate::cfg::{Grammar, Symbol};
use crate::first::{first_key, terminals_below};
use crate::lex::{LexDef, LexAnalyzer, copy_strings};
use crate::lr1::{Item, LR1A, State, is_lr1a, transitions_ok, has_transition, lemma_lr1a_items_ok, item_ok};
use crate::syn::{Action, Reduction, target, goto_entry};

verus! {

/// How operators of one precedence level group.
#[derive(Clone, Copy, Debug, PartialEq, Eq, Structural)]
pub enum Associativity {
    Left,
    Right,
    Nonassoc,
}

/// A precedence: a level (higher binds tighter) and an associativity.
#[derive(Clone, Copy, Debug, PartialEq, Eq, Structural)]
pub struct Precedence {
    pub level: usize,
    pub associativity: Associativity,
}

/// A conflict met while filling an LR(1) table.
#[derive(Clone, Copy, Debug, PartialEq, Eq, Structural)]
pub enum Conflict {
    /// Shifting `word` (to `next_state`) or reducing by `production`.
    ShiftReduce { word: usize, next_state: usize, production: usize },
    /// Reducing by either of two productions.
    ReduceReduce { production1: usize, production2: usize },
}

/// A conflict that the precedences do not resolve, and its state.
#[derive(Clone, Copy, Debug, PartialEq, Eq, Structural)]
pub struct ConstructionError {
    pub state: usize,
    pub conflict: Conflict,
}

/// A parser definition: a lexer definition, variable names, a grammar, and
/// the precedences of words and productions.
pub struct ParserDef {
    pub lexer_def: LexDef,
    pub var_names: Vec<String>,
    pub grammar: Grammar,
    pub token_precedence: Vec<Option<Precedence>>,
    pub production_precedence: Vec<Option<Precedence>>,
}

/// How a conflict is resolved under the precedences `tp` (of words) and
/// `pp` (of productions): a shift/reduce conflict is reduced where the
/// production binds tighter than the word, or as tightly and to the left,
/// and shifted otherwise (also where either has no precedence); a
/// reduce/reduce conflict stays.
pub open spec fn resolve(tp: Seq<Option<Precedence>>, pp: Seq<Option<Precedence>>, c: Conflict) -> Result<Action, Conflict> {
    match c {
        Conflict::ShiftReduce { word, next_state, production } => {
            match (tp[word as int], pp[production as int]) {
                (Some(tok), Some(prod)) => if prod.level > tok.level || (prod.level == tok.level && prod.associativity == Associativity::Left) {
                    Ok(Action::Reduce(production))
                } else {
                    Ok(Action::Shift(next_state))
                },
                _ => Ok(Action::Shift(next_state)),
            }
        },
        Conflict::ReduceReduce { .. } => Err(c),
    }
}

/// Laws of conflict resolution: a reduce/reduce conflict is never
/// resolved; a shift/reduce conflict resolves to shifting its word or to
/// reducing by its production, nothing else; it shifts whenever the word or
/// the production has no precedence; where both have one, it reduces when
/// the production's level is higher, shifts when it is lower, and at equal
/// levels reduces exactly for left associativity.
pub proof fn lemma_resolution_laws(tp: Seq<Option<Precedence>>, pp: Seq<Option<Precedence>>, c: Conflict)
    ensures
        c is ReduceReduce ==> resolve(tp, pp, c) == Err::<Action, Conflict>(c),
        c is ShiftReduce ==> resolve(tp, pp, c) == Ok::<Action, Conflict>(Action::Shift(c->next_state))
            || resolve(tp, pp, c) == Ok::<Action, Conflict>(Action::Reduce(c->production)),
        c is ShiftReduce && (tp[c->word as int] is None || pp[c->production as int] is None)
            ==> resolve(tp, pp, c) == Ok::<Action, Conflict>(Action::Shift(c->next_state)),
        c is ShiftReduce && tp[c->word as int] is Some && pp[c->production as int] is Some
            && pp[c->production as int]->0.level > tp[c->word as int]->0.level
            ==> resolve(tp, pp, c) == Ok::<Action, Conflict>(Action::Reduce(c->production)),
        c is ShiftReduce && tp[c->word as int] is Some && pp[c->production as int] is Some
            && pp[c->production as int]->0.level < tp[c->word as int]->0.level
            ==> resolve(tp, pp, c) == Ok::<Action, Conflict>(Action::Shift(c->next_state)),
        c is ShiftReduce && tp[c->word as int] is Some && pp[c->production as int] is Some
            && pp[c->production as int]->0.level == tp[c->word as int]->0.level
            ==> (resolve(tp, pp, c) == Ok::<Action, Conflict>(Action::Reduce(c->production))
                <==> pp[c->production as int]->0.associativity == Associativity::Left),
{
    match c {
        Conflict::ShiftReduce { word, next_state, production } => {
            if next_state == production {
                assert(Action::Shift(next_state) != Action::Reduce(production));
            }
        },
        _ => {},
    }
}

impl ParserDef {
    /// Resolves a conflict met while filling the table (see `resolve`).
    pub fn conflict_resolution(&self, conflict: Conflict) -> (r: Result<Action, Conflict>)
        requires
            conflict matches Conflict::ShiftReduce { word, production, .. } ==> word < self.token_precedence@.len() && production < self.production_precedence@.len(),
        ensures
            r == resolve(self.token_precedence@, self.production_precedence@, conflict),
    {
        match conflict {
            Conflict::ShiftReduce { word, next_state, production } => {
                let tok = match self.token_precedence[word] {
                    Some(tok) => tok,
                    None => {
                        return Ok(Action::Shift(next_state));
                    },
                };
                let prod = match self.production_precedence[production] {
                    Some(prod) => prod,
                    None => {
                        return Ok(Action::Shift(next_state));
                    },
                };
                if prod.level > tok.level || (prod.level == tok.level && prod.associativity == Associativity::Left) {
                    Ok(Action::Reduce(production))
                } else {
                    Ok(Action::Shift(next_state))
                }
            },
            Conflict::ReduceReduce { .. } => Err(conflict),
        }
    }
}

/// The precedence of the rightmost word of `w` that has one.
pub open spec fn rightmost_precedence(w: Seq<Symbol>, tp: Seq<Option<Precedence>>) -> Option<Precedence>
    decreases w.len(),
{
    if w.len() == 0 {
        None
    } else {
        match w.last() {
            Symbol::Terminal(a) => if tp[a as int] is Some {
                tp[a as int]
            } else {
                rightmost_precedence(w.drop_last(), tp)
            },
            Symbol::Variable(_) => rightmost_precedence(w.drop_last(), tp),
        }
    }
}

/// Builds a parser definition, its precedences set one by one.
pub struct ParserDefBuilder {
    def: ParserDef,
}

impl ParserDefBuilder {
    /// The definition under construction.
    pub closed spec fn spec_def(&self) -> &ParserDef {
        &self.def
    }

    /// The definition's precedence vectors fit its grammar.
    pub open spec fn wf(&self) -> bool {
        &&& self.spec_def().grammar.wf()
        &&& terminals_below(self.spec_def().grammar, self.spec_def().token_precedence@.len() as int)
        &&& self.spec_def().production_precedence@.len() == self.spec_def().grammar.spec_alt_count()
    }

    /// A builder with no precedences: one slot per word and per production.
    pub fn new(lexer_def: LexDef, var_names: Vec<String>, grammar: Grammar) -> (r: Self)
        requires
            grammar.wf(),
            forall|a: int, i: int| 0 <= a < grammar.spec_alt_count() && 0 <= i < grammar.spec_rhs(a).len() ==> (#[trigger] grammar.spec_rhs(a)[i] matches Symbol::Terminal(t) ==> t < usize::MAX),
        ensures
            r.wf(),
            r.spec_def().lexer_def == lexer_def,
            r.spec_def().var_names == var_names,
            r.spec_def().grammar == grammar,
            word_count_of(grammar, r.spec_def().token_precedence@.len()),
            forall|a: int| 0 <= a < r.spec_def().token_precedence@.len() ==> #[trigger] r.spec_def().token_precedence@[a] is None,
            forall|p: int| 0 <= p < r.spec_def().production_precedence@.len() ==> #[trigger] r.spec_def().production_precedence@[p] is None,
    {
        let word_count = grammar.word_count();
        let production_count = grammar.alt_count();
        let mut token_precedence: Vec<Option<Precedence>> = Vec::new();
        let mut i = 0usize;
        while i < word_count
            invariant
                i <= word_count,
                token_precedence@.len() == i,
                forall|a: int| 0 <= a < i ==> #[trigger] token_precedence@[a] is None,
            decreases word_count - i,
        {
            token_precedence.push(None);
            i += 1;
        }
        let mut production_precedence: Vec<Option<Precedence>> = Vec::new();
        let mut p = 0usize;
        while p < production_count
            invariant
                p <= production_count,
                production_precedence@.len() == p,
                forall|q: int| 0 <= q < p ==> #[trigger] production_precedence@[q] is None,
            decreases production_count - p,
        {
            production_precedence.push(None);
            p += 1;
        }
        let r = ParserDefBuilder { def: ParserDef { lexer_def, var_names, grammar, token_precedence, production_precedence } };
        proof {
            assert forall|a: int, i: int| 0 <= a < r.def.grammar.spec_alt_count() && 0 <= i < r.def.grammar.spec_rhs(a).len() implies (#[trigger] r.def.grammar.spec_rhs(a)[i] matches Symbol::Terminal(t) ==> t < word_count) by {}
        }
        r
    }

    /// Sets the precedence of word `word`.
    pub fn set_token_precedence(&mut self, word: usize, precedence: Precedence)
        requires
            old(self).wf(),
            word < old(self).spec_def().token_precedence@.len(),
        ensures
            final(self).wf(),
            final(self).spec_def().lexer_def == old(self).spec_def().lexer_def,
            final(self).spec_def().var_names == old(self).spec_def().var_names,
            final(self).spec_def().grammar == old(self).spec_def().grammar,
            final(self).spec_def().token_precedence@ == old(self).spec_def().token_precedence@.update(word as int, Some(precedence)),
            final(self).spec_def().production_precedence@ == old(self).spec_def().production_precedence@,
    {
        self.def.token_precedence.set(word, Some(precedence));
    }

    /// Sets the precedence of production `production`.
    pub fn set_production_precedence(&mut self, production: usize, precedence: Precedence)
        requires
            old(self).wf(),
            production < old(self).spec_def().production_precedence@.len(),
        ensures
            final(self).wf(),
            final(self).spec_def().lexer_def == old(self).spec_def().lexer_def,
            final(self).spec_def().var_names == old(self).spec_def().var_names,
            final(self).spec_def().grammar == old(self).spec_def().grammar,
            final(self).spec_def().token_precedence@ == old(self).spec_def().token_precedence@,
            final(self).spec_def().production_precedence@ == old(self).spec_def().production_precedence@.update(production as int, Some(precedence)),
    {
        self.def.production_precedence.set(production, Some(precedence));
    }

    /// The definition, where a production without a precedence takes that
    /// of its rightmost word that has one.
    pub fn build(self) -> (r: ParserDef)
        requires
            self.wf(),
        ensures
            r.lexer_def == self.spec_def().lexer_def,
            r.var_names == self.spec_def().var_names,
            r.grammar == self.spec_def().grammar,
            r.token_precedence@ == self.spec_def().token_precedence@,
            r.production_precedence@.len() == self.spec_def().production_precedence@.len(),
            forall|p: int| 0 <= p < r.production_precedence@.len() ==> #[trigger] r.production_precedence@[p] == (if self.spec_def().production_precedence@[p] is Some {
                self.spec_def().production_precedence@[p]
            } else {
                rightmost_precedence(r.grammar.spec_rhs(p), r.token_precedence@)
            }),
    {
        let ghost pp0 = self.def.production_precedence@;
        let ghost ld = self.def.lexer_def;
        let ghost vn = self.def.var_names;
        let mut def = self.def;
        let m = def.grammar.alt_count();
        let mut p = 0usize;
        while p < m
            invariant
                def.lexer_def == ld,
                def.var_names == vn,
                def.grammar.wf(),
                m == def.grammar.spec_alt_count(),
                terminals_below(def.grammar, def.token_precedence@.len() as int),
                def.grammar == self.spec_def().grammar,
                def.token_precedence@ == self.spec_def().token_precedence@,
                def.production_precedence@.len() == m,
                pp0.len() == m,
                p <= m,
                forall|q: int| p <= q < m ==> #[trigger] def.production_precedence@[q] == pp0[q],
                forall|q: int| 0 <= q < p ==> #[trigger] def.production_precedence@[q] == (if pp0[q] is Some {
                    pp0[q]
                } else {
                    rightmost_precedence(def.grammar.spec_rhs(q), def.token_precedence@)
                }),
            decreases m - p,
        {
            if def.production_precedence[p].is_none() {
                let rhs = def.grammar.alt(p);
                let mut k = rhs.len();
                let mut found: Option<Precedence> = None;
                proof {
                    assert(rhs@.take(k as int) =~= rhs@);
                }
                while k > 0 && found.is_none()
                    invariant
                        def.grammar.wf(),
                        p < m,
                        m == def.grammar.spec_alt_count(),
                        rhs@ == def.grammar.spec_rhs(p as int),
                        terminals_below(def.grammar, def.token_precedence@.len() as int),
                        k <= rhs@.len(),
                        found is Some ==> found == rightmost_precedence(rhs@, def.token_precedence@),
                        found is None ==> rightmost_precedence(rhs@.take(k as int), def.token_precedence@) == rightmost_precedence(rhs@, def.token_precedence@),
                    decreases k,
                {
                    let ghost w = rhs@.take(k as int);
                    proof {
                        assert(w.last() == rhs@[k - 1]);
                        assert(w.drop_last() =~= rhs@.take(k - 1));
                    }
                    match rhs[k - 1] {
                        Symbol::Terminal(a) => {
                            assert(def.grammar.spec_rhs(p as int)[k - 1] == Symbol::Terminal(a));
                            if def.token_precedence[a].is_some() {
                                found = def.token_precedence[a];
                            }
                        },
                        Symbol::Variable(_) => {},
                    }
                    k -= 1;
                }
                proof {
                    if found is None {
                        assert(k == 0);
                        assert(rhs@.take(0) =~= Seq::<Symbol>::empty());
                    }
                }
                def.production_precedence.set(p, found);
            }
            p += 1;
        }
        def
    }
}

/// Enters item `it` of a state with transitions `next` into `row`,
/// resolving conflicts under the precedences `tp` and `pp`: a shift for a
/// word at the dot, a reduction on the lookahead of a complete item (of a
/// rule other than the start one), Accept on the end of input for the
/// complete start item.
pub open spec fn res_step(g: Grammar, tp: Seq<Option<Precedence>>, pp: Seq<Option<Precedence>>, next: Seq<(Symbol, usize)>, row: Seq<Action>, it: Item) -> Result<Seq<Action>, Conflict> {
    let rhs = g.spec_rhs(it.alt as int);
    if it.pos < rhs.len() {
        match rhs[it.pos as int] {
            Symbol::Terminal(word) => {
                let col = word + 1;
                let ns = target(next, Symbol::Terminal(word));
                match row[col] {
                    Action::Reduce(p) => match resolve(tp, pp, Conflict::ShiftReduce { word, next_state: ns, production: p }) {
                        Ok(a) => Ok(row.update(col, a)),
                        Err(c) => Err(c),
                    },
                    _ => Ok(row.update(col, Action::Shift(ns))),
                }
            },
            Symbol::Variable(_) => Ok(row),
        }
    } else if g.spec_alt_rule()[it.alt as int] < g.spec_rule_count() - 1 {
        let col = first_key(it.successor);
        match row[col] {
            Action::Shift(st) => match resolve(tp, pp, Conflict::ShiftReduce { word: (col - 1) as usize, next_state: st, production: it.alt }) {
                Ok(a) => Ok(row.update(col, a)),
                Err(c) => Err(c),
            },
            Action::Reduce(p1) => match resolve(tp, pp, Conflict::ReduceReduce { production1: p1, production2: it.alt }) {
                Ok(a) => Ok(row.update(col, a)),
                Err(c) => Err(c),
            },
            _ => Ok(row.update(col, Action::Reduce(it.alt))),
        }
    } else {
        Ok(row.update(0, Action::Accept))
    }
}

/// The row of a state after entering its first `k` items, from a row of
/// `width` Invalid entries; the first unresolved conflict, if any.
pub open spec fn res_fold(g: Grammar, tp: Seq<Option<Precedence>>, pp: Seq<Option<Precedence>>, next: Seq<(Symbol, usize)>, its: Seq<Item>, k: int, width: nat) -> Result<Seq<Action>, Conflict>
    decreases k,
{
    if k <= 0 {
        Ok(Seq::new(width, |c: int| Action::Invalid))
    } else {
        match res_fold(g, tp, pp, next, its, k - 1, width) {
            Err(c) => Err(c),
            Ok(row) => res_step(g, tp, pp, next, row, its[k - 1]),
        }
    }
}

/// Once a conflict is left unresolved, it is the outcome of the whole row.
proof fn lemma_res_fold_err(g: Grammar, tp: Seq<Option<Precedence>>, pp: Seq<Option<Precedence>>, next: Seq<(Symbol, usize)>, its: Seq<Item>, k: int, m: int, width: nat, c: Conflict)
    requires
        0 <= k <= m,
        res_fold(g, tp, pp, next, its, k, width) == Err::<Seq<Action>, Conflict>(c),
    ensures
        res_fold(g, tp, pp, next, its, m, width) == Err::<Seq<Action>, Conflict>(c),
    decreases m - k,
{
    if k < m {
        lemma_res_fold_err(g, tp, pp, next, its, k + 1, m, width, c);
    }
}

/// LR(1) tables whose conflicts were resolved by precedence.
pub struct NaiveLR1Table {
    actions: Vec<Vec<Action>>,
    gotos: Vec<Vec<Option<usize>>>,
    reductions: Vec<Reduction>,
    word_count: usize,
    var_count: usize,
}

impl NaiveLR1Table {
    /// The action table, one row per state.
    pub closed spec fn spec_actions(&self) -> Seq<Seq<Action>> {
        Seq::new(self.actions@.len(), |s: int| self.actions@[s]@)
    }

    /// The goto table, one row per state.
    pub closed spec fn spec_gotos(&self) -> Seq<Seq<Option<usize>>> {
        Seq::new(self.gotos@.len(), |s: int| self.gotos@[s]@)
    }

    /// What each alternative reduces to.
    pub closed spec fn spec_reductions(&self) -> Seq<Reduction> {
        self.reductions@
    }

    /// The number of columns of the action table (the words and the end of input).
    pub closed spec fn spec_word_count(&self) -> usize {
        self.word_count
    }

    /// The number of columns of the goto table.
    pub closed spec fn spec_var_count(&self) -> usize {
        self.var_count
    }

    /// What each alternative reduces to.
    pub(crate) fn reductions(&self) -> (r: &Vec<Reduction>)
        ensures
            r@ == self.spec_reductions(),
    {
        &self.reductions
    }

    /// The number of states.
    pub(crate) fn state_count(&self) -> (r: usize)
        ensures
            r == self.spec_actions().len(),
    {
        self.actions.len()
    }

    /// The action row of `state`.
    pub(crate) fn action_row(&self, state: usize) -> (r: &Vec<Action>)
        requires
            state < self.spec_actions().len(),
        ensures
            r@ == self.spec_actions()[state as int],
    {
        &self.actions[state]
    }

    /// The goto row of `state`.
    pub(crate) fn goto_row(&self, state: usize) -> (r: &Vec<Option<usize>>)
        requires
            state < self.spec_gotos().len(),
        ensures
            r@ == self.spec_gotos()[state as int],
    {
        &self.gotos[state]
    }

    /// The action of `state` when the next word is `word` (`None`: end of input).
    pub fn action(&self, state: usize, word: Option<usize>) -> (r: Action)
        requires
            state < self.spec_actions().len(),
            self.spec_actions()[state as int].len() == self.spec_word_count(),
            word matches Some(a) ==> a + 1 < self.spec_word_count(),
            self.spec_word_count() >= 1,
        ensures
            r == self.spec_actions()[state as int][first_key(word)],
    {
        let row = &self.actions[state];
        assert(row@ == self.spec_actions()[state as int]);
        match word {
            None => row[0],
            Some(a) => row[a + 1],
        }
    }

    /// The state to go to from `state` after reducing to variable `var`.
    pub fn goto(&self, state: usize, var: usize) -> (r: Option<usize>)
        requires
            state < self.spec_gotos().len(),
            var < self.spec_gotos()[state as int].len(),
        ensures
            r == self.spec_gotos()[state as int][var as int],
    {
        let row = &self.gotos[state];
        assert(row@ == self.spec_gotos()[state as int]);
        row[var]
    }

    /// What reducing by alternative `alt` produces.
    pub fn reduction(&self, alt: usize) -> (r: Reduction)
        requires
            alt < self.spec_reductions().len(),
        ensures
            r == self.spec_reductions()[alt as int],
    {
        self.reductions[alt]
    }
}

/// The outcome of building tables with conflict resolution over the LR(1)
/// automaton `items`/`nexts` of `g`, with `width` action columns: tables
/// exactly when every state's row is filled without an unresolved
/// conflict; else the first state with one, and its conflict.
pub open spec fn resolved_outcome(g: Grammar, tp: Seq<Option<Precedence>>, pp: Seq<Option<Precedence>>, width: nat, items: Seq<Seq<Item>>, nexts: Seq<Seq<(Symbol, usize)>>, r: Result<NaiveLR1Table, ConstructionError>) -> bool {
    &&& (r is Ok <==> forall|s: int| 0 <= s < items.len() ==> #[trigger] res_fold(g, tp, pp, nexts[s], items[s], items[s].len() as int, width) is Ok)
    &&& (r matches Ok(t) ==> {
        &&& t.spec_word_count() == width
        &&& t.spec_var_count() == g.spec_rule_count() - 1
        &&& t.spec_actions().len() == items.len()
        &&& forall|s: int| 0 <= s < items.len() ==> Ok::<Seq<Action>, Conflict>(#[trigger] t.spec_actions()[s]) == res_fold(g, tp, pp, nexts[s], items[s], items[s].len() as int, width)
        &&& t.spec_gotos().len() == items.len()
        &&& forall|s: int| 0 <= s < items.len() ==> (#[trigger] t.spec_gotos()[s]).len() == g.spec_rule_count() - 1
        &&& forall|s: int, v: int| 0 <= s < items.len() && 0 <= v < g.spec_rule_count() - 1 ==> #[trigger] t.spec_gotos()[s][v] == goto_entry(nexts[s], v as usize)
        &&& t.spec_reductions().len() == g.spec_alt_count()
        &&& forall|a: int| 0 <= a < g.spec_alt_count() ==> #[trigger] t.spec_reductions()[a] == (Reduction { var: g.spec_alt_rule()[a], count: g.spec_rhs(a).len() as usize })
    })
    &&& (r matches Err(e) ==> {
        &&& e.state < items.len()
        &&& forall|s: int| 0 <= s < e.state ==> #[trigger] res_fold(g, tp, pp, nexts[s], items[s], items[s].len() as int, width) is Ok
        &&& res_fold(g, tp, pp, nexts[e.state as int], items[e.state as int], items[e.state as int].len() as int, width) == Err::<Seq<Action>, Conflict>(e.conflict)
    })
}

/// The action row of one state, resolving conflicts by precedence.
fn resolved_row(def: &ParserDef, width: usize, its: &Vec<Item>, next: &Vec<(Symbol, usize)>) -> (r: Result<Vec<Action>, Conflict>)
    requires
        def.grammar.wf(),
        width >= 1,
        terminals_below(def.grammar, width - 1),
        width - 1 <= def.token_precedence@.len(),
        def.production_precedence@.len() == def.grammar.spec_alt_count(),
        forall|k: int| 0 <= k < its@.len() ==> item_ok(def.grammar, width - 1, #[trigger] its@[k]),
        forall|t1: int, t2: int| 0 <= t1 < t2 < next@.len() ==> (#[trigger] next@[t1]).0 != (#[trigger] next@[t2]).0,
        forall|k: int| 0 <= k < its@.len() && (#[trigger] crate::lr1::at_dot(def.grammar, its@[k])) is Some ==> has_transition(next@, crate::lr1::at_dot(def.grammar, its@[k])->Some_0),
    ensures
        r matches Ok(row) ==> Ok::<Seq<Action>, Conflict>(row@) == res_fold(def.grammar, def.token_precedence@, def.production_precedence@, next@, its@, its@.len() as int, width as nat),
        r matches Err(c) ==> Err::<Seq<Action>, Conflict>(c) == res_fold(def.grammar, def.token_precedence@, def.production_precedence@, next@, its@, its@.len() as int, width as nat),
{
    let ghost g = def.grammar;
    let ghost tp = def.token_precedence@;
    let ghost pp = def.production_precedence@;
    let nv = def.grammar.rule_count() - 1;
    let mut row: Vec<Action> = Vec::new();
    let mut c = 0usize;
    while c < width
        invariant
            c <= width,
            row@.len() == c,
            forall|d: int| 0 <= d < c ==> #[trigger] row@[d] == Action::Invalid,
        decreases width - c,
    {
        row.push(Action::Invalid);
        c += 1;
    }
    assert(row@ =~= Seq::new(width as nat, |d: int| Action::Invalid));
    let mut k = 0usize;
    while k < its.len()
        invariant
            g == def.grammar,
            tp == def.token_precedence@,
            pp == def.production_precedence@,
            g.wf(),
            nv == g.spec_rule_count() - 1,
            width >= 1,
            terminals_below(g, width - 1),
            width - 1 <= tp.len(),
            pp.len() == g.spec_alt_count(),
            forall|kk: int| 0 <= kk < its@.len() ==> item_ok(g, width - 1, #[trigger] its@[kk]),
            forall|t1: int, t2: int| 0 <= t1 < t2 < next@.len() ==> (#[trigger] next@[t1]).0 != (#[trigger] next@[t2]).0,
            forall|kk: int| 0 <= kk < its@.len() && (#[trigger] crate::lr1::at_dot(g, its@[kk])) is Some ==> has_transition(next@, crate::lr1::at_dot(g, its@[kk])->Some_0),
            k <= its@.len(),
            row@.len() == width,
            !(row@[0] is Shift),
            forall|d: int| 0 <= d < width ==> (#[trigger] row@[d] matches Action::Reduce(p) ==> p < g.spec_alt_count()),
            Ok::<Seq<Action>, Conflict>(row@) == res_fold(g, tp, pp, next@, its@, k as int, width as nat),
        decreases its@.len() - k,
    {
        let item = its[k];
        let ghost ki = k as int;
        assert(item_ok(g, width - 1, its@[ki]));
        let rhs = def.grammar.alt(item.alt);
        let ghost row0 = row@;
        assert(res_fold(g, tp, pp, next@, its@, ki + 1, width as nat) == res_step(g, tp, pp, next@, row0, its@[ki]));
        if item.pos < rhs.len() {
            match rhs[item.pos] {
                Symbol::Terminal(word) => {
                    assert(g.spec_rhs(item.alt as int)[item.pos as int] == Symbol::Terminal(word));
                    assert(crate::lr1::at_dot(g, its@[ki]) == Some(Symbol::Terminal(word)));
                    let ns = crate::syn::find_target(next, Symbol::Terminal(word));
                    let col = word + 1;
                    match row[col] {
                        Action::Reduce(p) => {
                            match def.conflict_resolution(Conflict::ShiftReduce { word, next_state: ns, production: p }) {
                                Ok(a) => {
                                    row.set(col, a);
                                },
                                Err(cf) => {
                                    proof { lemma_res_fold_err(g, tp, pp, next@, its@, ki + 1, its@.len() as int, width as nat, cf); }
                                    return Err(cf);
                                },
                            }
                        },
                        _ => {
                            row.set(col, Action::Shift(ns));
                        },
                    }
                },
                Symbol::Variable(_) => {},
            }
        } else if def.grammar.alt_rule(item.alt) < nv {
            let col = match item.successor {
                None => 0,
                Some(a) => a + 1,
            };
            match row[col] {
                Action::Shift(st) => {
                    match def.conflict_resolution(Conflict::ShiftReduce { word: col - 1, next_state: st, production: item.alt }) {
                        Ok(a) => {
                            row.set(col, a);
                        },
                        Err(cf) => {
                            proof { lemma_res_fold_err(g, tp, pp, next@, its@, ki + 1, its@.len() as int, width as nat, cf); }
                            return Err(cf);
                        },
                    }
                },
                Action::Reduce(p1) => {
                    match def.conflict_resolution(Conflict::ReduceReduce { production1: p1, production2: item.alt }) {
                        Ok(a) => {
                            row.set(col, a);
                        },
                        Err(cf) => {
                            proof { lemma_res_fold_err(g, tp, pp, next@, its@, ki + 1, its@.len() as int, width as nat, cf); }
                            return Err(cf);
                        },
                    }
                },
                _ => {
                    row.set(col, Action::Reduce(item.alt));
                },
            }
        } else {
            row.set(0, Action::Accept);
        }
        k += 1;
    }
    Ok(row)
}

/// `wc` is the number of words of `g`: one more than its greatest word, or
/// zero where it has none.
pub open spec fn word_count_of(g: Grammar, wc: nat) -> bool {
    &&& terminals_below(g, wc as int)
    &&& (wc == 0 || exists|a: int, i: int| 0 <= a < g.spec_alt_count() && 0 <= i < g.spec_rhs(a).len() && #[trigger] g.spec_rhs(a)[i] == Symbol::Terminal((wc - 1) as usize))
}

/// The canonical LR(1) table construction.
pub struct LR1;

/// A construction of parsing tables from an automaton of item sets.
pub trait LR1TableConstruction {
    /// `items`/`nexts` is the automaton of `g` whose tables this
    /// construction builds.
    spec fn builds_from(&self, g: Grammar, items: Seq<Seq<Item>>, nexts: Seq<Seq<(Symbol, usize)>>) -> bool;

    /// The tables of the definition's grammar, with one action column per
    /// word and one for the end of input, conflicts resolved by its
    /// precedences; or the first conflict they leave.
    fn construct(&self, def: &ParserDef) -> (r: Result<NaiveLR1Table, ConstructionError>)
        requires
            def.grammar.wf(),
            terminals_below(def.grammar, usize::MAX - 1),
            terminals_below(def.grammar, def.token_precedence@.len() as int),
            def.production_precedence@.len() == def.grammar.spec_alt_count(),
        ensures
            exists|wc: nat, items: Seq<Seq<Item>>, nexts: Seq<Seq<(Symbol, usize)>>| #![trigger word_count_of(def.grammar, wc), self.builds_from(def.grammar, items, nexts)] {
                &&& word_count_of(def.grammar, wc)
                &&& self.builds_from(def.grammar, items, nexts)
                &&& resolved_outcome(def.grammar, def.token_precedence@, def.production_precedence@, wc + 1, items, nexts, r)
            };
}

impl LR1TableConstruction for LR1 {
    /// The canonical LR(1) automaton.
    open spec fn builds_from(&self, g: Grammar, items: Seq<Seq<Item>>, nexts: Seq<Seq<(Symbol, usize)>>) -> bool {
        is_lr1a(g, items, nexts)
    }

    fn construct(&self, def: &ParserDef) -> (r: Result<NaiveLR1Table, ConstructionError>)
    {
        let lr1a = LR1A::from(&def.grammar);
        let r = lr1a.build_lr1_table(def);
        proof {
            let wc = choose|wc: nat| #[trigger] word_count_of(def.grammar, wc)
                && resolved_outcome(def.grammar, def.token_precedence@, def.production_precedence@, wc + 1, lr1a.spec_items(), lr1a.spec_nexts(), r);
            assert(self.builds_from(def.grammar, lr1a.spec_items(), lr1a.spec_nexts()));
        }
        r
    }
}

impl LR1A {
    /// The tables of this automaton of the definition's grammar, with one
    /// action column per word and one for the end of input, conflicts
    /// resolved by its precedences; or the first conflict they leave.
    pub fn build_lr1_table(&self, def: &ParserDef) -> (r: Result<NaiveLR1Table, ConstructionError>)
        requires
            def.grammar.wf(),
            terminals_below(def.grammar, usize::MAX - 1),
            terminals_below(def.grammar, def.token_precedence@.len() as int),
            def.production_precedence@.len() == def.grammar.spec_alt_count(),
            is_lr1a(def.grammar, self.spec_items(), self.spec_nexts()),
        ensures
            exists|wc: nat| #[trigger] word_count_of(def.grammar, wc)
                && resolved_outcome(def.grammar, def.token_precedence@, def.production_precedence@, wc + 1, self.spec_items(), self.spec_nexts(), r),
    {
        let wc = word_count_bounded(def);
        let ghost g = def.grammar;
        let ghost items = self.spec_items();
        let ghost nexts = self.spec_nexts();
        proof {
            assert forall|s: int, k: int| 0 <= s < items.len() && 0 <= k < items[s].len() implies item_ok(g, wc as int, #[trigger] items[s][k]) by {
                lemma_lr1a_items_ok(g, wc as int, items, nexts, s);
            }
            assert forall|s: int, t1: int, t2: int| 0 <= s < items.len() && 0 <= t1 < t2 < nexts[s].len() implies (#[trigger] nexts[s][t1]).0 != (#[trigger] nexts[s][t2]).0 by {
                assert(transitions_ok(g, items, s, nexts[s]));
            }
            assert forall|s: int, k: int| 0 <= s < items.len() && 0 <= k < items[s].len() && (#[trigger] crate::lr1::at_dot(g, items[s][k])) is Some implies has_transition(nexts[s], crate::lr1::at_dot(g, items[s][k])->Some_0) by {
                assert(transitions_ok(g, items, s, nexts[s]));
            }
        }
        let r = tables_from_states(def, wc, self.states(), Ghost(items), Ghost(nexts));
        assert(word_count_of(def.grammar, wc as nat));
        r
    }
}

/// The number of words of the definition's grammar, which its precedences
/// cover.
pub(crate) fn word_count_bounded(def: &ParserDef) -> (wc: usize)
    requires
        def.grammar.wf(),
        terminals_below(def.grammar, usize::MAX - 1),
        terminals_below(def.grammar, def.token_precedence@.len() as int),
    ensures
        word_count_of(def.grammar, wc as nat),
        wc < usize::MAX,
        wc <= def.token_precedence@.len(),
{
    let grammar = &def.grammar;
    let ghost g = *grammar;
    proof {
        assert forall|a: int, i: int| 0 <= a < g.spec_alt_count() && 0 <= i < g.spec_rhs(a).len() implies (#[trigger] g.spec_rhs(a)[i] matches Symbol::Terminal(t) ==> t < usize::MAX) by {}
    }
    let wc = grammar.word_count();
    proof {
        if wc > 0 {
            let (a, i) = choose|a: int, i: int| 0 <= a < g.spec_alt_count() && 0 <= i < g.spec_rhs(a).len() && #[trigger] g.spec_rhs(a)[i] == Symbol::Terminal((wc - 1) as usize);
            assert(g.spec_rhs(a)[i] matches Symbol::Terminal(t) ==> t < usize::MAX - 1);
            assert(g.spec_rhs(a)[i] matches Symbol::Terminal(t) ==> t < def.token_precedence@.len());
        }
        assert forall|a: int, i: int| 0 <= a < g.spec_alt_count() && 0 <= i < g.spec_rhs(a).len() implies (#[trigger] g.spec_rhs(a)[i] matches Symbol::Terminal(t) ==> t < wc) by {}
    }
    wc
}

/// The tables of an automaton of the definition's grammar given by its
/// states (items `items`, transitions `nexts`), whose items fit `wc` words
/// and whose transitions cover the symbols at their dots, once each.
pub(crate) fn tables_from_states(def: &ParserDef, wc: usize, states: &[State], Ghost(items): Ghost<Seq<Seq<Item>>>, Ghost(nexts): Ghost<Seq<Seq<(Symbol, usize)>>>) -> (r: Result<NaiveLR1Table, ConstructionError>)
    requires
        def.grammar.wf(),
        word_count_of(def.grammar, wc as nat),
        wc < usize::MAX,
        wc <= def.token_precedence@.len(),
        def.production_precedence@.len() == def.grammar.spec_alt_count(),
        states@.len() == items.len(),
        nexts.len() == items.len(),
        forall|s: int| 0 <= s < states@.len() ==> (#[trigger] states@[s]).items@ == items[s] && states@[s].next@ == nexts[s],
        forall|s: int, k: int| 0 <= s < items.len() && 0 <= k < items[s].len() ==> item_ok(def.grammar, wc as int, #[trigger] items[s][k]),
        forall|s: int, t1: int, t2: int| 0 <= s < items.len() && 0 <= t1 < t2 < nexts[s].len() ==> (#[trigger] nexts[s][t1]).0 != (#[trigger] nexts[s][t2]).0,
        forall|s: int, k: int| 0 <= s < items.len() && 0 <= k < items[s].len() && (#[trigger] crate::lr1::at_dot(def.grammar, items[s][k])) is Some ==> has_transition(nexts[s], crate::lr1::at_dot(def.grammar, items[s][k])->Some_0),
    ensures
        resolved_outcome(def.grammar, def.token_precedence@, def.production_precedence@, (wc as nat) + 1, items, nexts, r),
{
    let grammar = &def.grammar;
    let ghost g = *grammar;
        let width = wc + 1;
        let nv = grammar.rule_count() - 1;
        let mut actions: Vec<Vec<Action>> = Vec::new();
        let mut gotos: Vec<Vec<Option<usize>>> = Vec::new();
        let mut i = 0usize;
        while i < states.len()
            invariant
                g == *grammar,
                grammar == &def.grammar,
                g.wf(),
                width == wc + 1,
                word_count_of(g, wc as nat),
                wc <= def.token_precedence@.len(),
                def.production_precedence@.len() == g.spec_alt_count(),
                nv == g.spec_rule_count() - 1,
                nexts.len() == items.len(),
                forall|s: int, k: int| 0 <= s < items.len() && 0 <= k < items[s].len() ==> item_ok(g, wc as int, #[trigger] items[s][k]),
                forall|s: int, t1: int, t2: int| 0 <= s < items.len() && 0 <= t1 < t2 < nexts[s].len() ==> (#[trigger] nexts[s][t1]).0 != (#[trigger] nexts[s][t2]).0,
                forall|s: int, k: int| 0 <= s < items.len() && 0 <= k < items[s].len() && (#[trigger] crate::lr1::at_dot(g, items[s][k])) is Some ==> has_transition(nexts[s], crate::lr1::at_dot(g, items[s][k])->Some_0),
                states@.len() == items.len(),
                forall|s: int| 0 <= s < states@.len() ==> (#[trigger] states@[s]).items@ == items[s] && states@[s].next@ == nexts[s],
                i <= items.len(),
                actions@.len() == i,
                gotos@.len() == i,
                forall|s: int| 0 <= s < i ==> Ok::<Seq<Action>, Conflict>((#[trigger] actions@[s])@) == res_fold(g, def.token_precedence@, def.production_precedence@, nexts[s], items[s], items[s].len() as int, width as nat),
                forall|s: int| 0 <= s < i ==> (#[trigger] gotos@[s])@.len() == nv,
                forall|s: int, v: int| 0 <= s < i && 0 <= v < nv ==> #[trigger] gotos@[s]@[v] == goto_entry(nexts[s], v as usize),
            decreases items.len() - i,
        {
            let state = &states[i];
            proof {
                assert(state.items@ == items[i as int]);
                assert(state.next@ == nexts[i as int]);
                assert forall|k: int| 0 <= k < state.items@.len() implies item_ok(g, wc as int, #[trigger] state.items@[k]) by {
                    assert(item_ok(g, wc as int, items[i as int][k]));
                }
                assert forall|t1: int, t2: int| 0 <= t1 < t2 < state.next@.len() implies (#[trigger] state.next@[t1]).0 != (#[trigger] state.next@[t2]).0 by {
                    assert(nexts[i as int][t1].0 != nexts[i as int][t2].0);
                }
                assert forall|k: int| 0 <= k < state.items@.len() && (#[trigger] crate::lr1::at_dot(g, state.items@[k])) is Some implies has_transition(state.next@, crate::lr1::at_dot(g, state.items@[k])->Some_0) by {
                    assert(crate::lr1::at_dot(g, items[i as int][k]) is Some);
                }
            }
            match resolved_row(def, width, &state.items, &state.next) {
                Ok(row) => {
                    actions.push(row);
                },
                Err(conflict) => {
                    let e = ConstructionError { state: i, conflict };
                    proof {
                        assert(state.items@ == items[i as int]);
                        assert(res_fold(g, def.token_precedence@, def.production_precedence@, nexts[i as int], items[i as int], items[i as int].len() as int, width as nat) == Err::<Seq<Action>, Conflict>(conflict));
                        assert forall|s: int| 0 <= s < i implies #[trigger] res_fold(g, def.token_precedence@, def.production_precedence@, nexts[s], items[s], items[s].len() as int, width as nat) is Ok by {
                            assert(Ok::<Seq<Action>, Conflict>(actions@[s]@) == res_fold(g, def.token_precedence@, def.production_precedence@, nexts[s], items[s], items[s].len() as int, width as nat));
                        }
                        assert(resolved_outcome(g, def.token_precedence@, def.production_precedence@, width as nat, items, nexts, Err(e)));
                        assert(word_count_of(g, wc as nat));
                    }
                    return Err(e);
                },
            }
            gotos.push(crate::syn::build_goto_row(nv, &state.next));
            i += 1;
        }
        let reductions = crate::syn::build_reductions(grammar);
        let t = NaiveLR1Table { actions, gotos, reductions, word_count: width, var_count: nv };
        proof {
            assert forall|s: int| 0 <= s < items.len() implies Ok::<Seq<Action>, Conflict>(#[trigger] t.spec_actions()[s]) == res_fold(g, def.token_precedence@, def.production_precedence@, nexts[s], items[s], items[s].len() as int, width as nat) by {
                assert(t.spec_actions()[s] == t.actions@[s]@);
            }
            assert forall|s: int, v: int| 0 <= s < items.len() && 0 <= v < nv implies #[trigger] t.spec_gotos()[s][v] == goto_entry(nexts[s], v as usize) by {
                assert(t.spec_gotos()[s] == t.gotos@[s]@);
            }
            assert forall|s: int| 0 <= s < items.len() implies (#[trigger] t.spec_gotos()[s]).len() == nv by {
                assert(t.spec_gotos()[s] == t.gotos@[s]@);
            }
            assert forall|s: int| 0 <= s < items.len() implies #[trigger] res_fold(g, def.token_precedence@, def.production_precedence@, nexts[s], items[s], items[s].len() as int, width as nat) is Ok by {
                assert(Ok::<Seq<Action>, Conflict>(actions@[s]@) == res_fold(g, def.token_precedence@, def.production_precedence@, nexts[s], items[s], items[s].len() as int, width as nat));
            }
            assert(resolved_outcome(g, def.token_precedence@, def.production_precedence@, width as nat, items, nexts, Ok::<NaiveLR1Table, ConstructionError>(t)));
        }
        Ok(t)
}

/// A parser: a lexer, the names of the variables, and the parsing tables.
pub struct Parser {
    pub lexer: LexAnalyzer,
    pub var_names: Vec<String>,
    pub parsing_table: NaiveLR1Table,
}

/// The tables of a parser built, or the error of its construction.
pub open spec fn table_result(r: Result<Parser, ConstructionError>) -> Result<NaiveLR1Table, ConstructionError> {
    match r {
        Ok(p) => Ok(p.parsing_table),
        Err(e) => Err(e),
    }
}

impl ParserDef {
    /// The parser of the definition: its lexer compiled, its variable
    /// names, and its tables built by `strategy` with conflicts resolved
    /// by precedence; or the conflict that precedence leaves.
    pub fn build<S: LR1TableConstruction>(&self, strategy: &S) -> (r: Result<Parser, ConstructionError>)
        requires
            forall|k: int| 0 <= k < self.lexer_def.regexes@.len() ==> #[trigger] crate::regex::wf(self.lexer_def.regexes@[k]),
            self.lexer_def.commands@.len() == self.lexer_def.regexes@.len(),
            self.grammar.wf(),
            terminals_below(self.grammar, usize::MAX - 1),
            terminals_below(self.grammar, self.token_precedence@.len() as int),
            self.production_precedence@.len() == self.grammar.spec_alt_count(),
        ensures
            r matches Ok(p) ==> {
                &&& p.lexer.wf()
                &&& p.lexer.spec_regexes() == self.lexer_def.regexes@
                &&& p.lexer.spec_commands() == self.lexer_def.commands@
                &&& p.lexer.spec_labels() == self.lexer_def.labels@
                &&& p.var_names@ == self.var_names@
            },
            exists|wc: nat, items: Seq<Seq<Item>>, nexts: Seq<Seq<(Symbol, usize)>>| #![trigger word_count_of(self.grammar, wc), strategy.builds_from(self.grammar, items, nexts)] {
                &&& word_count_of(self.grammar, wc)
                &&& strategy.builds_from(self.grammar, items, nexts)
                &&& resolved_outcome(self.grammar, self.token_precedence@, self.production_precedence@, wc + 1, items, nexts, table_result(r))
            },
    {
        let lexer = LexAnalyzer::compile(&self.lexer_def);
        let t = strategy.construct(self);
        let ghost tr = t;
        match t {
            Ok(parsing_table) => {
                let var_names = copy_strings(&self.var_names);
                let r = Parser { lexer, var_names, parsing_table };
                assert(table_result(Ok::<Parser, ConstructionError>(r)) == tr);
                Ok(r)
            },
            Err(e) => Err(e),
        }
    }
}

} // verus!
