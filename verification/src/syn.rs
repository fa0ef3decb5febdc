//! Syntax analysis: LR(1) parsing tables compiled from a grammar, and the
//! table-driven parser that turns a sequence of words (terminal classes)
//! into shift and reduce instructions. What the parser accepts is a
//! sentence of the grammar, and it fails only where the tables have no action.

use vstd::prelude::*;
use crate::cfg::{Grammar, Symbol, lemma_alt_rule, derives_sym, derives_seq, in_language, lemma_derives_mono, lemma_derives_single, lemma_derives_append, lemma_derives_split};
use crate::first::{first_key, terminals_below};
use crate::lr1::{Item, LR1A, is_lr1a, item_ok, item_valid, item_lt, items_sorted, has_transition, transitions_ok, lemma_lr1a_items_ok, goto_of, lemma_goto_pos, at_dot, walk, is_suffix, before_dot, lemma_paths_end_with_items, lemma_goto_start_rule, origin, lemma_goto_origin, lemma_closure_generator, closure_of, goto_kernel, start_item, reached_from_earlier};

verus! {

/// What the parser does in a state, given the next word.
#[derive(Clone, Copy, Debug, PartialEq, Eq, Structural)]
pub enum Action {
    Invalid,
    Accept,
    Shift(usize),
    Reduce(usize),
}

/// What reducing by an alternative produces: its rule's variable, and the
/// number of symbols it consumes.
#[derive(Clone, Copy, Debug, PartialEq, Eq, Structural)]
pub struct Reduction {
    pub var: usize,
    pub count: usize,
}

/// The target of the transition of `next` on `x`.
pub open spec fn target(next: Seq<(Symbol, usize)>, x: Symbol) -> usize {
    next[choose|t: int| 0 <= t < next.len() && (#[trigger] next[t]).0 == x].1
}

/// The goto entry of a state for variable `v`.
pub open spec fn goto_entry(next: Seq<(Symbol, usize)>, v: usize) -> Option<usize> {
    if has_transition(next, Symbol::Variable(v)) {
        Some(target(next, Symbol::Variable(v)))
    } else {
        None
    }
}

/// The table column of a lookahead: 0 for the end of input, `a + 1` for word `a`.
pub open spec fn column(w: Option<usize>) -> int {
    first_key(w)
}

/// The entry that item `it` of a state with transitions `next` asks for,
/// as a column and an action: a shift on the word after its dot, or a
/// reduction on its lookahead where it is complete (the start rule on the
/// end of input excepted).
pub open spec fn item_action(g: Grammar, next: Seq<(Symbol, usize)>, it: Item) -> Option<(int, Action)> {
    let rhs = g.spec_rhs(it.alt as int);
    if it.pos < rhs.len() {
        match rhs[it.pos as int] {
            Symbol::Terminal(a) => Some((a + 1, Action::Shift(target(next, Symbol::Terminal(a))))),
            Symbol::Variable(_) => None,
        }
    } else if it.rule < g.spec_rule_count() - 1 || it.successor is Some {
        Some((column(it.successor), Action::Reduce(it.alt)))
    } else {
        None
    }
}

/// The item is the complete start item, which accepts on the end of input.
pub open spec fn is_accept(g: Grammar, it: Item) -> bool {
    &&& it.pos >= g.spec_rhs(it.alt as int).len()
    &&& !(it.rule < g.spec_rule_count() - 1 || it.successor is Some)
}

/// Two entries for one column that cannot share it: any pair but two shifts.
pub open spec fn clash(a1: Action, a2: Action) -> bool {
    !(a1 is Shift && a2 is Shift)
}

/// Items `x` and `y` ask for clashing entries in one column.
pub open spec fn conflicts_with(g: Grammar, next: Seq<(Symbol, usize)>, x: Item, y: Item) -> bool {
    &&& item_action(g, next, x) is Some
    &&& item_action(g, next, y) is Some
    &&& item_action(g, next, x)->Some_0.0 == item_action(g, next, y)->Some_0.0
    &&& clash(item_action(g, next, x)->Some_0.1, item_action(g, next, y)->Some_0.1)
}

/// Item `k` of `its` conflicts with an earlier item.
pub open spec fn item_conflicts(g: Grammar, its: Seq<Item>, next: Seq<(Symbol, usize)>, k: int) -> bool {
    exists|k2: int| 0 <= k2 < k && #[trigger] conflicts_with(g, next, its[k2], its[k])
}

/// Some item of the state conflicts with an earlier one.
pub open spec fn state_conflicts(g: Grammar, its: Seq<Item>, next: Seq<(Symbol, usize)>) -> bool {
    exists|k: int| 0 <= k < its.len() && #[trigger] item_conflicts(g, its, next, k)
}

/// Some of the first `n` items asks for an entry in column `col`.
pub open spec fn has_action_at(g: Grammar, its: Seq<Item>, next: Seq<(Symbol, usize)>, n: int, col: int) -> bool {
    exists|k: int| 0 <= k < n && #[trigger] item_action(g, next, its[k]) is Some && item_action(g, next, its[k])->Some_0.0 == col
}

/// Some of the first `n` items is the accepting one.
pub open spec fn has_accept(g: Grammar, its: Seq<Item>, n: int) -> bool {
    exists|k: int| 0 <= k < n && #[trigger] is_accept(g, its[k])
}

/// One of the first `n` items that asks for an entry in column `col`, where there is one.
pub open spec fn acting_item(g: Grammar, its: Seq<Item>, next: Seq<(Symbol, usize)>, n: int, col: int) -> int {
    choose|k: int| 0 <= k < n && #[trigger] item_action(g, next, its[k]) is Some && item_action(g, next, its[k])->Some_0.0 == col
}

/// The entry of column `col` once the first `n` items are entered: Accept
/// on the end of input where the accepting item is among them, else what
/// they ask for there, else Invalid.
pub open spec fn partial_action(g: Grammar, its: Seq<Item>, next: Seq<(Symbol, usize)>, n: int, col: int) -> Action {
    if col == 0 && has_accept(g, its, n) {
        Action::Accept
    } else if has_action_at(g, its, next, n, col) {
        item_action(g, next, its[acting_item(g, its, next, n, col)])->Some_0.1
    } else {
        Action::Invalid
    }
}

/// The action table entry of a state for column `col`.
pub open spec fn table_action(g: Grammar, its: Seq<Item>, next: Seq<(Symbol, usize)>, col: int) -> Action {
    partial_action(g, its, next, its.len() as int, col)
}

/// Why a grammar has no LR(1) table: in state `state`, `item` asks for
/// `action2` where an earlier item of the state put `action1`.
#[derive(Debug)]
pub struct CompileError {
    pub state: usize,
    pub item: Item,
    pub action1: Action,
    pub action2: Action,
}

/// A grammar and the number of its words (terminal classes).
pub struct SynDef {
    pub grammar: Grammar,
    pub word_count: usize,
}

/// LR(1) parsing tables: the action of each state for each lookahead, the
/// goto of each state for each variable, and what each alternative reduces to.
pub struct SynAnalyzer {
    actions: Vec<Vec<Action>>,
    gotos: Vec<Vec<Option<usize>>>,
    reductions: Vec<Reduction>,
    word_count: usize,
    var_count: usize,
    grammar: Ghost<Grammar>,
    items: Ghost<Seq<Seq<Item>>>,
    nexts: Ghost<Seq<Seq<(Symbol, usize)>>>,
}

/// The tables compiled from grammar `g` with `wc` words, over the LR(1)
/// automaton `items`/`nexts`, have the given shape and entries.
pub open spec fn tables_of(g: Grammar, wc: usize, items: Seq<Seq<Item>>, nexts: Seq<Seq<(Symbol, usize)>>, actions: Seq<Seq<Action>>, gotos: Seq<Seq<Option<usize>>>, reductions: Seq<Reduction>) -> bool {
    &&& actions.len() == items.len()
    &&& gotos.len() == items.len()
    &&& forall|s: int| 0 <= s < items.len() ==> (#[trigger] actions[s]).len() == wc + 1
    &&& forall|s: int, c: int| 0 <= s < items.len() && 0 <= c <= wc ==> #[trigger] actions[s][c] == table_action(g, items[s], nexts[s], c)
    &&& forall|s: int| 0 <= s < items.len() ==> (#[trigger] gotos[s]).len() == g.spec_rule_count() - 1
    &&& forall|s: int, v: int| 0 <= s < items.len() && 0 <= v < g.spec_rule_count() - 1 ==> #[trigger] gotos[s][v] == goto_entry(nexts[s], v as usize)
    &&& reductions.len() == g.spec_alt_count()
    &&& forall|a: int| 0 <= a < g.spec_alt_count() ==> #[trigger] reductions[a] == (Reduction { var: g.spec_alt_rule()[a], count: g.spec_rhs(a).len() as usize })
}

impl SynAnalyzer {
    /// The grammar the tables were compiled from.
    pub closed spec fn spec_grammar(&self) -> Grammar {
        self.grammar@
    }

    /// The item sets of the LR(1) automaton the tables were compiled from.
    pub closed spec fn spec_items(&self) -> Seq<Seq<Item>> {
        self.items@
    }

    /// The transitions of that automaton.
    pub closed spec fn spec_nexts(&self) -> Seq<Seq<(Symbol, usize)>> {
        self.nexts@
    }

    /// The action table, one row per state.
    pub closed spec fn spec_actions(&self) -> Seq<Seq<Action>> {
        Seq::new(self.actions@.len(), |s: int| self.actions@[s]@)
    }

    /// The goto table, one row per state.
    pub closed spec fn spec_gotos(&self) -> Seq<Seq<Option<usize>>> {
        Seq::new(self.gotos@.len(), |s: int| self.gotos@[s]@)
    }

    /// What each alternative reduces to.
    pub closed spec fn spec_reductions(&self) -> Seq<Reduction> {
        self.reductions@
    }

    /// The number of words.
    pub closed spec fn spec_word_count(&self) -> usize {
        self.word_count
    }

    /// The number of variables, the start variable excluded.
    pub closed spec fn spec_var_count(&self) -> usize {
        self.var_count
    }

    /// The tables are those compiled from their grammar and automaton, and
    /// no state has a conflict.
    pub open spec fn wf(&self) -> bool {
        let g = self.spec_grammar();
        &&& g.wf()
        &&& is_lr1a(g, self.spec_items(), self.spec_nexts())
        &&& terminals_below(g, self.spec_word_count() as int)
        &&& self.spec_word_count() < usize::MAX
        &&& self.spec_var_count() == g.spec_rule_count() - 1
        &&& tables_of(g, self.spec_word_count(), self.spec_items(), self.spec_nexts(), self.spec_actions(), self.spec_gotos(), self.spec_reductions())
        &&& forall|s: int| 0 <= s < self.spec_items().len() ==> !#[trigger] state_conflicts(g, self.spec_items()[s], self.spec_nexts()[s])
    }

    /// The number of states.
    pub open spec fn spec_state_count(&self) -> nat {
        self.spec_items().len()
    }

    /// The action for `state` when the next word is `word` (`None`: end of input).
    pub fn action(&self, state: usize, word: Option<usize>) -> (r: Action)
        requires
            self.wf(),
            state < self.spec_state_count(),
            word matches Some(w) ==> w < self.spec_word_count(),
        ensures
            r == self.spec_actions()[state as int][column(word)],
    {
        let row = &self.actions[state];
        assert(row@ == self.spec_actions()[state as int]);
        match word {
            None => row[0],
            Some(a) => row[a + 1],
        }
    }

    /// The state to go to from `state` after reducing to variable `var`.
    pub fn goto(&self, state: usize, var: usize) -> (r: Option<usize>)
        requires
            self.wf(),
            state < self.spec_state_count(),
            var < self.spec_var_count(),
        ensures
            r == self.spec_gotos()[state as int][var as int],
    {
        let row = &self.gotos[state];
        assert(row@ == self.spec_gotos()[state as int]);
        row[var]
    }
}

/// The outcome of compiling grammar `g` with `wc` words over the LR(1)
/// automaton `items`/`nexts`: tables exactly when no state has a conflict;
/// else the first conflict, in state order and item order.
pub open spec fn compile_outcome(g: Grammar, wc: usize, items: Seq<Seq<Item>>, nexts: Seq<Seq<(Symbol, usize)>>, r: Result<SynAnalyzer, CompileError>) -> bool {
    &&& (r is Ok <==> forall|s: int| 0 <= s < items.len() ==> !#[trigger] state_conflicts(g, items[s], nexts[s]))
    &&& (r matches Ok(an) ==> {
        &&& an.wf()
        &&& an.spec_grammar() == g
        &&& an.spec_items() == items
        &&& an.spec_nexts() == nexts
        &&& an.spec_word_count() == wc
    })
    &&& (r matches Err(e) ==> {
        &&& e.state < items.len()
        &&& forall|s: int| 0 <= s < e.state ==> !#[trigger] state_conflicts(g, items[s], nexts[s])
        &&& first_conflict(g, items[e.state as int], nexts[e.state as int], e.item, e.action1, e.action2)
    })
}

/// `item` is the first item of the state that conflicts with an earlier one;
/// `action1` is the entry the earlier items put in its column and `action2`
/// the one it asks for.
pub open spec fn first_conflict(g: Grammar, its: Seq<Item>, next: Seq<(Symbol, usize)>, item: Item, action1: Action, action2: Action) -> bool {
    exists|k: int| {
        &&& 0 <= k < its.len()
        &&& its[k] == item
        &&& #[trigger] item_conflicts(g, its, next, k)
        &&& forall|k2: int| 0 <= k2 < k ==> !#[trigger] item_conflicts(g, its, next, k2)
        &&& action2 == item_action(g, next, its[k])->Some_0.1
        &&& action1 == partial_action(g, its, next, k, item_action(g, next, its[k])->Some_0.0)
    }
}

/// With no conflict among the first `n` items, two of them asking for the
/// same column ask for the same entry.
proof fn lemma_acts_equal(g: Grammar, its: Seq<Item>, next: Seq<(Symbol, usize)>, n: int, k1: int, k2: int)
    requires
        0 <= k1 < n,
        0 <= k2 < n,
        n <= its.len(),
        forall|k: int| 0 <= k < n ==> !#[trigger] item_conflicts(g, its, next, k),
        item_action(g, next, its[k1]) is Some,
        item_action(g, next, its[k2]) is Some,
        item_action(g, next, its[k1])->Some_0.0 == item_action(g, next, its[k2])->Some_0.0,
    ensures
        item_action(g, next, its[k1]) == item_action(g, next, its[k2]),
{
    if k1 < k2 {
        assert(!item_conflicts(g, its, next, k2));
        assert(!conflicts_with(g, next, its[k1], its[k2]));
    } else if k2 < k1 {
        assert(!item_conflicts(g, its, next, k1));
        assert(!conflicts_with(g, next, its[k2], its[k1]));
    }
}

/// In a strictly sorted state, no item after the accepting one asks for
/// the end-of-input column.
proof fn lemma_accept_last(g: Grammar, its: Seq<Item>, next: Seq<(Symbol, usize)>, k1: int, k2: int)
    requires
        items_sorted(its),
        0 <= k1 < k2 < its.len(),
        is_accept(g, its[k1]),
        item_action(g, next, its[k2]) is Some,
    ensures
        item_action(g, next, its[k2])->Some_0.0 != 0,
{
    assert(item_lt(its[k1], its[k2]));
}

/// Entering item `k` into a row where the first `k` items caused no conflict.
proof fn lemma_partial_step(g: Grammar, its: Seq<Item>, next: Seq<(Symbol, usize)>, k: int, c: int)
    requires
        items_sorted(its),
        0 <= k < its.len(),
        forall|k2: int| 0 <= k2 <= k ==> !#[trigger] item_conflicts(g, its, next, k2),
    ensures
        partial_action(g, its, next, k + 1, c) == (if is_accept(g, its[k]) && c == 0 {
            Action::Accept
        } else if item_action(g, next, its[k]) is Some && item_action(g, next, its[k])->Some_0.0 == c {
            item_action(g, next, its[k])->Some_0.1
        } else {
            partial_action(g, its, next, k, c)
        }),
{
    let x = its[k];
    if c == 0 && has_accept(g, its, k) {
        let k1 = choose|k1: int| 0 <= k1 < k && #[trigger] is_accept(g, its[k1]);
        assert(has_accept(g, its, k + 1));
        if item_action(g, next, x) is Some && item_action(g, next, x)->Some_0.0 == c {
            lemma_accept_last(g, its, next, k1, k);
        }
    } else if is_accept(g, x) && c == 0 {
        assert(has_accept(g, its, k + 1));
    } else {
        if c == 0 {
            assert(!has_accept(g, its, k + 1));
        }
        if item_action(g, next, x) is Some && item_action(g, next, x)->Some_0.0 == c {
            assert(has_action_at(g, its, next, k + 1, c));
            let kc = acting_item(g, its, next, k + 1, c);
            lemma_acts_equal(g, its, next, k + 1, kc, k);
        } else {
            if has_action_at(g, its, next, k + 1, c) {
                let kc = acting_item(g, its, next, k + 1, c);
                assert(kc < k);
                assert(has_action_at(g, its, next, k, c));
                let kd = acting_item(g, its, next, k, c);
                lemma_acts_equal(g, its, next, k + 1, kc, kd);
            } else {
                if has_action_at(g, its, next, k, c) {
                    let kd = acting_item(g, its, next, k, c);
                    assert(has_action_at(g, its, next, k + 1, c));
                }
            }
        }
    }
}

/// The target of the transition of `next` on `x`.
pub(crate) fn find_target(next: &Vec<(Symbol, usize)>, x: Symbol) -> (r: usize)
    requires
        has_transition(next@, x),
        forall|t1: int, t2: int| 0 <= t1 < t2 < next@.len() ==> (#[trigger] next@[t1]).0 != (#[trigger] next@[t2]).0,
    ensures
        r == target(next@, x),
{
    let ghost tc = choose|t: int| 0 <= t < next@.len() && (#[trigger] next@[t]).0 == x;
    let mut t = 0usize;
    while t < next.len()
        invariant
            0 <= tc < next@.len(),
            next@[tc].0 == x,
            t <= tc,
            forall|t1: int, t2: int| 0 <= t1 < t2 < next@.len() ==> (#[trigger] next@[t1]).0 != (#[trigger] next@[t2]).0,
        decreases next@.len() - t,
    {
        if next[t].0 == x {
            proof {
                if (t as int) < tc {
                    assert(next@[t as int].0 != next@[tc].0);
                }
            }
            return next[t].1;
        }
        t += 1;
    }
    t
}

/// The goto entry of `next` for variable `v`.
fn find_goto(next: &Vec<(Symbol, usize)>, v: usize) -> (r: Option<usize>)
    requires
        forall|t1: int, t2: int| 0 <= t1 < t2 < next@.len() ==> (#[trigger] next@[t1]).0 != (#[trigger] next@[t2]).0,
    ensures
        r == goto_entry(next@, v),
{
    let mut t = 0usize;
    while t < next.len()
        invariant
            t <= next@.len(),
            forall|t1: int, t2: int| 0 <= t1 < t2 < next@.len() ==> (#[trigger] next@[t1]).0 != (#[trigger] next@[t2]).0,
            forall|u: int| 0 <= u < t ==> (#[trigger] next@[u]).0 != Symbol::Variable(v),
        decreases next@.len() - t,
    {
        if next[t].0 == Symbol::Variable(v) {
            assert(has_transition(next@, Symbol::Variable(v)));
            return Some(find_target(next, Symbol::Variable(v)));
        }
        t += 1;
    }
    None
}

/// The action row of one state, or the first conflict: the index of the
/// conflicting item, the entry before it and the entry it asks for.
fn build_row(grammar: &Grammar, wc: usize, its: &Vec<Item>, next: &Vec<(Symbol, usize)>) -> (r: Result<Vec<Action>, (usize, Action, Action)>)
    requires
        grammar.wf(),
        wc < usize::MAX,
        terminals_below(*grammar, wc as int),
        items_sorted(its@),
        forall|k: int| 0 <= k < its@.len() ==> item_ok(*grammar, wc as int, #[trigger] its@[k]),
        forall|t1: int, t2: int| 0 <= t1 < t2 < next@.len() ==> (#[trigger] next@[t1]).0 != (#[trigger] next@[t2]).0,
        forall|k: int| 0 <= k < its@.len() && (#[trigger] crate::lr1::at_dot(*grammar, its@[k])) is Some ==> has_transition(next@, crate::lr1::at_dot(*grammar, its@[k])->Some_0),
    ensures
        r is Ok <==> !state_conflicts(*grammar, its@, next@),
        r matches Ok(row) ==> row@.len() == wc + 1 && forall|c: int| 0 <= c <= wc ==> #[trigger] row@[c] == table_action(*grammar, its@, next@, c),
        r matches Err(e) ==> first_conflict(*grammar, its@, next@, its@[e.0 as int], e.1, e.2) && e.0 < its@.len(),
{
    let ghost g = *grammar;
    let nv = grammar.rule_count() - 1;
    let mut row: Vec<Action> = Vec::new();
    let mut c = 0usize;
    while c <= wc
        invariant
            c <= wc + 1,
            wc < usize::MAX,
            row@.len() == c,
            forall|d: int| 0 <= d < c ==> #[trigger] row@[d] == Action::Invalid,
        decreases wc + 1 - c,
    {
        row.push(Action::Invalid);
        c += 1;
    }
    proof {
        assert forall|d: int| 0 <= d <= wc implies #[trigger] row@[d] == partial_action(g, its@, next@, 0, d) by {
            assert(!has_accept(g, its@, 0));
            assert(!has_action_at(g, its@, next@, 0, d));
        }
    }
    let mut k = 0usize;
    while k < its.len()
        invariant
            g == *grammar,
            g.wf(),
            nv == g.spec_rule_count() - 1,
            wc < usize::MAX,
            terminals_below(g, wc as int),
            items_sorted(its@),
            forall|kk: int| 0 <= kk < its@.len() ==> item_ok(g, wc as int, #[trigger] its@[kk]),
            forall|t1: int, t2: int| 0 <= t1 < t2 < next@.len() ==> (#[trigger] next@[t1]).0 != (#[trigger] next@[t2]).0,
            forall|kk: int| 0 <= kk < its@.len() && (#[trigger] crate::lr1::at_dot(g, its@[kk])) is Some ==> has_transition(next@, crate::lr1::at_dot(g, its@[kk])->Some_0),
            k <= its@.len(),
            row@.len() == wc + 1,
            forall|k2: int| 0 <= k2 < k ==> !#[trigger] item_conflicts(g, its@, next@, k2),
            forall|d: int| 0 <= d <= wc ==> #[trigger] row@[d] == partial_action(g, its@, next@, k as int, d),
        decreases its@.len() - k,
    {
        let item = its[k];
        let ghost ki = k as int;
        assert(item_ok(g, wc as int, its@[ki]));
        let rhs = grammar.alt(item.alt);
        if item.pos < rhs.len() {
            match rhs[item.pos] {
                Symbol::Terminal(a) => {
                    assert(g.spec_rhs(item.alt as int)[item.pos as int] == Symbol::Terminal(a));
                    assert(crate::lr1::at_dot(g, its@[ki]) == Some(Symbol::Terminal(a)));
                    let t = find_target(next, Symbol::Terminal(a));
                    let col = a + 1;
                    let cur = row[col];
                    proof {
                        assert(item_action(g, next@, item) == Some((col as int, Action::Shift(t))));
                        assert(cur == partial_action(g, its@, next@, ki, col as int));
                    }
                    if let Action::Reduce(_) = cur {
                        proof {
                            assert(has_action_at(g, its@, next@, ki, col as int));
                            let kc = acting_item(g, its@, next@, ki, col as int);
                            assert(conflicts_with(g, next@, its@[kc], its@[ki]));
                            assert(item_conflicts(g, its@, next@, ki));
                            assert(state_conflicts(g, its@, next@));
                        }
                        return Err((k, cur, Action::Shift(t)));
                    }
                    proof {
                        assert forall|k2: int| 0 <= k2 < ki implies !#[trigger] conflicts_with(g, next@, its@[k2], its@[ki]) by {
                            if conflicts_with(g, next@, its@[k2], its@[ki]) {
                                assert(has_action_at(g, its@, next@, ki, col as int));
                                let kc = acting_item(g, its@, next@, ki, col as int);
                                lemma_acts_equal(g, its@, next@, ki, kc, k2);
                            }
                        }
                        assert(!item_conflicts(g, its@, next@, ki));
                    }
                    row.set(col, Action::Shift(t));
                },
                Symbol::Variable(_) => {
                    proof {
                        assert(item_action(g, next@, item) is None);
                        assert(!is_accept(g, item));
                        assert forall|k2: int| 0 <= k2 < ki implies !#[trigger] conflicts_with(g, next@, its@[k2], its@[ki]) by {}
                    }
                },
            }
        } else if item.rule < nv || item.successor.is_some() {
            let col = match item.successor {
                None => 0,
                Some(a) => a + 1,
            };
            let cur = row[col];
            proof {
                assert(item_action(g, next@, item) == Some((col as int, Action::Reduce(item.alt))));
                assert(cur == partial_action(g, its@, next@, ki, col as int));
            }
            if cur != Action::Invalid {
                proof {
                    if col == 0 && has_accept(g, its@, ki) {
                        let k1 = choose|k1: int| 0 <= k1 < ki && #[trigger] is_accept(g, its@[k1]);
                        lemma_accept_last(g, its@, next@, k1, ki);
                    }
                    assert(has_action_at(g, its@, next@, ki, col as int));
                    let kc = acting_item(g, its@, next@, ki, col as int);
                    assert(conflicts_with(g, next@, its@[kc], its@[ki]));
                    assert(item_conflicts(g, its@, next@, ki));
                    assert(state_conflicts(g, its@, next@));
                }
                return Err((k, cur, Action::Reduce(item.alt)));
            }
            proof {
                assert forall|k2: int| 0 <= k2 < ki implies !#[trigger] conflicts_with(g, next@, its@[k2], its@[ki]) by {
                    if conflicts_with(g, next@, its@[k2], its@[ki]) {
                        assert(has_action_at(g, its@, next@, ki, col as int));
                    }
                }
                assert(!item_conflicts(g, its@, next@, ki));
            }
            row.set(col, Action::Reduce(item.alt));
        } else {
            proof {
                assert(is_accept(g, item));
                assert(item_action(g, next@, item) is None);
                assert forall|k2: int| 0 <= k2 < ki implies !#[trigger] conflicts_with(g, next@, its@[k2], its@[ki]) by {}
            }
            row.set(0, Action::Accept);
        }
        proof {
            assert forall|d: int| 0 <= d <= wc implies #[trigger] row@[d] == partial_action(g, its@, next@, ki + 1, d) by {
                lemma_partial_step(g, its@, next@, ki, d);
            }
        }
        k += 1;
    }
    proof {
        assert(!state_conflicts(g, its@, next@));
    }
    Ok(row)
}

/// The reductions of the alternatives of `g`, by alternative.
pub(crate) fn build_reductions(grammar: &Grammar) -> (r: Vec<Reduction>)
    requires
        grammar.wf(),
    ensures
        r@.len() == grammar.spec_alt_count(),
        forall|a: int| 0 <= a < grammar.spec_alt_count() ==> #[trigger] r@[a] == (Reduction { var: grammar.spec_alt_rule()[a], count: grammar.spec_rhs(a).len() as usize }),
{
    let mut r: Vec<Reduction> = Vec::new();
    let m = grammar.alt_count();
    let mut a = 0usize;
    while a < m
        invariant
            grammar.wf(),
            m == grammar.spec_alt_count(),
            a <= m,
            r@.len() == a,
            forall|b: int| 0 <= b < a ==> #[trigger] r@[b] == (Reduction { var: grammar.spec_alt_rule()[b], count: grammar.spec_rhs(b).len() as usize }),
        decreases m - a,
    {
        let red = Reduction { var: grammar.alt_rule(a), count: grammar.alt(a).len() };
        r.push(red);
        a += 1;
    }
    r
}

/// The goto row of a state: its transition on each variable but the start one.
pub(crate) fn build_goto_row(nv: usize, next: &Vec<(Symbol, usize)>) -> (r: Vec<Option<usize>>)
    requires
        forall|t1: int, t2: int| 0 <= t1 < t2 < next@.len() ==> (#[trigger] next@[t1]).0 != (#[trigger] next@[t2]).0,
    ensures
        r@.len() == nv,
        forall|v: int| 0 <= v < nv ==> #[trigger] r@[v] == goto_entry(next@, v as usize),
{
    let mut r: Vec<Option<usize>> = Vec::new();
    let mut v = 0usize;
    while v < nv
        invariant
            v <= nv,
            r@.len() == v,
            forall|t1: int, t2: int| 0 <= t1 < t2 < next@.len() ==> (#[trigger] next@[t1]).0 != (#[trigger] next@[t2]).0,
            forall|u: int| 0 <= u < v ==> #[trigger] r@[u] == goto_entry(next@, u as usize),
        decreases nv - v,
    {
        r.push(find_goto(next, v));
        v += 1;
    }
    r
}

/// The LR(1) tables of `grammar` with `wc` words, or the first conflict.
fn build_tables(grammar: &Grammar, wc: usize) -> (r: Result<SynAnalyzer, CompileError>)
    requires
        grammar.wf(),
        terminals_below(*grammar, wc as int),
        wc < usize::MAX,
    ensures
        exists|items: Seq<Seq<Item>>, nexts: Seq<Seq<(Symbol, usize)>>| #[trigger] is_lr1a(*grammar, items, nexts) && compile_outcome(*grammar, wc, items, nexts, r),
{
    let ghost g = *grammar;
    let lr1a = LR1A::from(grammar);
    let ghost items = lr1a.spec_items();
    let ghost nexts = lr1a.spec_nexts();
    let states = lr1a.states();
    let nv = grammar.rule_count() - 1;
    let mut actions: Vec<Vec<Action>> = Vec::new();
    let mut gotos: Vec<Vec<Option<usize>>> = Vec::new();
    let mut i = 0usize;
    while i < states.len()
        invariant
            g == *grammar,
            g.wf(),
            terminals_below(g, wc as int),
            wc < usize::MAX,
            nv == g.spec_rule_count() - 1,
            is_lr1a(g, items, nexts),
            states@.len() == items.len(),
            forall|s: int| 0 <= s < states@.len() ==> (#[trigger] states@[s]).items@ == items[s] && states@[s].next@ == nexts[s],
            i <= items.len(),
            actions@.len() == i,
            gotos@.len() == i,
            forall|s: int| 0 <= s < i ==> !#[trigger] state_conflicts(g, items[s], nexts[s]),
            forall|s: int| 0 <= s < i ==> (#[trigger] actions@[s])@.len() == wc + 1,
            forall|s: int, c: int| 0 <= s < i && 0 <= c <= wc ==> #[trigger] actions@[s]@[c] == table_action(g, items[s], nexts[s], c),
            forall|s: int| 0 <= s < i ==> (#[trigger] gotos@[s])@.len() == nv,
            forall|s: int, v: int| 0 <= s < i && 0 <= v < nv ==> #[trigger] gotos@[s]@[v] == goto_entry(nexts[s], v as usize),
        decreases items.len() - i,
    {
        let state = &states[i];
        proof {
            lemma_lr1a_items_ok(g, wc as int, items, nexts, i as int);
            assert(transitions_ok(g, items, i as int, nexts[i as int]));
            assert(state.items@ == items[i as int]);
            assert(state.next@ == nexts[i as int]);
        }
        match build_row(grammar, wc, &state.items, &state.next) {
            Ok(row) => {
                actions.push(row);
            },
            Err((k, action1, action2)) => {
                let e = CompileError { state: i, item: state.items[k], action1, action2 };
                proof {
                    assert(state_conflicts(g, items[i as int], nexts[i as int]));
                    assert(compile_outcome(g, wc, items, nexts, Err(e)));
                }
                return Err(e);
            },
        }
        gotos.push(build_goto_row(nv, &state.next));
        proof {
            assert forall|s: int, c: int| 0 <= s < i + 1 && 0 <= c <= wc implies #[trigger] actions@[s]@[c] == table_action(g, items[s], nexts[s], c) by {}
        }
        i += 1;
    }
    let reductions = build_reductions(grammar);
    let an = SynAnalyzer {
        actions,
        gotos,
        reductions,
        word_count: wc,
        var_count: nv,
        grammar: Ghost(g),
        items: Ghost(items),
        nexts: Ghost(nexts),
    };
    proof {
        assert forall|s: int, c: int| 0 <= s < items.len() && 0 <= c <= wc implies #[trigger] an.spec_actions()[s][c] == table_action(g, items[s], nexts[s], c) by {
            assert(an.spec_actions()[s] == an.actions@[s]@);
        }
        assert forall|s: int| 0 <= s < items.len() implies (#[trigger] an.spec_actions()[s]).len() == wc + 1 by {
            assert(an.spec_actions()[s] == an.actions@[s]@);
        }
        assert forall|s: int, v: int| 0 <= s < items.len() && 0 <= v < nv implies #[trigger] an.spec_gotos()[s][v] == goto_entry(nexts[s], v as usize) by {
            assert(an.spec_gotos()[s] == an.gotos@[s]@);
        }
        assert forall|s: int| 0 <= s < items.len() implies (#[trigger] an.spec_gotos()[s]).len() == nv by {
            assert(an.spec_gotos()[s] == an.gotos@[s]@);
        }
        assert(an.wf());
        assert(compile_outcome(g, wc, items, nexts, Ok::<SynAnalyzer, CompileError>(an)));
    }
    Ok(an)
}

impl SynDef {
    /// The LR(1) tables of the grammar, or the first conflict found, by
    /// state and by item, where the grammar is not LR(1).
    pub fn compile(&self) -> (r: Result<SynAnalyzer, CompileError>)
        requires
            self.grammar.wf(),
            terminals_below(self.grammar, self.word_count as int),
            self.word_count < usize::MAX,
        ensures
            exists|items: Seq<Seq<Item>>, nexts: Seq<Seq<(Symbol, usize)>>| #[trigger] is_lr1a(self.grammar, items, nexts) && compile_outcome(self.grammar, self.word_count, items, nexts, r),
    {
        build_tables(&self.grammar, self.word_count)
    }
}

/// A shift entry leads to a state whose items are the goto of the current
/// state's on the shifted word; it is never in the end-of-input column.
proof fn lemma_table_shift(g: Grammar, items: Seq<Seq<Item>>, nexts: Seq<Seq<(Symbol, usize)>>, s: int, c: int)
    requires
        is_lr1a(g, items, nexts),
        0 <= s < items.len(),
        table_action(g, items[s], nexts[s], c) is Shift,
    ensures
        c >= 1,
        has_transition(nexts[s], Symbol::Terminal((c - 1) as usize)),
        table_action(g, items[s], nexts[s], c)->Shift_0 == target(nexts[s], Symbol::Terminal((c - 1) as usize)),
        table_action(g, items[s], nexts[s], c)->Shift_0 < items.len(),
        items[table_action(g, items[s], nexts[s], c)->Shift_0 as int].to_set() == goto_of(g, items[s].to_set(), Symbol::Terminal((c - 1) as usize)),
{
    let its = items[s];
    let next = nexts[s];
    assert(has_action_at(g, its, next, its.len() as int, c));
    let k = acting_item(g, its, next, its.len() as int, c);
    let x = its[k];
    let rhs = g.spec_rhs(x.alt as int);
    assert(x.pos < rhs.len());
    let a = match rhs[x.pos as int] { Symbol::Terminal(a) => a, Symbol::Variable(_) => 0 };
    assert(rhs[x.pos as int] == Symbol::Terminal(a));
    assert(a + 1 == c);
    assert(at_dot(g, items[s][k]) == Some(Symbol::Terminal(a)));
    assert(transitions_ok(g, items, s, nexts[s]));
    assert(has_transition(next, Symbol::Terminal(a)));
    let t = choose|t: int| 0 <= t < next.len() && (#[trigger] next[t]).0 == Symbol::Terminal(a);
    assert(next[t].1 < items.len());
    assert(items[next[t].1 as int].to_set() == goto_of(g, items[s].to_set(), next[t].0));
}

/// A reduce entry comes from a complete item of a rule other than the start one.
proof fn lemma_table_reduce(g: Grammar, wc: usize, items: Seq<Seq<Item>>, nexts: Seq<Seq<(Symbol, usize)>>, s: int, c: int)
    requires
        g.wf(),
        terminals_below(g, wc as int),
        is_lr1a(g, items, nexts),
        0 <= s < items.len(),
        table_action(g, items[s], nexts[s], c) is Reduce,
    ensures
        exists|k: int| 0 <= k < items[s].len() && (#[trigger] items[s][k]).alt == table_action(g, items[s], nexts[s], c)->Reduce_0
            && items[s][k].pos == g.spec_rhs(items[s][k].alt as int).len() && items[s][k].rule < g.spec_rule_count() - 1 && item_valid(g, items[s][k]),
{
    let its = items[s];
    let next = nexts[s];
    assert(has_action_at(g, its, next, its.len() as int, c));
    let k = acting_item(g, its, next, its.len() as int, c);
    lemma_lr1a_items_ok(g, wc as int, items, nexts, s);
    assert(item_ok(g, wc as int, items[s][k]));
}

/// Only column 0 (end of input) can hold Accept.
proof fn lemma_accept_column(g: Grammar, its: Seq<Item>, next: Seq<(Symbol, usize)>, c: int)
    requires
        c != 0,
    ensures
        !(table_action(g, its, next, c) is Accept),
{
    if has_action_at(g, its, next, its.len() as int, c) {
        let k = acting_item(g, its, next, its.len() as int, c);
        let x = its[k];
        let rhs = g.spec_rhs(x.alt as int);
        if x.pos < rhs.len() {
            match rhs[x.pos as int] {
                Symbol::Terminal(a) => {},
                Symbol::Variable(_) => {},
            }
        }
    }
}

/// Column 0 (end of input) never holds a shift.
proof fn lemma_table_col0(g: Grammar, its: Seq<Item>, next: Seq<(Symbol, usize)>)
    ensures
        !(table_action(g, its, next, 0) is Shift),
{
    if !has_accept(g, its, its.len() as int) && has_action_at(g, its, next, its.len() as int, 0) {
        let k = acting_item(g, its, next, its.len() as int, 0);
        let x = its[k];
        let rhs = g.spec_rhs(x.alt as int);
        if x.pos < rhs.len() {
            match rhs[x.pos as int] {
                Symbol::Terminal(a) => {},
                Symbol::Variable(_) => {},
            }
        }
    }
}

/// Walking one more symbol, along an existing transition, ends at its target.
proof fn lemma_walk_push(g: Grammar, items: Seq<Seq<Item>>, nexts: Seq<Seq<(Symbol, usize)>>, w: Seq<Symbol>, x: Symbol, t: int)
    requires
        is_lr1a(g, items, nexts),
        walk(nexts, 0, w) == Some(t),
        0 <= t < items.len(),
        has_transition(nexts[t], x),
    ensures
        walk(nexts, 0, w.push(x)) == Some(target(nexts[t], x) as int),
{
    let wx = w.push(x);
    assert(wx.drop_last() =~= w);
    assert(wx.last() == x);
    let next = nexts[t];
    assert(transitions_ok(g, items, t, next));
    let k1 = choose|k: int| 0 <= k < next.len() && (#[trigger] next[k]).0 == x;
    let k2 = choose|t2: int| 0 <= t2 < next.len() && (#[trigger] next[t2]).0 == x;
    if k1 != k2 {
        if k1 < k2 {
            assert(next[k1].0 != next[k2].0);
        } else {
            assert(next[k2].0 != next[k1].0);
        }
    }
}

/// An Accept entry comes from the complete start item.
proof fn lemma_table_accept(g: Grammar, its: Seq<Item>, next: Seq<(Symbol, usize)>, c: int)
    requires
        table_action(g, its, next, c) is Accept,
    ensures
        c == 0,
        has_accept(g, its, its.len() as int),
{
    if !(c == 0 && has_accept(g, its, its.len() as int)) && has_action_at(g, its, next, its.len() as int, c) {
        let k = acting_item(g, its, next, its.len() as int, c);
        let x = its[k];
        let rhs = g.spec_rhs(x.alt as int);
        if x.pos < rhs.len() {
            match rhs[x.pos as int] {
                Symbol::Terminal(a) => {},
                Symbol::Variable(_) => {},
            }
        }
    }
}


/// What the tables say of a shift: its state lies past the current one by
/// a transition on the lookahead word, which is not the end of input.
proof fn lemma_shift_facts<'a>(p: Parse<'a>, ns: usize)
    requires
        p.wf(),
        p.next_action == Action::Shift(ns),
    ensures
        p.next_word is Some,
        (ns as int) < p.syn.spec_items().len(),
        has_transition(p.syn.spec_nexts()[p.state_history@.last() as int], Symbol::Terminal(p.next_word->Some_0)),
        ns == target(p.syn.spec_nexts()[p.state_history@.last() as int], Symbol::Terminal(p.next_word->Some_0)),
        p.syn.spec_items()[ns as int].to_set() == goto_of(p.syn.spec_grammar(), p.syn.spec_items()[p.state_history@.last() as int].to_set(), Symbol::Terminal(p.next_word->Some_0)),
{
    let syn = p.syn;
    let g = syn.spec_grammar();
    let items = syn.spec_items();
    let nexts = syn.spec_nexts();
    let top = p.state_history@.last();
    assert(syn.spec_actions()[top as int] == syn.actions@[top as int]@);
    let c = column(p.next_word);
    if p.next_word is None {
        lemma_table_col0(g, items[top as int], nexts[top as int]);
    }
    assert(syn.spec_actions()[top as int][c] == table_action(g, items[top as int], nexts[top as int], c));
    lemma_table_shift(g, items, nexts, top as int, c);
}

/// Every state of the stack is a state of the automaton.
pub open spec fn states_in(items: Seq<Seq<Item>>, hist: Seq<usize>) -> bool {
    forall|j: int| 0 <= j < hist.len() ==> #[trigger] hist[j] < items.len()
}

/// Each state of the stack holds only items whose dot is at most its depth.
#[verifier::opaque]
pub open spec fn dots_within(items: Seq<Seq<Item>>, hist: Seq<usize>) -> bool {
    forall|j: int, k: int| 0 <= j < hist.len() && 0 <= k < items[hist[j] as int].len() ==> (#[trigger] items[hist[j] as int][k]).pos <= j
}

/// Items of the start rule have their dot at the depth of their state.
#[verifier::opaque]
pub open spec fn start_dots(g: Grammar, items: Seq<Seq<Item>>, hist: Seq<usize>) -> bool {
    forall|j: int, k: int| 0 <= j < hist.len() && 0 <= k < items[hist[j] as int].len() && (#[trigger] items[hist[j] as int][k]).rule == g.spec_rule_count() - 1
        ==> items[hist[j] as int][k].pos == j
}

/// The origin of each item of the stack lies in the state as deep below
/// it as its dot.
#[verifier::opaque]
pub open spec fn origins_below(items: Seq<Seq<Item>>, hist: Seq<usize>) -> bool {
    forall|j: int, k: int| 0 <= j < hist.len() && 0 <= k < items[hist[j] as int].len()
        ==> items[hist[j - (#[trigger] items[hist[j] as int][k]).pos] as int].contains(origin(items[hist[j] as int][k]))
}

/// The stack of states is the walk from the start state along the symbols.
#[verifier::opaque]
pub open spec fn follows(nexts: Seq<Seq<(Symbol, usize)>>, hist: Seq<usize>, syms: Seq<Symbol>) -> bool {
    &&& syms.len() + 1 == hist.len()
    &&& forall|j: int| 0 <= j < hist.len() ==> walk(nexts, 0, #[trigger] syms.take(j)) == Some(hist[j] as int)
}

/// The premises of pushing, onto the first `m` states of `hist`, the state
/// `ns` whose items are the goto of the `m`-th on `x`.
pub open spec fn push_ok(g: Grammar, items: Seq<Seq<Item>>, nexts: Seq<Seq<(Symbol, usize)>>, hist: Seq<usize>, m: int, ns: usize, x: Symbol) -> bool {
    &&& g.wf()
    &&& is_lr1a(g, items, nexts)
    &&& 1 <= m <= hist.len()
    &&& states_in(items, hist)
    &&& (ns as int) < items.len()
    &&& items[ns as int].to_set() == goto_of(g, items[hist[m - 1] as int].to_set(), x)
}

proof fn lemma_push_states(g: Grammar, items: Seq<Seq<Item>>, nexts: Seq<Seq<(Symbol, usize)>>, hist: Seq<usize>, m: int, ns: usize, x: Symbol)
    requires
        push_ok(g, items, nexts, hist, m, ns, x),
    ensures
        states_in(items, hist.take(m).push(ns)),
{
    let h = hist.take(m).push(ns);
    assert forall|j: int| 0 <= j < h.len() implies #[trigger] h[j] < items.len() by {
        if j < m {
            assert(h[j] == hist[j]);
        }
    }
}

proof fn lemma_push_dots(g: Grammar, items: Seq<Seq<Item>>, nexts: Seq<Seq<(Symbol, usize)>>, hist: Seq<usize>, m: int, ns: usize, x: Symbol)
    requires
        push_ok(g, items, nexts, hist, m, ns, x),
        dots_within(items, hist),
    ensures
        dots_within(items, hist.take(m).push(ns)),
{
    reveal(dots_within);
    let h = hist.take(m).push(ns);
    let base = hist[m - 1];
    assert forall|j: int, k: int| 0 <= j < h.len() && 0 <= k < items[h[j] as int].len() implies (#[trigger] items[h[j] as int][k]).pos <= j by {
        if j < m {
            assert(h[j] == hist[j]);
        } else {
            let it = items[ns as int][k];
            assert(items[ns as int].to_set().contains(it));
            let sset = items[base as int].to_set();
            assert forall|qq: Item| #[trigger] sset.contains(qq) implies qq.pos <= j - 1 by {
                let kq = choose|kq: int| 0 <= kq < items[base as int].len() && items[base as int][kq] == qq;
                assert(items[hist[m - 1] as int][kq].pos <= m - 1);
            }
            lemma_goto_pos(g, sset, x, j - 1, it);
        }
    }
}

proof fn lemma_push_start(g: Grammar, items: Seq<Seq<Item>>, nexts: Seq<Seq<(Symbol, usize)>>, hist: Seq<usize>, m: int, ns: usize, x: Symbol)
    requires
        push_ok(g, items, nexts, hist, m, ns, x),
        start_dots(g, items, hist),
    ensures
        start_dots(g, items, hist.take(m).push(ns)),
{
    reveal(start_dots);
    let h = hist.take(m).push(ns);
    let base = hist[m - 1];
    assert forall|j: int, k: int| 0 <= j < h.len() && 0 <= k < items[h[j] as int].len() && (#[trigger] items[h[j] as int][k]).rule == g.spec_rule_count() - 1
        implies items[h[j] as int][k].pos == j by {
        if j < m {
            assert(h[j] == hist[j]);
        } else {
            let it = items[ns as int][k];
            assert(items[ns as int].to_set().contains(it));
            let sset = items[base as int].to_set();
            assert forall|qq: Item| #[trigger] sset.contains(qq) implies item_valid(g, qq) && (qq.rule == g.spec_rule_count() - 1 ==> qq.pos == j - 1) by {
                let kq = choose|kq: int| 0 <= kq < items[base as int].len() && items[base as int][kq] == qq;
                assert(items[hist[m - 1] as int][kq] == qq);
            }
            lemma_goto_start_rule(g, sset, x, j - 1, it);
        }
    }
}

proof fn lemma_push_origin_top(g: Grammar, items: Seq<Seq<Item>>, nexts: Seq<Seq<(Symbol, usize)>>, hist: Seq<usize>, m: int, ns: usize, x: Symbol, k: int)
    requires
        push_ok(g, items, nexts, hist, m, ns, x),
        dots_within(items, hist),
        origins_below(items, hist),
        0 <= k < items[ns as int].len(),
    ensures
        items[ns as int][k].pos <= m,
        items[hist.take(m).push(ns)[m - items[ns as int][k].pos] as int].contains(origin(items[ns as int][k])),
{
    reveal(origins_below);
    reveal(dots_within);
    let h = hist.take(m).push(ns);
    let base = hist[m - 1];
    let it = items[ns as int][k];
    assert(items[ns as int].to_set().contains(it));
    let sset = items[base as int].to_set();
    assert forall|qq: Item| #[trigger] sset.contains(qq) implies item_valid(g, qq) by {
        let kq = choose|kq: int| 0 <= kq < items[base as int].len() && items[base as int][kq] == qq;
        assert(items[hist[m - 1] as int][kq] == qq);
    }
    let q = lemma_goto_origin(g, sset, x, it);
    if it.pos == 0 {
        assert(origin(it) == it);
        assert(h[m] == ns);
    } else {
        let kq = choose|kq: int| 0 <= kq < items[base as int].len() && items[base as int][kq] == q;
        assert(items[hist[m - 1] as int][kq] == q);
        assert(q.pos <= m - 1);
        assert(items[hist[(m - 1) - q.pos] as int].contains(origin(q)));
        assert(h[m - it.pos] == hist[(m - 1) - q.pos]);
    }
}

proof fn lemma_push_origins(g: Grammar, items: Seq<Seq<Item>>, nexts: Seq<Seq<(Symbol, usize)>>, hist: Seq<usize>, m: int, ns: usize, x: Symbol)
    requires
        push_ok(g, items, nexts, hist, m, ns, x),
        dots_within(items, hist),
        origins_below(items, hist),
    ensures
        origins_below(items, hist.take(m).push(ns)),
{
    let h = hist.take(m).push(ns);
    assert forall|j: int, k: int| 0 <= j < h.len() && 0 <= k < items[h[j] as int].len()
        implies items[h[j - (#[trigger] items[h[j] as int][k]).pos] as int].contains(origin(items[h[j] as int][k])) by {
        if j < m {
            reveal(origins_below);
            reveal(dots_within);
            let it = items[h[j] as int][k];
            assert(h[j] == hist[j]);
            assert(it.pos <= j);
            assert(h[j - it.pos] == hist[j - it.pos]);
        } else {
            assert(h[j] == ns);
            lemma_push_origin_top(g, items, nexts, hist, m, ns, x, k);
        }
    }
    reveal(origins_below);
}

proof fn lemma_push_follows(g: Grammar, items: Seq<Seq<Item>>, nexts: Seq<Seq<(Symbol, usize)>>, hist: Seq<usize>, syms: Seq<Symbol>, m: int, ns: usize, x: Symbol)
    requires
        push_ok(g, items, nexts, hist, m, ns, x),
        follows(nexts, hist, syms),
        has_transition(nexts[hist[m - 1] as int], x),
        ns == target(nexts[hist[m - 1] as int], x),
    ensures
        follows(nexts, hist.take(m).push(ns), syms.take(m - 1).push(x)),
{
    reveal(follows);
    let h = hist.take(m).push(ns);
    let pre = syms.take(m - 1);
    let ns_syms = pre.push(x);
    assert(pre.take(pre.len() as int) =~= pre);
    assert(walk(nexts, 0, syms.take(m - 1)) == Some(hist[m - 1] as int));
    lemma_walk_push(g, items, nexts, pre, x, hist[m - 1] as int);
    assert forall|j: int| 0 <= j < h.len() implies walk(nexts, 0, #[trigger] ns_syms.take(j)) == Some(h[j] as int) by {
        if j < m {
            assert(ns_syms.take(j) =~= syms.take(j));
            assert(h[j] == hist[j]);
        } else {
            assert(ns_syms.take(j) =~= pre.push(x));
        }
    }
}

/// A shift keeps the parse consistent with its tables.
proof fn lemma_shift_wf<'a>(p: Parse<'a>, q: Parse<'a>, ns: usize, word: usize)
    requires
        p.wf(),
        p.next_action == Action::Shift(ns),
        p.next_word == Some(word),
        q.syn == p.syn,
        q.words@ == p.words@,
        q.state_history@ == p.state_history@.push(ns),
        q.symbols@ == p.symbols@.push(Symbol::Terminal(word)),
        q.depth@ == p.depth@,
        q.count == p.count + 1,
        (q.next_word, q.pos as int) == load(p.words@, p.pos as int),
        q.next_action == p.syn.spec_actions()[ns as int][column(q.next_word)],
    ensures
        q.wf(),
{
    let syn = p.syn;
    let g = syn.spec_grammar();
    let items = syn.spec_items();
    let nexts = syn.spec_nexts();
    let hist = p.state_history@;
    let m = hist.len() as int;
    let syms = p.symbols@;
    let x = Symbol::Terminal(word);
    lemma_shift_facts(p, ns);
    assert(hist.take(m) =~= hist);
    assert(syms.take(m - 1) =~= syms);
    assert(push_ok(g, items, nexts, hist, m, ns, x));
    lemma_push_states(g, items, nexts, hist, m, ns, x);
    lemma_push_dots(g, items, nexts, hist, m, ns, x);
    lemma_push_start(g, items, nexts, hist, m, ns, x);
    lemma_push_origins(g, items, nexts, hist, m, ns, x);
    lemma_push_follows(g, items, nexts, hist, syms, m, ns, x);
    // the symbols derive the words shifted
    let wt = p.words@.take(p.count as int);
    let a = p.words@[p.count as int];
    assert(derives_sym(g, x, seq![a], p.depth@));
    lemma_derives_single(g, x, seq![a], p.depth@);
    lemma_derives_append(g, syms, wt, seq![x], seq![a], p.depth@);
    assert(syms + seq![x] =~= syms.push(x));
    assert(wt + seq![a] =~= q.words@.take(q.count as int));
}

/// What the tables say of a reduction: a complete item of its alternative
/// lies in the current state, so the stack holds its symbols.
proof fn lemma_reduce_facts<'a>(p: Parse<'a>, alt: usize)
    requires
        p.wf(),
        p.next_action == Action::Reduce(alt),
    ensures
        (alt as int) < p.syn.spec_grammar().spec_alt_count(),
        p.syn.spec_reductions()[alt as int] == (Reduction { var: p.syn.spec_grammar().spec_alt_rule()[alt as int], count: p.syn.spec_grammar().spec_rhs(alt as int).len() as usize }),
        p.syn.spec_grammar().spec_alt_rule()[alt as int] < p.syn.spec_var_count(),
        p.syn.spec_grammar().spec_rhs(alt as int).len() <= p.symbols@.len(),
        is_suffix(p.syn.spec_grammar().spec_rhs(alt as int), p.symbols@),
{
    reveal(dots_within);
    reveal(follows);
    let syn = p.syn;
    let g = syn.spec_grammar();
    let items = syn.spec_items();
    let nexts = syn.spec_nexts();
    let wc = syn.spec_word_count();
    let hist = p.state_history@;
    let top = hist.last();
    assert(syn.spec_actions()[top as int] == syn.actions@[top as int]@);
    let c = column(p.next_word);
    assert(syn.spec_actions()[top as int][c] == table_action(g, items[top as int], nexts[top as int], c));
    lemma_table_reduce(g, wc, items, nexts, top as int, c);
    let k = choose|k: int| 0 <= k < items[top as int].len() && (#[trigger] items[top as int][k]).alt == alt
        && items[top as int][k].pos == g.spec_rhs(items[top as int][k].alt as int).len() && items[top as int][k].rule < g.spec_rule_count() - 1 && item_valid(g, items[top as int][k]);
    assert(items[hist[hist.len() - 1] as int][k].pos <= hist.len() - 1);
    assert(syn.spec_reductions()[alt as int] == (Reduction { var: g.spec_alt_rule()[alt as int], count: g.spec_rhs(alt as int).len() as usize }));
    let syms = p.symbols@;
    assert(syms.take(syms.len() as int) =~= syms);
    lemma_paths_end_with_items(g, items, nexts, syms, top as int);
    let it = items[top as int][k];
    assert(is_suffix(before_dot(g, it), syms));
    assert(before_dot(g, it) =~= g.spec_rhs(alt as int));
}

/// A reduction with a goto keeps the parse consistent with its tables.
proof fn lemma_reduce_wf<'a>(p: Parse<'a>, q: Parse<'a>, alt: usize, ns: usize)
    requires
        p.wf(),
        p.next_action == Action::Reduce(alt),
        ({
            let red = p.syn.spec_reductions()[alt as int];
            let keep = p.state_history@.len() - red.count;
            &&& keep >= 1
            &&& p.syn.spec_gotos()[p.state_history@[keep - 1] as int][red.var as int] == Some(ns)
            &&& q.state_history@ == p.state_history@.take(keep).push(ns)
            &&& q.symbols@ == p.symbols@.take(keep - 1).push(Symbol::Variable(red.var))
        }),
        q.syn == p.syn,
        q.words@ == p.words@,
        q.depth@ == p.depth@ + 1,
        q.count == p.count,
        q.pos == p.pos,
        q.next_word == p.next_word,
        q.next_action == p.syn.spec_actions()[ns as int][column(q.next_word)],
    ensures
        q.wf(),
{
    let syn = p.syn;
    let g = syn.spec_grammar();
    let items = syn.spec_items();
    let nexts = syn.spec_nexts();
    let hist = p.state_history@;
    let syms = p.symbols@;
    lemma_reduce_facts(p, alt);
    let red = syn.spec_reductions()[alt as int];
    let rhs = g.spec_rhs(alt as int);
    let keep = hist.len() - red.count;
    let base = hist[keep - 1];
    let v = Symbol::Variable(red.var);
    assert(syn.spec_gotos()[base as int] == syn.gotos@[base as int]@);
    assert(syn.spec_gotos()[base as int][red.var as int] == goto_entry(nexts[base as int], red.var));
    assert(has_transition(nexts[base as int], v));
    assert(transitions_ok(g, items, base as int, nexts[base as int]));
    let t = choose|t: int| 0 <= t < nexts[base as int].len() && (#[trigger] nexts[base as int][t]).0 == v;
    assert(nexts[base as int][t].1 < items.len());
    assert(push_ok(g, items, nexts, hist, keep, ns, v));
    lemma_push_states(g, items, nexts, hist, keep, ns, v);
    lemma_push_dots(g, items, nexts, hist, keep, ns, v);
    lemma_push_start(g, items, nexts, hist, keep, ns, v);
    lemma_push_origins(g, items, nexts, hist, keep, ns, v);
    lemma_push_follows(g, items, nexts, hist, syms, keep, ns, v);
    // the symbols derive the words shifted
    let pre = syms.take(keep - 1);
    let d = p.depth@;
    let wt = p.words@.take(p.count as int);
    assert(syms =~= pre + rhs);
    let k = lemma_derives_split(g, pre, rhs, wt, d);
    assert(0 <= alt < g.spec_alt_count() && g.spec_alt_rule()[alt as int] == red.var && derives_seq(g, g.spec_rhs(alt as int), wt.skip(k), d));
    assert(derives_sym(g, v, wt.skip(k), d + 1));
    lemma_derives_single(g, v, wt.skip(k), d + 1);
    lemma_derives_mono(g, pre, wt.take(k), d, d + 1);
    lemma_derives_append(g, pre, wt.take(k), seq![v], wt.skip(k), d + 1);
    assert(pre + seq![v] =~= pre.push(v));
    assert(wt.take(k) + wt.skip(k) =~= wt);
}

/// A state holding an item with the dot at the front of an alternative of
/// a rule other than the start rule has a transition on that rule's variable.
proof fn lemma_front_item_transition(g: Grammar, items: Seq<Seq<Item>>, nexts: Seq<Seq<(Symbol, usize)>>, s: int, it: Item)
    requires
        g.wf(),
        is_lr1a(g, items, nexts),
        0 <= s < items.len(),
        items[s].contains(it),
        it.pos == 0,
        it.rule < g.spec_rule_count() - 1,
    ensures
        has_transition(nexts[s], Symbol::Variable(it.rule)),
{
    assert(items[s].to_set().contains(it));
    let gen = if s == 0 {
        let kernel = Set::empty().insert(start_item(g));
        assert(!kernel.contains(it));
        lemma_closure_generator(g, kernel, it)
    } else {
        assert(reached_from_earlier(nexts, s));
        let (p0, t) = choose|p0: int, t: int| 0 <= p0 < s && 0 <= t < nexts[p0].len() && #[trigger] nexts[p0][t].1 == s;
        assert(transitions_ok(g, items, p0, nexts[p0]));
        let x = nexts[p0][t].0;
        let kernel = goto_kernel(g, items[p0].to_set(), x);
        assert(items[s].to_set() == closure_of(g, kernel));
        if kernel.contains(it) {
            let q = choose|q: Item| #[trigger] items[p0].to_set().contains(q) && at_dot(g, q) == Some(x) && it == (Item { pos: (q.pos + 1) as usize, ..q });
            let kq = choose|kq: int| 0 <= kq < items[p0].len() && items[p0][kq] == q;
            assert(item_valid(g, items[p0][kq]));
            g.lemma_rhs_len(q.alt as int);
            assert(false);
        }
        lemma_closure_generator(g, kernel, it)
    };
    assert(items[s].to_set().contains(gen));
    let kg = choose|kg: int| 0 <= kg < items[s].len() && items[s][kg] == gen;
    assert(transitions_ok(g, items, s, nexts[s]));
    assert(at_dot(g, items[s][kg]) is Some);
}

/// A reduction always finds its goto: the state it returns to has a
/// transition on the variable reduced to.
proof fn lemma_reduce_goto<'a>(p: Parse<'a>, alt: usize)
    requires
        p.wf(),
        p.next_action == Action::Reduce(alt),
    ensures
        ({
            let red = p.syn.spec_reductions()[alt as int];
            let hist = p.state_history@;
            p.syn.spec_gotos()[hist[hist.len() - 1 - red.count] as int][red.var as int] is Some
        }),
{
    reveal(dots_within);
    reveal(origins_below);
    let syn = p.syn;
    let g = syn.spec_grammar();
    let items = syn.spec_items();
    let nexts = syn.spec_nexts();
    let wc = syn.spec_word_count();
    let hist = p.state_history@;
    let top = hist.last();
    lemma_reduce_facts(p, alt);
    assert(syn.spec_actions()[top as int] == syn.actions@[top as int]@);
    let c = column(p.next_word);
    assert(syn.spec_actions()[top as int][c] == table_action(g, items[top as int], nexts[top as int], c));
    lemma_table_reduce(g, wc, items, nexts, top as int, c);
    let k = choose|k: int| 0 <= k < items[top as int].len() && (#[trigger] items[top as int][k]).alt == alt
        && items[top as int][k].pos == g.spec_rhs(items[top as int][k].alt as int).len() && items[top as int][k].rule < g.spec_rule_count() - 1 && item_valid(g, items[top as int][k]);
    let it = items[top as int][k];
    let l = hist.len() - 1;
    assert(items[hist[l] as int][k] == it);
    assert(it.pos <= l);
    assert(items[hist[l - it.pos] as int].contains(origin(it)));
    let red = syn.spec_reductions()[alt as int];
    let base = hist[l - red.count];
    assert(red.count == it.pos);
    lemma_front_item_transition(g, items, nexts, base as int, origin(it));
    assert(red.var == it.rule);
    assert(syn.spec_gotos()[base as int][red.var as int] == goto_entry(nexts[base as int], red.var));
}

/// An accepting parse has reduced the words to the start variable alone:
/// they are a sentence of the grammar.
proof fn lemma_accept_sound<'a>(p: Parse<'a>)
    requires
        p.wf(),
        p.next_action is Accept,
    ensures
        in_language(p.syn.spec_grammar(), p.words@),
        p.state_history@.len() == 2,
{
    reveal(start_dots);
    reveal(follows);
    let syn = p.syn;
    let g = syn.spec_grammar();
    let items = syn.spec_items();
    let nexts = syn.spec_nexts();
    let hist = p.state_history@;
    let top = hist.last();
    let syms = p.symbols@;
    let its = items[top as int];
    assert(syn.spec_actions()[top as int] == syn.actions@[top as int]@);
    let c = column(p.next_word);
    if p.next_word is Some {
        assert(p.next_word->Some_0 < syn.spec_word_count());
    }
    assert(syn.spec_actions()[top as int][c] == table_action(g, its, nexts[top as int], c));
    lemma_table_accept(g, its, nexts[top as int], c);
    assert(p.next_word is None);
    let k = choose|k: int| 0 <= k < its.len() && #[trigger] is_accept(g, its[k]);
    let it = its[k];
    assert(item_valid(g, items[top as int][k]));
    let n = g.spec_rule_count() as int;
    let m = g.spec_alt_count() as int;
    assert(it.rule == n - 1);
    assert(items[hist[hist.len() - 1] as int][k].pos == hist.len() - 1);
    assert(g.spec_rule_starts()[it.rule as int] <= it.alt < g.spec_rule_starts()[it.rule + 1]);
    assert(it.alt == m - 1);
    assert(g.spec_rhs(m - 1) == seq![Symbol::Variable(0)]);
    assert(syms.len() == 1);
    assert(syms.take(syms.len() as int) =~= syms);
    lemma_paths_end_with_items(g, items, nexts, syms, top as int);
    assert(is_suffix(before_dot(g, items[top as int][k]), syms));
    assert(before_dot(g, it) =~= seq![Symbol::Variable(0)]);
    assert(syms =~= seq![Symbol::Variable(0)]);
    assert(p.words@.take(p.count as int) =~= p.words@);
    lemma_derives_single(g, Symbol::Variable(0), p.words@, p.depth@);
    assert(derives_sym(g, Symbol::Variable(0), p.words@, p.depth@));
}

/// One instruction of a parse: a word shifted (with its position in the
/// input), or a reduction to a variable consuming `count` symbols.
#[derive(Clone, Copy, Debug, PartialEq, Eq, Structural)]
pub enum Instruction {
    Shift { word: usize, index: usize },
    Reduce { var: usize, count: usize },
}

/// What went wrong in a parse.
#[derive(Clone, Copy, Debug, PartialEq, Eq, Structural)]
pub enum ParseErrorType {
    /// No action for the state on the next word (`None`: end of input).
    InvalidAction { state: usize, word: Option<usize> },
    /// No goto for the state on the variable reduced to (tables compiled
    /// from a grammar always have one).
    InvalidGoto { state: usize, var: usize },
}

/// A parse error, after `count` words were shifted.
#[derive(Clone, Copy, Debug, PartialEq, Eq, Structural)]
pub struct ParseError {
    pub count: usize,
    pub source: ParseErrorType,
}

/// A parse of a sequence of words, driven step by step by `next`.
pub struct Parse<'a> {
    syn: &'a SynAnalyzer,
    words: Vec<usize>,
    pos: usize,
    count: usize,
    next_word: Option<usize>,
    next_action: Action,
    state_history: Vec<usize>,
    symbols: Ghost<Seq<Symbol>>,
    depth: Ghost<nat>,
}

/// The word after position `pos`, and the position after it.
pub open spec fn load(words: Seq<usize>, pos: int) -> (Option<usize>, int) {
    if pos < words.len() {
        (Some(words[pos]), pos + 1)
    } else {
        (None, pos)
    }
}

/// What one step of a parse does to the input read: a shift hands out the
/// next word with its index and counts it; any other step counts nothing;
/// the end comes once every word was shifted.
pub open spec fn shift_post<'a>(p0: Parse<'a>, r: Option<Result<Instruction, ParseError>>, p1: Parse<'a>) -> bool {
    &&& p1.spec_words() == p0.spec_words()
    &&& match r {
        Some(Ok(Instruction::Shift { word, index })) => {
            &&& index == p0.spec_count()
            &&& p0.spec_count() < p0.spec_words().len()
            &&& word == p0.spec_words()[p0.spec_count()]
            &&& p1.spec_count() == p0.spec_count() + 1
        },
        _ => p1.spec_count() == p0.spec_count(),
    }
    &&& (r is None ==> p0.spec_count() == p0.spec_words().len())
}

/// The words shifted in a run of steps, with their indices, in order.
pub open spec fn shifted(rs: Seq<Option<Result<Instruction, ParseError>>>) -> Seq<(usize, usize)>
    decreases rs.len(),
{
    if rs.len() == 0 {
        Seq::empty()
    } else {
        shifted(rs.drop_last()) + match rs.last() {
            Some(Ok(Instruction::Shift { word, index })) => seq![(word, index)],
            _ => Seq::empty(),
        }
    }
}

/// A run of a parse from its start shifts the words in order, each with
/// its index, and a run that ends with the input accepted has shifted
/// every word: `ps` are the parse's states and `rs` what each step gave.
pub proof fn lemma_run_shifts_the_input<'a>(ps: Seq<Parse<'a>>, rs: Seq<Option<Result<Instruction, ParseError>>>)
    requires
        ps.len() == rs.len() + 1,
        ps[0].spec_count() == 0,
        forall|i: int| #![trigger rs[i]] 0 <= i < rs.len() ==> shift_post(ps[i], rs[i], ps[i + 1]),
    ensures
        ps.last().spec_words() == ps[0].spec_words(),
        shifted(rs) == Seq::new(ps.last().spec_count() as nat, |k: int| (ps[0].spec_words()[k], k as usize)),
        rs.len() > 0 && rs.last() is None ==> shifted(rs).len() == ps[0].spec_words().len(),
    decreases rs.len(),
{
    if rs.len() > 0 {
        let n = rs.len() - 1;
        let ps2 = ps.take(n + 1);
        let rs2 = rs.drop_last();
        assert forall|i: int| #![trigger rs2[i]] 0 <= i < rs2.len() implies shift_post(ps2[i], rs2[i], ps2[i + 1]) by {
            assert(rs2[i] == rs[i]);
        }
        lemma_run_shifts_the_input(ps2, rs2);
        assert(shift_post(ps[n], rs[n], ps[n + 1]));
        assert(ps2.last() == ps[n]);
        assert(shifted(rs) =~= Seq::new(ps.last().spec_count() as nat, |k: int| (ps[0].spec_words()[k], k as usize)));
    } else {
        assert(shifted(rs) =~= Seq::new(ps.last().spec_count() as nat, |k: int| (ps[0].spec_words()[k], k as usize)));
    }
}

impl<'a> Parse<'a> {
    /// The tables driving the parse.
    pub closed spec fn spec_syn(&self) -> &'a SynAnalyzer {
        self.syn
    }

    /// The words being parsed.
    pub closed spec fn spec_words(&self) -> Seq<usize> {
        self.words@
    }

    /// How many words were read, the lookahead included.
    pub closed spec fn spec_pos(&self) -> int {
        self.pos as int
    }

    /// How many words were shifted.
    pub closed spec fn spec_count(&self) -> int {
        self.count as int
    }

    /// The lookahead word (`None`: end of input).
    pub closed spec fn spec_next_word(&self) -> Option<usize> {
        self.next_word
    }

    /// The action the tables give for the current state and the lookahead.
    pub closed spec fn spec_next_action(&self) -> Action {
        self.next_action
    }

    /// The stack of states, the current one last.
    pub closed spec fn spec_history(&self) -> Seq<usize> {
        self.state_history@
    }

    /// The symbols shifted or reduced to, one per transition between the
    /// states of the stack.
    pub closed spec fn spec_symbols(&self) -> Seq<Symbol> {
        self.symbols@
    }

    /// A bound on the nesting of rule applications by which the symbols
    /// derive the words shifted.
    pub closed spec fn spec_depth(&self) -> nat {
        self.depth@
    }

    /// The parse is consistent with its tables: the stack holds states, the
    /// current action is the table's, the lookahead is the last word read,
    /// and each state on the stack holds only items whose dot is at most
    /// its depth in the stack.
    pub open spec fn wf(&self) -> bool {
        let syn = self.spec_syn();
        let g = syn.spec_grammar();
        let items = syn.spec_items();
        let hist = self.spec_history();
        &&& syn.wf()
        &&& forall|i: int| 0 <= i < self.spec_words().len() ==> #[trigger] self.spec_words()[i] < syn.spec_word_count()
        &&& 0 <= self.spec_count() <= self.spec_pos() <= self.spec_words().len()
        &&& (self.spec_next_word() matches Some(w) ==> self.spec_pos() >= 1 && self.spec_count() == self.spec_pos() - 1 && w == self.spec_words()[self.spec_pos() - 1])
        &&& (self.spec_next_word() is None ==> self.spec_pos() == self.spec_words().len() && self.spec_count() == self.spec_pos())
        &&& hist.len() >= 1
        &&& states_in(items, hist)
        &&& self.spec_next_action() == syn.spec_actions()[hist.last() as int][column(self.spec_next_word())]
        &&& dots_within(items, hist)
        &&& start_dots(g, items, hist)
        &&& origins_below(items, hist)
        &&& self.spec_symbols().len() + 1 == hist.len()
        &&& follows(syn.spec_nexts(), hist, self.spec_symbols())
        &&& derives_seq(g, self.spec_symbols(), self.spec_words().take(self.spec_count()), self.spec_depth())
    }

    /// A parse of `words` with the tables `syn`, in the initial state.
    pub fn new(syn: &'a SynAnalyzer, words: Vec<usize>) -> (r: Self)
        requires
            syn.wf(),
            forall|i: int| 0 <= i < words@.len() ==> #[trigger] words@[i] < syn.spec_word_count(),
        ensures
            r.wf(),
            r.spec_syn() == syn,
            r.spec_words() == words@,
            r.spec_count() == 0,
            r.spec_history() == seq![0usize],
            (r.spec_next_word(), r.spec_pos()) == load(words@, 0),
    {
        let ghost g = syn.spec_grammar();
        let (next_word, pos) = if 0 < words.len() { (Some(words[0]), 1usize) } else { (None, 0usize) };
        let next_action = syn.action(0, next_word);
        let mut state_history: Vec<usize> = Vec::new();
        state_history.push(0);
        let r = Parse { syn, words, pos, count: 0, next_word, next_action, state_history, symbols: Ghost(Seq::empty()), depth: Ghost(0) };
        proof {
            reveal(dots_within);
            reveal(start_dots);
            reveal(origins_below);
            reveal(follows);
            let items = syn.spec_items();
            assert forall|j: int, k: int| 0 <= j < r.spec_history().len() && 0 <= k < items[r.spec_history()[j] as int].len() implies (#[trigger] items[r.spec_history()[j] as int][k]).pos <= j by {
                assert(j == 0);
                assert(r.spec_history()[0] == 0);
                let it = items[0][k];
                assert(items[0].to_set().contains(it));
                crate::lr1::lemma_closure_pos(g, Set::empty().insert(crate::lr1::start_item(g)), it);
            }
            assert forall|j: int, k: int| 0 <= j < r.spec_history().len() && 0 <= k < items[r.spec_history()[j] as int].len()
                implies items[r.spec_history()[j - (#[trigger] items[r.spec_history()[j] as int][k]).pos] as int].contains(origin(items[r.spec_history()[j] as int][k])) by {
                let it = items[0][k];
                assert(items[0].to_set().contains(it));
                crate::lr1::lemma_closure_pos(g, Set::empty().insert(crate::lr1::start_item(g)), it);
                assert(origin(it) == it);
                assert(items[0][k] == it);
            }
            assert forall|j: int| 0 <= j < r.spec_history().len() implies walk(syn.spec_nexts(), 0, #[trigger] r.spec_symbols().take(j)) == Some(r.spec_history()[j] as int) by {
                assert(r.spec_symbols().take(j).len() == 0);
            }
            assert(r.spec_words().take(0).len() == 0);
        }
        r
    }

    /// The next instruction of the parse: `None` once the input is accepted
    /// (the words are then a sentence of the grammar), an error where the
    /// tables have no action (the parse then stays where it is and gives
    /// the same error again). A reduction always finds its goto.
    pub fn next(&mut self) -> (r: Option<Result<Instruction, ParseError>>)
        requires
            old(self).wf(),
        ensures
            final(self).wf(),
            final(self).spec_syn() == old(self).spec_syn(),
            final(self).spec_words() == old(self).spec_words(),
            old(self).spec_next_action() is Invalid ==> r == Some(Err::<Instruction, ParseError>(ParseError {
                count: old(self).spec_count() as usize,
                source: ParseErrorType::InvalidAction { state: old(self).spec_history().last(), word: old(self).spec_next_word() },
            })) && *final(self) == *old(self),
            old(self).spec_next_action() is Accept ==> r is None && *final(self) == *old(self) && old(self).spec_next_word() is None,
            old(self).spec_next_action() is Accept ==> in_language(old(self).spec_syn().spec_grammar(), old(self).spec_words()),
            r is None ==> old(self).spec_count() == old(self).spec_words().len(),
            r matches Some(Err(e)) ==> e.source is InvalidAction,
            shift_post(*old(self), r, *final(self)),
            r is None ==> old(self).spec_history().len() == 2,
            old(self).spec_next_action() matches Action::Shift(ns) ==> {
                &&& old(self).spec_next_word() is Some
                &&& r == Some(Ok::<Instruction, ParseError>(Instruction::Shift { word: old(self).spec_next_word()->Some_0, index: old(self).spec_count() as usize }))
                &&& final(self).spec_count() == old(self).spec_count() + 1
                &&& final(self).spec_history() == old(self).spec_history().push(ns)
                &&& (final(self).spec_next_word(), final(self).spec_pos()) == load(old(self).spec_words(), old(self).spec_pos())
                &&& final(self).spec_next_action() == old(self).spec_syn().spec_actions()[ns as int][column(final(self).spec_next_word())]
            },
            old(self).spec_next_action() matches Action::Reduce(alt) ==> {
                let syn = old(self).spec_syn();
                let red = syn.spec_reductions()[alt as int];
                let hist = old(self).spec_history();
                let base = hist[hist.len() - 1 - red.count];
                &&& hist.len() - 1 - red.count >= 0
                &&& red.var < syn.spec_var_count()
                &&& syn.spec_gotos()[base as int][red.var as int] is Some
                &&& (syn.spec_gotos()[base as int][red.var as int] matches Some(ns) ==> {
                    &&& r == Some(Ok::<Instruction, ParseError>(Instruction::Reduce { var: red.var, count: red.count }))
                    &&& final(self).spec_history() == hist.take(hist.len() - red.count).push(ns)
                    &&& final(self).spec_next_action() == syn.spec_actions()[ns as int][column(old(self).spec_next_word())]
                    &&& final(self).spec_count() == old(self).spec_count()
                    &&& final(self).spec_pos() == old(self).spec_pos()
                    &&& final(self).spec_next_word() == old(self).spec_next_word()
                })
                &&& (syn.spec_gotos()[base as int][red.var as int] is None ==> {
                    &&& r == Some(Err::<Instruction, ParseError>(ParseError { count: old(self).spec_count() as usize, source: ParseErrorType::InvalidGoto { state: base, var: red.var } }))
                    &&& *final(self) == *old(self)
                })
            },
    {
        let ghost syn = self.syn;
        let ghost g = syn.spec_grammar();
        let ghost items = syn.spec_items();
        let ghost nexts = syn.spec_nexts();
        let ghost wc = syn.spec_word_count();
        let ghost hist = self.state_history@;
        let top = self.state_history[self.state_history.len() - 1];
        match self.next_action {
            Action::Invalid => {
                Some(Err(ParseError { count: self.count, source: ParseErrorType::InvalidAction { state: top, word: self.next_word } }))
            },
            Action::Accept => {
                proof {
                    lemma_accept_sound(*self);
                    assert(syn.spec_actions()[top as int] == syn.actions@[top as int]@);
                    let c = column(self.next_word);
                    if self.next_word is Some {
                        assert(self.next_word->Some_0 < wc);
                        assert(c <= wc);
                        lemma_accept_column(g, items[top as int], nexts[top as int], c);
                    }
                }
                None
            },
            Action::Shift(ns) => {
                let ghost before = *self;
                proof {
                    lemma_shift_facts(before, ns);
                }
                let word = match self.next_word {
                    Some(w) => w,
                    None => 0,
                };
                let (nw, np) = if self.pos < self.words.len() {
                    (Some(self.words[self.pos]), self.pos + 1)
                } else {
                    (None, self.pos)
                };
                proof {
                    if nw is Some {
                        assert(self.words@[self.pos as int] < wc);
                    }
                }
                let action = self.syn.action(ns, nw);
                let index = self.count;
                self.state_history.push(ns);
                self.next_word = nw;
                self.pos = np;
                self.next_action = action;
                self.count = self.count + 1;
                proof {
                    self.symbols@ = before.symbols@.push(Symbol::Terminal(word));
                    lemma_shift_wf(before, *self, ns, word);
                }
                Some(Ok(Instruction::Shift { word, index }))
            },
            Action::Reduce(alt) => {
                let ghost before = *self;
                proof {
                    lemma_reduce_facts(before, alt);
                    lemma_reduce_goto(before, alt);
                }
                let red = self.syn.reductions[alt];
                let len = self.state_history.len();
                let keep = len - red.count;
                let base = self.state_history[keep - 1];
                match self.syn.goto(base, red.var) {
                    Some(ns) => {
                        proof {
                            assert(syn.spec_gotos()[base as int] == syn.gotos@[base as int]@);
                            assert(syn.spec_gotos()[base as int][red.var as int] == goto_entry(nexts[base as int], red.var));
                            assert(transitions_ok(g, items, base as int, nexts[base as int]));
                            let next = nexts[base as int];
                            let t = choose|t: int| 0 <= t < next.len() && (#[trigger] next[t]).0 == Symbol::Variable(red.var);
                            assert(next[t].1 < items.len());
                        }
                        let action = self.syn.action(ns, self.next_word);
                        self.state_history.truncate(keep);
                        self.state_history.push(ns);
                        self.next_action = action;
                        proof {
                            self.symbols@ = before.symbols@.take(keep - 1).push(Symbol::Variable(red.var));
                            self.depth@ = before.depth@ + 1;
                            lemma_reduce_wf(before, *self, alt, ns);
                            assert(hist.take(hist.len() - red.count) =~= hist.subrange(0, keep as int));
                        }
                        Some(Ok(Instruction::Reduce { var: red.var, count: red.count }))
                    },
                    None => {
                        Some(Err(ParseError { count: self.count, source: ParseErrorType::InvalidGoto { state: base, var: red.var } }))
                    },
                }
            },
        }
    }
}

impl SynAnalyzer {
    /// A parse of `words` with these tables, in its initial state.
    pub fn parse(&self, words: Vec<usize>) -> (r: Parse<'_>)
        requires
            self.wf(),
            forall|i: int| 0 <= i < words@.len() ==> #[trigger] words@[i] < self.spec_word_count(),
        ensures
            r.wf(),
            r.spec_syn() == self,
            r.spec_words() == words@,
            r.spec_count() == 0,
            r.spec_history() == seq![0usize],
            (r.spec_next_word(), r.spec_pos()) == load(words@, 0),
    {
        Parse::new(self, words)
    }

    /// The number of words the tables know.
    pub fn word_count(&self) -> (r: usize)
        ensures
            r == self.spec_word_count(),
    {
        self.word_count
    }
}

/// Why a grammar has no LR(1) table (see `CompileError`).
#[derive(Debug)]
pub struct ConstructionError {
    pub state: usize,
    pub item: Item,
    pub action1: Action,
    pub action2: Action,
}

/// LR(1) tables for a grammar whose words are those it uses: `0` up to its
/// greatest terminal.
pub struct UncompressedTable {
    table: SynAnalyzer,
}

impl UncompressedTable {
    /// The tables underneath.
    pub closed spec fn spec_table(&self) -> SynAnalyzer {
        self.table
    }

    /// The tables of `grammar`, or the first conflict (as `SynDef::compile`,
    /// with one word per terminal up to the greatest the grammar uses).
    pub fn new(grammar: &Grammar) -> (r: Result<Self, ConstructionError>)
        requires
            grammar.wf(),
            terminals_below(*grammar, usize::MAX - 1),
        ensures
            exists|wc: usize, items: Seq<Seq<Item>>, nexts: Seq<Seq<(Symbol, usize)>>| #![trigger is_lr1a(*grammar, items, nexts), terminals_below(*grammar, wc as int)] {
                &&& terminals_below(*grammar, wc as int)
                &&& (wc == 0 || exists|a: int, i: int| 0 <= a < grammar.spec_alt_count() && 0 <= i < grammar.spec_rhs(a).len() && #[trigger] grammar.spec_rhs(a)[i] == Symbol::Terminal((wc - 1) as usize))
                &&& is_lr1a(*grammar, items, nexts)
                &&& (r is Ok <==> forall|s: int| 0 <= s < items.len() ==> !#[trigger] state_conflicts(*grammar, items[s], nexts[s]))
                &&& (r matches Ok(t) ==> t.spec_table().wf() && t.spec_table().spec_items() == items && t.spec_table().spec_nexts() == nexts && t.spec_table().spec_word_count() == wc && t.spec_table().spec_grammar() == *grammar)
                &&& (r matches Err(e) ==> e.state < items.len()
                    && (forall|s: int| 0 <= s < e.state ==> !#[trigger] state_conflicts(*grammar, items[s], nexts[s]))
                    && first_conflict(*grammar, items[e.state as int], nexts[e.state as int], e.item, e.action1, e.action2))
            },
    {
        proof {
            assert forall|a: int, i: int| 0 <= a < grammar.spec_alt_count() && 0 <= i < grammar.spec_rhs(a).len() implies (#[trigger] grammar.spec_rhs(a)[i] matches Symbol::Terminal(t) ==> t < usize::MAX) by {
                assert(terminals_below(*grammar, usize::MAX - 1));
            }
        }
        let wc = grammar.word_count();
        proof {
            if wc > 0 {
                let (a, i) = choose|a: int, i: int| 0 <= a < grammar.spec_alt_count() && 0 <= i < grammar.spec_rhs(a).len() && #[trigger] grammar.spec_rhs(a)[i] == Symbol::Terminal((wc - 1) as usize);
                assert(grammar.spec_rhs(a)[i] matches Symbol::Terminal(t) ==> t < usize::MAX - 1);
            }
            assert forall|a: int, i: int| 0 <= a < grammar.spec_alt_count() && 0 <= i < grammar.spec_rhs(a).len() implies (#[trigger] grammar.spec_rhs(a)[i] matches Symbol::Terminal(t) ==> t < wc) by {}
        }
        let r = build_tables(grammar, wc);
        let ghost (items, nexts) = choose|items: Seq<Seq<Item>>, nexts: Seq<Seq<(Symbol, usize)>>| #[trigger] is_lr1a(*grammar, items, nexts) && compile_outcome(*grammar, wc, items, nexts, r);
        let out = match r {
            Ok(table) => Ok(UncompressedTable { table }),
            Err(e) => Err(ConstructionError { state: e.state, item: e.item, action1: e.action1, action2: e.action2 }),
        };
        proof {
            assert(terminals_below(*grammar, wc as int));
            assert(is_lr1a(*grammar, items, nexts));
        }
        out
    }

    /// The action for `state` when the next word is `word` (`None`: end of input).
    pub fn action(&self, state: usize, word: Option<usize>) -> (r: Action)
        requires
            self.spec_table().wf(),
            state < self.spec_table().spec_state_count(),
            word matches Some(w) ==> w < self.spec_table().spec_word_count(),
        ensures
            r == self.spec_table().spec_actions()[state as int][column(word)],
    {
        self.table.action(state, word)
    }

    /// The state to go to from `state` after reducing to variable `var`.
    pub fn goto(&self, state: usize, var: usize) -> (r: Option<usize>)
        requires
            self.spec_table().wf(),
            state < self.spec_table().spec_state_count(),
            var < self.spec_table().spec_var_count(),
        ensures
            r == self.spec_table().spec_gotos()[state as int][var as int],
    {
        self.table.goto(state, var)
    }

    /// What reducing by alternative `alt` produces.
    pub fn reduction(&self, alt: usize) -> (r: Reduction)
        requires
            self.spec_table().wf(),
            alt < self.spec_table().spec_reductions().len(),
        ensures
            r == self.spec_table().spec_reductions()[alt as int],
    {
        self.table.reduction(alt)
    }
}

impl SynAnalyzer {
    /// What reducing by alternative `alt` produces.
    pub fn reduction(&self, alt: usize) -> (r: Reduction)
        requires
            alt < self.spec_reductions().len(),
        ensures
            r == self.spec_reductions()[alt as int],
    {
        self.reductions[alt]
    }

    /// The number of variables, the start variable excluded.
    pub fn var_count(&self) -> (r: usize)
        ensures
            r == self.spec_var_count(),
    {
        self.var_count
    }

    /// The number of words (terminal classes).
    pub fn term_count(&self) -> (r: usize)
        ensures
            r == self.spec_word_count(),
    {
        self.word_count
    }

    /// The action table, one row per state, one column per lookahead
    /// (end of input first, then each word).
    pub fn actions(&self) -> (r: &[Vec<Action>])
        ensures
            r@.len() == self.spec_actions().len(),
            forall|s: int| 0 <= s < r@.len() ==> (#[trigger] r@[s])@ == self.spec_actions()[s],
    {
        self.actions.as_slice()
    }

    /// The goto table, one row per state, one column per variable.
    pub fn gotos(&self) -> (r: &[Vec<Option<usize>>])
        ensures
            r@.len() == self.spec_gotos().len(),
            forall|s: int| 0 <= s < r@.len() ==> (#[trigger] r@[s])@ == self.spec_gotos()[s],
    {
        self.gotos.as_slice()
    }
}


} // verus!
