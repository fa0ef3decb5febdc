//! The intermediate form of a lexer and parser to be written out as code: each lexer
//! state's transitions grouped by destination into byte intervals, and each
//! parser state's valid actions and gotos listed.

use vstd::prelude::*;
use crate::cfg::{Grammar, Symbol};
use crate::first::terminals_below;
use crate::lr1::{Item, LR1A, is_lr1a, item_valid, item_ok, lemma_lr1a_items_ok, walk, is_suffix, before_dot, lemma_paths_end_with_items};
use crate::parser::{ParserDef, NaiveLR1Table, ConstructionError, LR1, word_count_of, resolved_outcome};
use crate::first::key_elem;
use crate::lex::{Command, LexDef, copy_strings};
use crate::scanning::ArrayScanningTable;
use crate::syn::Action;

verus! {

/// An action of a parser state on a word (`None`: end of input).
#[derive(Clone, Copy, Debug, PartialEq, Eq, Structural)]
pub struct TTransition {
    pub word: Option<usize>,
    pub action: Action,
}

/// The state a parser state goes to after a reduction to `var`.
#[derive(Clone, Copy, Debug, PartialEq, Eq, Structural)]
pub struct NTTransition {
    pub var: usize,
    pub dst: usize,
}

/// A parser state: the symbols that lead to it, its valid actions, its
/// gotos, and whether any action is a shift.
pub struct ParserState {
    pub id: usize,
    pub input_symbols: Vec<Symbol>,
    pub ttrans: Vec<TTransition>,
    pub nttrans: Vec<NTTransition>,
    pub has_shift_transitions: bool,
}

/// The valid actions of an action row (column 0: end of input, column
/// `a + 1`: word `a`), in column order.
pub open spec fn ttrans_of(row: Seq<Action>) -> Seq<TTransition>
    decreases row.len(),
{
    if row.len() == 0 {
        Seq::empty()
    } else {
        let rest = ttrans_of(row.drop_last());
        if row.last() is Invalid {
            rest
        } else {
            rest.push(TTransition { word: key_elem((row.len() - 1) as nat), action: row.last() })
        }
    }
}

/// The defined gotos of a goto row, in variable order.
pub open spec fn nttrans_of(row: Seq<Option<usize>>) -> Seq<NTTransition>
    decreases row.len(),
{
    if row.len() == 0 {
        Seq::empty()
    } else {
        let rest = nttrans_of(row.drop_last());
        match row.last() {
            Some(dst) => rest.push(NTTransition { var: (row.len() - 1) as usize, dst }),
            None => rest,
        }
    }
}

impl ParserState {
    /// The state `id` with its input symbols, from its action and goto rows.
    pub fn new(id: usize, input_symbols: &[Symbol], action_row: &[Action], goto_row: &[Option<usize>]) -> (r: Self)
        ensures
            r.id == id,
            r.input_symbols@ == input_symbols@,
            r.ttrans@ == ttrans_of(action_row@),
            r.nttrans@ == nttrans_of(goto_row@),
            r.has_shift_transitions == exists|c: int| 0 <= c < action_row@.len() && #[trigger] action_row@[c] is Shift,
    {
        let mut ttrans: Vec<TTransition> = Vec::new();
        let mut has_shift = false;
        let mut c = 0usize;
        while c < action_row.len()
            invariant
                c <= action_row@.len(),
                ttrans@ == ttrans_of(action_row@.take(c as int)),
                has_shift == exists|d: int| 0 <= d < c && #[trigger] action_row@[d] is Shift,
            decreases action_row@.len() - c,
        {
            let action = action_row[c];
            proof {
                let t = action_row@.take(c + 1);
                assert(t.drop_last() =~= action_row@.take(c as int));
                assert(t.last() == action);
            }
            match action {
                Action::Invalid => {},
                _ => {
                    let word = if c > 0 { Some(c - 1) } else { None };
                    ttrans.push(TTransition { word, action });
                },
            }
            if let Action::Shift(_) = action {
                has_shift = true;
            }
            c += 1;
        }
        let mut nttrans: Vec<NTTransition> = Vec::new();
        let mut v = 0usize;
        while v < goto_row.len()
            invariant
                v <= goto_row@.len(),
                nttrans@ == nttrans_of(goto_row@.take(v as int)),
            decreases goto_row@.len() - v,
        {
            proof {
                let t = goto_row@.take(v + 1);
                assert(t.drop_last() =~= goto_row@.take(v as int));
            }
            if let Some(dst) = goto_row[v] {
                nttrans.push(NTTransition { var: v, dst });
            }
            v += 1;
        }
        proof {
            assert(action_row@.take(action_row@.len() as int) =~= action_row@);
            assert(goto_row@.take(goto_row@.len() as int) =~= goto_row@);
        }
        let mut symbols: Vec<Symbol> = Vec::new();
        let mut k = 0usize;
        while k < input_symbols.len()
            invariant
                k <= input_symbols@.len(),
                symbols@ == input_symbols@.take(k as int),
            decreases input_symbols@.len() - k,
        {
            symbols.push(input_symbols[k]);
            k += 1;
            assert(symbols@ =~= input_symbols@.take(k as int));
        }
        assert(symbols@ =~= input_symbols@);
        ParserState { id, input_symbols: symbols, ttrans, nttrans, has_shift_transitions: has_shift }
    }
}

/// The bytes that lead a lexer state to `dst`, as intervals.
pub struct Transition {
    pub intervals: Vec<(u8, u8)>,
    pub dst: usize,
}

/// A lexer state: its transitions other than to the sink, grouped by
/// destination; whether one leads to a state of no class; its class.
pub struct LexerState {
    pub id: usize,
    pub transitions: Vec<Transition>,
    pub can_transition_to_unlabelled_state: bool,
    pub class: Option<usize>,
}

/// The bytes below `n` that `row` maps to `d`, as maximal intervals in
/// increasing order.
pub open spec fn runs(row: Seq<usize>, d: usize, n: int) -> Seq<(u8, u8)>
    decreases n,
{
    if n <= 0 {
        Seq::empty()
    } else {
        let prev = runs(row, d, n - 1);
        if row[n - 1] != d {
            prev
        } else if prev.len() > 0 && prev.last().1 + 1 == n - 1 {
            prev.update(prev.len() - 1, (prev.last().0, (n - 1) as u8))
        } else {
            prev.push(((n - 1) as u8, (n - 1) as u8))
        }
    }
}

/// The destinations below `m`, other than `sink`, that some byte of `row`
/// leads to, in increasing order.
pub open spec fn dst_list(row: Seq<usize>, sink: int, m: int) -> Seq<usize>
    decreases m,
{
    if m <= 0 {
        Seq::empty()
    } else {
        let prev = dst_list(row, sink, m - 1);
        if m - 1 != sink && exists|c: int| 0 <= c < 256 && #[trigger] row[c] == m - 1 {
            prev.push((m - 1) as usize)
        } else {
            prev
        }
    }
}

proof fn lemma_runs_nonempty(row: Seq<usize>, d: usize, n: int)
    requires
        0 <= n,
    ensures
        runs(row, d, n).len() > 0 <==> exists|c: int| 0 <= c < n && #[trigger] row[c] == d,
    decreases n,
{
    if n > 0 {
        lemma_runs_nonempty(row, d, n - 1);
        if row[n - 1] == d {
            assert(row[n - 1] == d);
        } else {
            if exists|c: int| 0 <= c < n && #[trigger] row[c] == d {
                let c = choose|c: int| 0 <= c < n && #[trigger] row[c] == d;
                assert(c < n - 1);
            }
        }
    }
}

/// `c` lies in one of the intervals of `ivs`.
pub open spec fn in_some_interval(ivs: Seq<(u8, u8)>, c: int) -> bool {
    exists|k: int| 0 <= k < ivs.len() && (#[trigger] ivs[k]).0 <= c && c <= ivs[k].1
}

/// Law: the intervals that `row` maps to `d` below `n` hold exactly the
/// bytes below `n` that `row` maps to `d`; they are in increasing order,
/// and no two of them touch.
pub proof fn lemma_runs_cover(row: Seq<usize>, d: usize, n: int)
    requires
        0 <= n <= 256,
    ensures
        forall|c: int| 0 <= c < 256 ==> (#[trigger] in_some_interval(runs(row, d, n), c) <==> (c < n && row[c] == d)),
        forall|k: int| 0 <= k < runs(row, d, n).len() ==> (#[trigger] runs(row, d, n)[k]).0 <= runs(row, d, n)[k].1 && runs(row, d, n)[k].1 < n,
        forall|k: int| 0 < k < runs(row, d, n).len() ==> runs(row, d, n)[k - 1].1 + 1 < (#[trigger] runs(row, d, n)[k]).0,
    decreases n,
{
    if n > 0 {
        lemma_runs_cover(row, d, n - 1);
        let prev = runs(row, d, n - 1);
        let cur = runs(row, d, n);
        if row[n - 1] != d {
            assert forall|c: int| 0 <= c < 256 implies (#[trigger] in_some_interval(cur, c) <==> (c < n && row[c] == d)) by {
                assert(in_some_interval(prev, c) <==> (c < n - 1 && row[c] == d));
            }
        } else if prev.len() > 0 && prev.last().1 + 1 == n - 1 {
            let l = prev.len() - 1;
            assert(cur == prev.update(l, (prev.last().0, (n - 1) as u8)));
            assert forall|c: int| 0 <= c < 256 implies (#[trigger] in_some_interval(cur, c) <==> (c < n && row[c] == d)) by {
                if in_some_interval(cur, c) {
                    let k = choose|k: int| 0 <= k < cur.len() && (#[trigger] cur[k]).0 <= c && c <= cur[k].1;
                    if k != l {
                        assert(cur[k] == prev[k]);
                        assert(in_some_interval(prev, c));
                    } else if c < n - 1 {
                        assert(prev[l].0 <= c && c <= prev[l].1);
                        assert(in_some_interval(prev, c));
                    }
                }
                if c < n && row[c] == d {
                    if c == n - 1 {
                        assert(cur[l].0 <= c && c <= cur[l].1);
                    } else {
                        assert(in_some_interval(prev, c));
                        let k = choose|k: int| 0 <= k < prev.len() && (#[trigger] prev[k]).0 <= c && c <= prev[k].1;
                        if k != l {
                            assert(cur[k] == prev[k]);
                        } else {
                            assert(cur[l].0 <= c && c <= cur[l].1);
                        }
                    }
                }
            }
        } else {
            assert(cur == prev.push(((n - 1) as u8, (n - 1) as u8)));
            assert forall|c: int| 0 <= c < 256 implies (#[trigger] in_some_interval(cur, c) <==> (c < n && row[c] == d)) by {
                if in_some_interval(cur, c) {
                    let k = choose|k: int| 0 <= k < cur.len() && (#[trigger] cur[k]).0 <= c && c <= cur[k].1;
                    if k < prev.len() {
                        assert(cur[k] == prev[k]);
                        assert(in_some_interval(prev, c));
                    }
                }
                if c < n && row[c] == d {
                    if c == n - 1 {
                        assert(cur[prev.len() as int].0 <= c && c <= cur[prev.len() as int].1);
                    } else {
                        assert(in_some_interval(prev, c));
                        let k = choose|k: int| 0 <= k < prev.len() && (#[trigger] prev[k]).0 <= c && c <= prev[k].1;
                        assert(cur[k] == prev[k]);
                    }
                }
            }
            if prev.len() > 0 {
                assert(prev.last().1 + 1 != n - 1);
                assert(prev.last().1 < n - 1);
            }
        }
    }
}

/// The intervals of bytes that `row` maps to `d`.
fn intervals(row: &[usize], d: usize) -> (r: Vec<(u8, u8)>)
    requires
        row@.len() == 256,
    ensures
        r@ == runs(row@, d, 256),
{
    let mut iv: Vec<(u8, u8)> = Vec::new();
    let mut c = 0usize;
    while c < 256
        invariant
            row@.len() == 256,
            c <= 256,
            iv@ == runs(row@, d, c as int),
            forall|k: int| 0 <= k < iv@.len() ==> (#[trigger] iv@[k]).1 < c,
        decreases 256 - c,
    {
        if row[c] == d {
            let n = iv.len();
            if n > 0 && iv[n - 1].1 as usize + 1 == c {
                let first = iv[n - 1].0;
                iv.set(n - 1, (first, c as u8));
            } else {
                iv.push((c as u8, c as u8));
            }
        }
        c += 1;
    }
    iv
}

/// `r` is state `index` of `table`: its class, the destinations of its
/// row other than the sink in increasing order, each with the intervals of
/// bytes that lead there, and whether a byte leads to a state of no class.
pub open spec fn is_lexer_state(table: ArrayScanningTable, index: int, r: LexerState) -> bool {
    let row = table.spec_next().subrange(256 * index, 256 * index + 256);
    let dsts = dst_list(row, table.spec_sink(), table.spec_classes().len() as int);
    &&& r.id == index
    &&& r.class == table.spec_classes()[index]
    &&& r.transitions@.len() == dsts.len()
    &&& forall|i: int| 0 <= i < dsts.len() ==> (#[trigger] r.transitions@[i]).dst == dsts[i] && r.transitions@[i].intervals@ == runs(row, dsts[i], 256)
    &&& r.can_transition_to_unlabelled_state == exists|c: int| 0 <= c < 256 && #[trigger] row[c] != table.spec_sink() && table.spec_classes()[row[c] as int] is None
}

/// Law: each transition of a lexer state goes to `dst` on exactly the
/// bytes of its intervals: a byte lies in one of them if and only if the
/// state's row of the table leads it to `dst`.
pub proof fn lemma_lexer_state_transitions(table: ArrayScanningTable, index: int, r: LexerState)
    requires
        is_lexer_state(table, index, r),
    ensures
        forall|i: int, c: int| 0 <= i < r.transitions@.len() && 0 <= c < 256 ==>
            (#[trigger] in_some_interval(r.transitions@[i].intervals@, c)
                <==> table.spec_next().subrange(256 * index, 256 * index + 256)[c] == r.transitions@[i].dst),
{
    let row = table.spec_next().subrange(256 * index, 256 * index + 256);
    assert forall|i: int, c: int| 0 <= i < r.transitions@.len() && 0 <= c < 256 implies
        (#[trigger] in_some_interval(r.transitions@[i].intervals@, c) <==> row[c] == r.transitions@[i].dst) by {
        lemma_runs_cover(row, r.transitions@[i].dst, 256);
    }
}

impl LexerState {
    /// State `index` of the table (not its sink).
    pub fn new(table: &ArrayScanningTable, index: usize) -> (r: Self)
        requires
            table.wf(),
            index < table.spec_sink(),
        ensures
            is_lexer_state(*table, index as int, r),
    {
        let ghost row = table.spec_next().subrange(256 * index, 256 * index + 256);
        let sink = table.sink();
        let mut cells: Vec<usize> = Vec::new();
        let mut unlabelled = false;
        let mut c = 0usize;
        while c < 256
            invariant
                table.wf(),
                index < table.spec_sink(),
                sink == table.spec_sink(),
                row == table.spec_next().subrange(256 * index, 256 * index + 256),
                c <= 256,
                cells@ == row.take(c as int),
                unlabelled == exists|e: int| 0 <= e < c && #[trigger] row[e] != sink && table.spec_classes()[row[e] as int] is None,
            decreases 256 - c,
        {
            let dst = table.step(index, c as u8);
            assert(dst == row[c as int]);
            if dst != sink && table.class(dst).is_none() {
                unlabelled = true;
            }
            cells.push(dst);
            c += 1;
            assert(cells@ =~= row.take(c as int));
        }
        assert(cells@ =~= row);
        let m = table.state_count();
        let mut transitions: Vec<Transition> = Vec::new();
        let ghost mut dsts: Seq<usize> = Seq::empty();
        let mut d = 0usize;
        while d < m
            invariant
                table.wf(),
                sink == table.spec_sink(),
                m == table.spec_classes().len(),
                cells@ == row,
                row.len() == 256,
                d <= m,
                dsts == dst_list(row, sink as int, d as int),
                transitions@.len() == dsts.len(),
                forall|i: int| 0 <= i < dsts.len() ==> (#[trigger] transitions@[i]).dst == dsts[i] && transitions@[i].intervals@ == runs(row, dsts[i], 256),
            decreases m - d,
        {
            let iv = intervals(cells.as_slice(), d);
            proof {
                lemma_runs_nonempty(row, d, 256);
            }
            if d != sink && iv.len() > 0 {
                transitions.push(Transition { intervals: iv, dst: d });
                proof {
                    dsts = dsts.push(d);
                }
            }
            d += 1;
        }
        LexerState { id: index, transitions, can_transition_to_unlabelled_state: unlabelled, class: table.class(index) }
    }
}

/// A lexer in intermediate form: its name, its token types, their
/// commands, the number of emitted token types (the end of input counted),
/// and its states.
pub struct Lexer {
    pub name: String,
    pub ttypes: Vec<String>,
    pub commands: Vec<Command>,
    pub ttype_count: usize,
    pub states: Vec<LexerState>,
}

/// The number of commands that emit.
pub open spec fn emit_count(commands: Seq<Command>) -> nat
    decreases commands.len(),
{
    if commands.len() == 0 {
        0
    } else {
        emit_count(commands.drop_last()) + if commands.last() == Command::Emit { 1nat } else { 0nat }
    }
}

/// `r` is the lexer of `def` in intermediate form, named `name`: its
/// token types, commands and number of emitted types, and the states of
/// the scanning table of `def` other than the sink.
pub open spec fn lexer_ir_of(def: LexDef, name: Seq<char>, r: Lexer) -> bool {
    &&& r.name@ == name
    &&& r.ttypes@ == def.labels@
    &&& r.commands@ == def.commands@
    &&& r.ttype_count == emit_count(def.commands@) + 1
    &&& exists|t: ArrayScanningTable| #![trigger t.wf()] {
        &&& t.wf()
        &&& t.spec_commands() == def.commands@
        &&& (crate::dfa::vec_not_free(def.regexes@) ==> forall|w: Seq<u8>| #[trigger] t.spec_classes()[crate::scanning::scan_run(t.spec_next(), t.spec_sink(), 0, w)] == crate::dfa::first_match(def.regexes@, w))
        &&& r.states@.len() == t.spec_sink()
        &&& forall|i: int| 0 <= i < t.spec_sink() ==> #[trigger] is_lexer_state(t, i, r.states@[i])
    }
}

impl Lexer {
    /// The lexer of `def` in intermediate form, named `name`.
    pub fn new(name: &str, def: &LexDef) -> (r: Self)
        requires
            forall|k: int| 0 <= k < def.regexes@.len() ==> #[trigger] crate::regex::wf(def.regexes@[k]),
            def.commands@.len() < usize::MAX,
        ensures
            lexer_ir_of(*def, name@, r),
    {
        let commands = copy_commands(&def.commands);
        let table = ArrayScanningTable::new(&def.regexes, copy_commands(&def.commands));
        let mut count = 0usize;
        let mut k = 0usize;
        while k < commands.len()
            invariant
                commands@ == def.commands@,
                commands@.len() < usize::MAX,
                k <= commands@.len(),
                count == emit_count(commands@.take(k as int)),
                count <= k,
            decreases commands@.len() - k,
        {
            proof {
                assert(commands@.take(k + 1).drop_last() =~= commands@.take(k as int));
            }
            if let Command::Emit = commands[k] {
                count += 1;
            }
            k += 1;
        }
        assert(commands@.take(commands@.len() as int) =~= commands@);
        let sink = table.sink();
        let mut states: Vec<LexerState> = Vec::new();
        let mut i = 0usize;
        while i < sink
            invariant
                table.wf(),
                sink == table.spec_sink(),
                i <= sink,
                states@.len() == i,
                forall|j: int| 0 <= j < i ==> #[trigger] is_lexer_state(table, j, states@[j]),
            decreases sink - i,
        {
            states.push(LexerState::new(&table, i));
            i += 1;
        }
        Lexer { name: name.to_owned(), ttypes: copy_strings(&def.labels), commands, ttype_count: count + 1, states }
    }
}

/// A copy of a list of commands.
fn copy_commands(v: &Vec<Command>) -> (r: Vec<Command>)
    ensures
        r@ == v@,
{
    let mut r: Vec<Command> = Vec::new();
    let mut i = 0usize;
    while i < v.len()
        invariant
            i <= v@.len(),
            r@ == v@.take(i as int),
        decreases v@.len() - i,
    {
        r.push(v[i]);
        i += 1;
        assert(r@ =~= v@.take(i as int));
    }
    assert(r@ =~= v@);
    r
}

/// The index of the last of the first `n` items whose dot is furthest right.
pub open spec fn last_max_pos(its: Seq<Item>, n: int) -> int
    decreases n,
{
    if n <= 1 {
        0
    } else {
        let j = last_max_pos(its, n - 1);
        if its[n - 1].pos >= its[j].pos { n - 1 } else { j }
    }
}

/// The symbols before the dot of the last item of a state whose dot is
/// furthest right: what every path into the state ends with.
pub open spec fn input_symbols_of(g: Grammar, its: Seq<Item>) -> Seq<Symbol> {
    if its.len() == 0 {
        Seq::empty()
    } else {
        let it = its[last_max_pos(its, its.len() as int)];
        g.spec_rhs(it.alt as int).take(it.pos as int)
    }
}

proof fn lemma_last_max_pos(its: Seq<Item>, n: int)
    requires
        1 <= n <= its.len(),
    ensures
        0 <= last_max_pos(its, n) < n,
        forall|k: int| 0 <= k < n ==> (#[trigger] its[k]).pos <= its[last_max_pos(its, n)].pos,
    decreases n,
{
    if n > 1 {
        lemma_last_max_pos(its, n - 1);
    }
}

/// Law: the input symbols of a state are the symbols before the dot of one
/// of its items, and at least as many as those before the dot of any of its
/// items: no item has its dot further right.
pub proof fn lemma_input_symbols_longest(g: Grammar, its: Seq<Item>)
    requires
        its.len() > 0,
        forall|k: int| 0 <= k < its.len() ==> (#[trigger] its[k]).pos <= g.spec_rhs(its[k].alt as int).len(),
    ensures
        exists|k: int| 0 <= k < its.len() && input_symbols_of(g, its) == g.spec_rhs((#[trigger] its[k]).alt as int).take(its[k].pos as int),
        forall|k: int| 0 <= k < its.len() ==> (#[trigger] its[k]).pos <= input_symbols_of(g, its).len(),
{
    lemma_last_max_pos(its, its.len() as int);
    let j = last_max_pos(its, its.len() as int);
    assert(input_symbols_of(g, its) == g.spec_rhs(its[j].alt as int).take(its[j].pos as int));
}

/// Every path of transitions from the start state of an LR(1) automaton
/// ends with the input symbols of the state it leads to.
pub proof fn lemma_input_symbols_end_paths(g: Grammar, items: Seq<Seq<Item>>, nexts: Seq<Seq<(Symbol, usize)>>, w: Seq<Symbol>, q: int)
    requires
        is_lr1a(g, items, nexts),
        walk(nexts, 0, w) == Some(q),
    ensures
        is_suffix(input_symbols_of(g, items[q]), w),
{
    lemma_paths_end_with_items(g, items, nexts, w, q);
    if items[q].len() == 0 {
        assert(w.subrange(w.len() as int, w.len() as int) =~= Seq::<Symbol>::empty());
    } else {
        let k = last_max_pos(items[q], items[q].len() as int);
        lemma_last_max_pos(items[q], items[q].len() as int);
        assert(is_suffix(before_dot(g, items[q][k]), w));
    }
}

/// The input symbols of a state with items `its`.
fn input_symbols(grammar: &Grammar, its: &Vec<Item>) -> (r: Vec<Symbol>)
    requires
        grammar.wf(),
        forall|k: int| 0 <= k < its@.len() ==> item_valid(*grammar, #[trigger] its@[k]),
    ensures
        r@ == input_symbols_of(*grammar, its@),
{
    let mut r: Vec<Symbol> = Vec::new();
    if its.len() == 0 {
        return r;
    }
    let mut best = 0usize;
    let mut k = 1usize;
    while k < its.len()
        invariant
            1 <= k <= its@.len(),
            best == last_max_pos(its@, k as int),
            best < k,
        decreases its@.len() - k,
    {
        if its[k].pos >= its[best].pos {
            best = k;
        }
        k += 1;
    }
    let it = its[best];
    assert(item_valid(*grammar, its@[best as int]));
    let rhs = grammar.alt(it.alt);
    let mut j = 0usize;
    while j < it.pos
        invariant
            it.pos <= rhs@.len(),
            j <= it.pos,
            r@ == rhs@.take(j as int),
        decreases it.pos - j,
    {
        r.push(rhs[j]);
        j += 1;
        assert(r@ =~= rhs@.take(j as int));
    }
    r
}

/// `states` are the parser states of the tables `t` of the automaton with
/// item sets `items`.
pub open spec fn parser_states_of(g: Grammar, items: Seq<Seq<Item>>, t: NaiveLR1Table, states: Seq<ParserState>) -> bool {
    &&& states.len() == t.spec_actions().len()
    &&& forall|i: int| 0 <= i < states.len() ==> {
        &&& (#[trigger] states[i]).id == i
        &&& states[i].input_symbols@ == input_symbols_of(g, items[i])
        &&& states[i].ttrans@ == ttrans_of(t.spec_actions()[i])
        &&& states[i].nttrans@ == nttrans_of(t.spec_gotos()[i])
        &&& states[i].has_shift_transitions == exists|c: int| 0 <= c < t.spec_actions()[i].len() && #[trigger] t.spec_actions()[i][c] is Shift
    }
}

/// The outcome of building the parser of `def`: with `wc` words and the
/// LR(1) automaton `items`/`nexts`, the tables `t` are those that conflict
/// resolution gives; the parser's states are theirs, or its error is
/// theirs.
pub open spec fn parser_outcome(def: ParserDef, wc: nat, items: Seq<Seq<Item>>, nexts: Seq<Seq<(Symbol, usize)>>, t: Result<NaiveLR1Table, ConstructionError>, r: Result<Parser, ConstructionError>) -> bool {
    &&& word_count_of(def.grammar, wc)
    &&& is_lr1a(def.grammar, items, nexts)
    &&& resolved_outcome(def.grammar, def.token_precedence@, def.production_precedence@, wc + 1, items, nexts, t)
    &&& match (t, r) {
        (Ok(tab), Ok(p)) => parser_states_of(def.grammar, items, tab, p.states@),
        (Err(e1), Err(e2)) => e1 == e2,
        _ => false,
    }
}

/// Law: in the parser built for `def`, the input symbols of every state are
/// at least as many as the symbols before the dot of any item of its LR(1)
/// item set, and are those of one of its items.
pub proof fn lemma_parser_input_symbols(def: ParserDef, wc: nat, items: Seq<Seq<Item>>, nexts: Seq<Seq<(Symbol, usize)>>, t: Result<NaiveLR1Table, ConstructionError>, p: Parser)
    requires
        def.grammar.wf(),
        parser_outcome(def, wc, items, nexts, t, Ok(p)),
    ensures
        p.states@.len() == items.len(),
        forall|i: int, k: int| 0 <= i < items.len() && 0 <= k < items[i].len() ==>
            (#[trigger] items[i][k]).pos <= p.states@[i].input_symbols@.len(),
        forall|i: int| #![trigger p.states@[i]] 0 <= i < items.len() && items[i].len() > 0 ==>
            exists|k: int| 0 <= k < items[i].len() && p.states@[i].input_symbols@
                == def.grammar.spec_rhs((#[trigger] items[i][k]).alt as int).take(items[i][k].pos as int),
{
    let g = def.grammar;
    assert forall|i: int| 0 <= i < items.len() implies
        (forall|k: int| 0 <= k < items[i].len() ==> (#[trigger] items[i][k]).pos <= p.states@[i].input_symbols@.len())
        && (items[i].len() > 0 ==> exists|k: int| 0 <= k < items[i].len() && p.states@[i].input_symbols@
                == g.spec_rhs((#[trigger] items[i][k]).alt as int).take(items[i][k].pos as int)) by {
        lemma_lr1a_items_ok(g, wc as int, items, nexts, i);
        assert(p.states@[i].input_symbols@ == input_symbols_of(g, items[i]));
        if items[i].len() > 0 {
            assert forall|k: int| 0 <= k < items[i].len() implies (#[trigger] items[i][k]).pos <= g.spec_rhs(items[i][k].alt as int).len() by {
                assert(item_ok(g, wc as int, items[i][k]));
            }
            lemma_input_symbols_longest(g, items[i]);
        }
    }
}

/// A parser in intermediate form: its name, its lexer, its variable names,
/// its grammar, and its states.
pub struct Parser {
    pub name: String,
    pub lexer: Lexer,
    pub varnames: Vec<String>,
    pub grammar: Grammar,
    pub states: Vec<ParserState>,
}

impl Parser {
    /// The parser of `def` in intermediate form, named `name`, its tables
    /// built by `strategy`; or the conflict that precedence leaves.
    pub fn new(name: &str, def: &ParserDef, strategy: &LR1) -> (r: Result<Self, ConstructionError>)
        requires
            forall|k: int| 0 <= k < def.lexer_def.regexes@.len() ==> #[trigger] crate::regex::wf(def.lexer_def.regexes@[k]),
            def.lexer_def.commands@.len() < usize::MAX,
            def.grammar.wf(),
            terminals_below(def.grammar, usize::MAX - 1),
            terminals_below(def.grammar, def.token_precedence@.len() as int),
            def.production_precedence@.len() == def.grammar.spec_alt_count(),
        ensures
            exists|wc: nat, items: Seq<Seq<Item>>, nexts: Seq<Seq<(Symbol, usize)>>, t: Result<NaiveLR1Table, ConstructionError>|
                #[trigger] parser_outcome(*def, wc, items, nexts, t, r),
            r matches Ok(p) ==> {
                &&& p.name@ == name@
                &&& lexer_ir_of(def.lexer_def, name@, p.lexer)
                &&& p.varnames@ == def.var_names@
                &&& p.grammar.spec_alts() == def.grammar.spec_alts()
                &&& p.grammar.spec_alt_rule() == def.grammar.spec_alt_rule()
                &&& p.grammar.spec_rule_starts() == def.grammar.spec_rule_starts()
                &&& p.grammar.wf()
            },
    {
        let ghost g = def.grammar;
        let lr1a = LR1A::from(&def.grammar);
        let ghost items = lr1a.spec_items();
        let ghost nexts = lr1a.spec_nexts();
        let t = lr1a.build_lr1_table(def);
        let ghost wc = choose|wc: nat| #[trigger] word_count_of(def.grammar, wc)
            && resolved_outcome(def.grammar, def.token_precedence@, def.production_precedence@, wc + 1, items, nexts, t);
        let table = match t {
            Ok(table) => table,
            Err(e) => {
                let r: Result<Self, ConstructionError> = Err(e);
                assert(parser_outcome(*def, wc, items, nexts, t, r));
                return r;
            },
        };
        let ghost tt = table;
        let lstates = lr1a.states();
        let n = table.state_count();
        let mut states: Vec<ParserState> = Vec::new();
        let mut i = 0usize;
        while i < n
            invariant
                g == def.grammar,
                g.wf(),
                terminals_below(g, wc as int),
                is_lr1a(g, items, nexts),
                resolved_outcome(g, def.token_precedence@, def.production_precedence@, wc + 1, items, nexts, Ok::<NaiveLR1Table, ConstructionError>(table)),
                lstates@.len() == items.len(),
                forall|s: int| 0 <= s < lstates@.len() ==> (#[trigger] lstates@[s]).items@ == items[s],
                n == table.spec_actions().len(),
                i <= n,
                states@.len() == i,
                forall|j: int| 0 <= j < i ==> {
                    &&& (#[trigger] states@[j]).id == j
                    &&& states@[j].input_symbols@ == input_symbols_of(g, items[j])
                    &&& states@[j].ttrans@ == ttrans_of(table.spec_actions()[j])
                    &&& states@[j].nttrans@ == nttrans_of(table.spec_gotos()[j])
                    &&& states@[j].has_shift_transitions == exists|c: int| 0 <= c < table.spec_actions()[j].len() && #[trigger] table.spec_actions()[j][c] is Shift
                },
            decreases n - i,
        {
            proof {
                lemma_lr1a_items_ok(g, wc as int, items, nexts, i as int);
            }
            let its = &lstates[i].items;
            assert(its@ == items[i as int]);
            let syms = input_symbols(&def.grammar, its);
            let st = ParserState::new(i, syms.as_slice(), table.action_row(i).as_slice(), table.goto_row(i).as_slice());
            states.push(st);
            i += 1;
        }
        let grammar = def.grammar.duplicate();
        proof {
            def.grammar.lemma_wf_congr(&grammar);
        }
        let r: Result<Self, ConstructionError> = Ok(Parser {
            name: name.to_owned(),
            lexer: Lexer::new(name, &def.lexer_def),
            varnames: crate::lex::copy_strings(&def.var_names),
            grammar,
            states,
        });
        assert(parser_outcome(*def, wc, items, nexts, t, r));
        r
    }
}

/// A state of an LR(1) parser in intermediate form: its valid actions, its
/// gotos, and whether any action is a shift.
pub struct State {
    pub ttrans: Vec<TTransition>,
    pub nttrans: Vec<NTTransition>,
    pub has_shift_transitions: bool,
}

/// An LR(1) parser in intermediate form: its name, token types, variable
/// names, states, reductions, and the number of emitted token types (the
/// end of input counted).
pub struct LR1Parser {
    pub name: String,
    pub ttypes: Vec<String>,
    pub varnames: Vec<String>,
    pub states: Vec<State>,
    pub reductions: Vec<crate::syn::Reduction>,
    pub ttype_count: usize,
}

impl LR1Parser {
    /// The parser `parser` in intermediate form, named `name`.
    pub fn new(name: &str, parser: &crate::parser::Parser) -> (r: Self)
        requires
            parser.lexer.spec_commands().len() < usize::MAX,
            parser.parsing_table.spec_gotos().len() == parser.parsing_table.spec_actions().len(),
        ensures
            r.name@ == name@,
            r.ttypes@ == parser.lexer.spec_labels(),
            r.varnames@ == parser.var_names@,
            r.reductions@ == parser.parsing_table.spec_reductions(),
            r.ttype_count == emit_count(parser.lexer.spec_commands()) + 1,
            r.states@.len() == parser.parsing_table.spec_actions().len(),
            forall|i: int| 0 <= i < r.states@.len() ==> {
                &&& (#[trigger] r.states@[i]).ttrans@ == ttrans_of(parser.parsing_table.spec_actions()[i])
                &&& r.states@[i].nttrans@ == nttrans_of(parser.parsing_table.spec_gotos()[i])
                &&& r.states@[i].has_shift_transitions == exists|c: int| 0 <= c < parser.parsing_table.spec_actions()[i].len() && #[trigger] parser.parsing_table.spec_actions()[i][c] is Shift
            },
    {
        let table = &parser.parsing_table;
        let n = table.state_count();
        let mut states: Vec<State> = Vec::new();
        let mut i = 0usize;
        while i < n
            invariant
                n == table.spec_actions().len(),
                table.spec_gotos().len() == n,
                i <= n,
                states@.len() == i,
                forall|j: int| 0 <= j < i ==> {
                    &&& (#[trigger] states@[j]).ttrans@ == ttrans_of(table.spec_actions()[j])
                    &&& states@[j].nttrans@ == nttrans_of(table.spec_gotos()[j])
                    &&& states@[j].has_shift_transitions == exists|c: int| 0 <= c < table.spec_actions()[j].len() && #[trigger] table.spec_actions()[j][c] is Shift
                },
            decreases n - i,
        {
            let st = ParserState::new(i, &[], table.action_row(i).as_slice(), table.goto_row(i).as_slice());
            states.push(State { ttrans: st.ttrans, nttrans: st.nttrans, has_shift_transitions: st.has_shift_transitions });
            i += 1;
        }
        let commands = parser.lexer.commands();
        let mut count = 0usize;
        let mut k = 0usize;
        while k < commands.len()
            invariant
                commands@.len() < usize::MAX,
                k <= commands@.len(),
                count == emit_count(commands@.take(k as int)),
                count <= k,
            decreases commands@.len() - k,
        {
            proof {
                assert(commands@.take(k + 1).drop_last() =~= commands@.take(k as int));
            }
            if let Command::Emit = commands[k] {
                count += 1;
            }
            k += 1;
        }
        assert(commands@.take(commands@.len() as int) =~= commands@);
        let reds = table.reductions();
        let mut reductions: Vec<crate::syn::Reduction> = Vec::new();
        let mut a = 0usize;
        while a < reds.len()
            invariant
                a <= reds@.len(),
                reductions@ == reds@.take(a as int),
            decreases reds@.len() - a,
        {
            reductions.push(reds[a]);
            a += 1;
            assert(reductions@ =~= reds@.take(a as int));
        }
        assert(reductions@ =~= reds@);
        LR1Parser {
            name: name.to_owned(),
            ttypes: copy_strings(parser.lexer.labels()),
            varnames: copy_strings(&parser.var_names),
            states,
            reductions,
            ttype_count: count + 1,
        }
    }
}

} // verus!
