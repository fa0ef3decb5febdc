//! LR(0) items, item-set closure and goto, and the canonical collection of
//! LR(0) item sets (the LR(0) automaton) of a grammar.

use vstd::prelude::*;
use crate::cfg::{Grammar, Symbol, lemma_alt_rule};

verus! {

/// An LR(0) item: alternative `alt` with the dot before the symbol at `pos`.
#[derive(Clone, Copy, Debug, PartialEq, Eq, Hash, Structural)]
pub struct LR0Item {
    pub alt: usize,
    pub pos: usize,
}

/// The item names an alternative, with the dot inside it.
pub open spec fn item_valid(g: Grammar, it: LR0Item) -> bool {
    &&& it.alt < g.spec_alt_count()
    &&& it.pos <= g.spec_rhs(it.alt as int).len()
}

/// The symbol right after the dot, if any.
pub open spec fn at_dot(g: Grammar, it: LR0Item) -> Option<Symbol> {
    if it.pos < g.spec_rhs(it.alt as int).len() {
        Some(g.spec_rhs(it.alt as int)[it.pos as int])
    } else {
        None
    }
}

/// Item `c` is one that item `p` adds to a closure.
pub open spec fn generates(g: Grammar, p: LR0Item, c: LR0Item) -> bool {
    &&& c.alt < g.spec_alt_count()
    &&& at_dot(g, p) == Some(Symbol::Variable(g.spec_alt_rule()[c.alt as int]))
    &&& c.pos == 0
}

/// `path` is a chain of items, each adding the next to a closure.
pub open spec fn gen_path(g: Grammar, path: Seq<LR0Item>) -> bool {
    &&& path.len() >= 1
    &&& forall|i: int| 0 <= i < path.len() - 1 ==> generates(g, #[trigger] path[i], path[i + 1])
}

/// `it` belongs to the closure of `kernel`: a chain leads to it from a kernel item.
pub open spec fn in_closure(g: Grammar, kernel: Set<LR0Item>, it: LR0Item) -> bool {
    exists|path: Seq<LR0Item>| #[trigger] gen_path(g, path) && kernel.contains(path[0]) && path.last() == it
}

/// The closure of a set of items.
pub open spec fn closure_of(g: Grammar, kernel: Set<LR0Item>) -> Set<LR0Item> {
    Set::new(|it: LR0Item| in_closure(g, kernel, it))
}

/// The items of `s` with `x` at the dot, with the dot moved past it.
pub open spec fn goto_kernel(g: Grammar, s: Set<LR0Item>, x: Symbol) -> Set<LR0Item> {
    Set::new(|it: LR0Item| exists|p: LR0Item| #[trigger] s.contains(p) && at_dot(g, p) == Some(x) && it == (LR0Item { pos: (p.pos + 1) as usize, ..p }))
}

/// The item sets of the transitions of an LR(0) automaton: the closure of
/// the goto kernel.
pub open spec fn goto_of(g: Grammar, s: Set<LR0Item>, x: Symbol) -> Set<LR0Item> {
    closure_of(g, goto_kernel(g, s, x))
}

/// The item the automaton starts from: the start alternative, dot at its
/// front.
pub open spec fn start_item(g: Grammar) -> LR0Item {
    LR0Item { alt: (g.spec_alt_count() - 1) as usize, pos: 0 }
}

/// The order of items: by alternative, then position.
pub open spec fn item_lt(a: LR0Item, b: LR0Item) -> bool {
    ||| a.alt < b.alt
    ||| a.alt == b.alt && a.pos < b.pos
}

/// Strictly increasing in the item order.
pub open spec fn items_sorted(s: Seq<LR0Item>) -> bool {
    forall|i: int, j: int| 0 <= i < j < s.len() ==> item_lt(#[trigger] s[i], #[trigger] s[j])
}

proof fn lemma_item_lt_trans(a: LR0Item, b: LR0Item, c: LR0Item)
    requires
        item_lt(a, b),
        item_lt(b, c),
    ensures
        item_lt(a, c),
{
}

proof fn lemma_item_lt_total(a: LR0Item, b: LR0Item)
    ensures
        a == b || item_lt(a, b) || item_lt(b, a),
        !(item_lt(a, b) && item_lt(b, a)),
        !item_lt(a, a),
{
}

/// Two strictly sorted sequences of items with the same elements are equal.
proof fn lemma_sorted_same_set(x: Seq<LR0Item>, y: Seq<LR0Item>)
    requires
        items_sorted(x),
        items_sorted(y),
        x.to_set() == y.to_set(),
    ensures
        x == y,
    decreases x.len() + y.len(),
{
    if x.len() == 0 {
        if y.len() > 0 {
            assert(y.to_set().contains(y[0]));
        }
        assert(x =~= y);
    } else if y.len() == 0 {
        assert(x.to_set().contains(x[0]));
    } else {
        assert(x.to_set().contains(x[0]));
        assert(y.to_set().contains(y[0]));
        let i = choose|i: int| 0 <= i < y.len() && y[i] == x[0];
        let j = choose|j: int| 0 <= j < x.len() && x[j] == y[0];
        if i > 0 {
            if j > 0 {
                lemma_item_lt_trans(x[0], x[j], x[0]);
                lemma_item_lt_total(x[0], x[0]);
            }
            lemma_item_lt_total(y[0], y[i]);
        }
        if j > 0 {
            lemma_item_lt_total(x[0], x[j]);
        }
        assert(x[0] == y[0]);
        let x1 = x.drop_first();
        let y1 = y.drop_first();
        assert forall|e: LR0Item| x1.to_set().contains(e) <==> y1.to_set().contains(e) by {
            if x1.to_set().contains(e) {
                let k = choose|k: int| 0 <= k < x1.len() && x1[k] == e;
                assert(x[k + 1] == e);
                assert(item_lt(x[0], e));
                lemma_item_lt_total(x[0], e);
                assert(y.to_set().contains(e));
                let l = choose|l: int| 0 <= l < y.len() && y[l] == e;
                assert(l != 0);
                assert(y1[l - 1] == e);
            }
            if y1.to_set().contains(e) {
                let k = choose|k: int| 0 <= k < y1.len() && y1[k] == e;
                assert(y[k + 1] == e);
                assert(item_lt(y[0], e));
                lemma_item_lt_total(y[0], e);
                assert(x.to_set().contains(e));
                let l = choose|l: int| 0 <= l < x.len() && x[l] == e;
                assert(l != 0);
                assert(x1[l - 1] == e);
            }
        }
        assert(x1.to_set() =~= y1.to_set());
        lemma_sorted_same_set(x1, y1);
        assert forall|k: int| 0 <= k < x.len() implies x[k] == y[k] by {
            if k > 0 {
                assert(x[k] == x1[k - 1]);
                assert(y[k] == y1[k - 1]);
            }
        }
        assert(x =~= y);
    }
}

impl LR0Item {
    /// The item of alternative `alt` with the dot at `pos`.
    pub fn new(alt: usize, pos: usize) -> (r: Self)
        ensures
            r.alt == alt && r.pos == pos,
    {
        LR0Item { alt, pos }
    }

    /// The dot is at the end of the alternative.
    pub fn is_complete(&self, grammar: &Grammar) -> (r: bool)
        requires
            grammar.wf(),
            self.alt < grammar.spec_alt_count(),
        ensures
            r <==> self.pos >= grammar.spec_rhs(self.alt as int).len(),
    {
        self.pos >= grammar.alt(self.alt).len()
    }

    /// The symbol right after the dot, if any.
    pub fn symbol_at_dot(&self, grammar: &Grammar) -> (r: Option<Symbol>)
        requires
            grammar.wf(),
            self.alt < grammar.spec_alt_count(),
        ensures
            r == at_dot(*grammar, *self),
    {
        let rhs = grammar.alt(self.alt);
        if self.pos < rhs.len() {
            Some(rhs[self.pos])
        } else {
            None
        }
    }
}

/// `a` comes before `b` in the item order.
fn item_less(a: &LR0Item, b: &LR0Item) -> (r: bool)
    ensures
        r == item_lt(*a, *b),
{
    if a.alt != b.alt {
        return a.alt < b.alt;
    }
    a.pos < b.pos
}

/// Inserts `x` into the strictly sorted `v`; tells whether it was new.
fn insert_item(v: &mut Vec<LR0Item>, x: LR0Item) -> (added: bool)
    requires
        items_sorted(old(v)@),
    ensures
        items_sorted(final(v)@),
        final(v)@.to_set() == old(v)@.to_set().insert(x),
        added <==> !old(v)@.contains(x),
        !added ==> final(v)@ == old(v)@,
        added ==> final(v)@.len() == old(v)@.len() + 1,
{
    let mut pos = 0usize;
    while pos < v.len()
        invariant
            items_sorted(v@),
            pos <= v@.len(),
            forall|i: int| 0 <= i < pos ==> item_lt(#[trigger] v@[i], x),
        ensures
            pos == v@.len() || item_lt(x, v@[pos as int]) || v@[pos as int] == x,
        decreases v@.len() - pos,
    {
        if v[pos] == x {
            break;
        }
        if item_less(&x, &v[pos]) {
            break;
        }
        proof {
            lemma_item_lt_total(v@[pos as int], x);
        }
        pos += 1;
    }
    if pos < v.len() && v[pos] == x {
        assert(v@.to_set().insert(x) =~= v@.to_set());
        return false;
    }
    proof {
        assert forall|i: int| pos <= i < v@.len() implies item_lt(x, #[trigger] v@[i]) by {
            if i > pos {
                lemma_item_lt_trans(x, v@[pos as int], v@[i]);
            }
        }
        if v@.contains(x) {
            let i = choose|i: int| 0 <= i < v@.len() && v@[i] == x;
            lemma_item_lt_total(x, x);
        }
        let t = v@.insert(pos as int, x);
        assert forall|i: int, j: int| 0 <= i < j < t.len() implies item_lt(#[trigger] t[i], #[trigger] t[j]) by {
            if j < pos {
            } else if i > pos {
                assert(t[i] == v@[i - 1] && t[j] == v@[j - 1]);
            } else if i == pos {
            } else if j == pos {
            } else {
                assert(t[j] == v@[j - 1]);
            }
        }
        assert forall|y: LR0Item| #[trigger] t.contains(y) <==> v@.contains(y) || y == x by {
            if t.contains(y) {
                let i = choose|i: int| 0 <= i < t.len() && t[i] == y;
                if i < pos {
                    assert(v@[i] == y);
                } else if i > pos {
                    assert(v@[i - 1] == y);
                }
            }
            if v@.contains(y) {
                let i = choose|i: int| 0 <= i < v@.len() && v@[i] == y;
                if i < pos {
                    assert(t[i] == y);
                } else {
                    assert(t[i + 1] == y);
                }
            }
            if y == x {
                assert(t[pos as int] == x);
            }
        }
        assert(t.to_set() =~= v@.to_set().insert(x));
    }
    v.insert(pos, x);
    true
}

/// Adds `c`, an item of the closure of `kset`, to the closure under construction.
fn add_item(c: LR0Item, set: &mut Vec<LR0Item>, order: &mut Vec<LR0Item>, Ghost(g): Ghost<Grammar>, Ghost(kset): Ghost<Set<LR0Item>>)
    requires
        in_closure(g, kset, c),
        item_valid(g, c),
        items_sorted(old(set)@),
        old(set)@.to_set() == old(order)@.to_set(),
        forall|j: int| 0 <= j < old(order)@.len() ==> in_closure(g, kset, #[trigger] old(order)@[j]) && item_valid(g, old(order)@[j]),
    ensures
        items_sorted(final(set)@),
        final(set)@.to_set() == final(order)@.to_set(),
        final(set)@.to_set() == old(set)@.to_set().insert(c),
        forall|j: int| 0 <= j < final(order)@.len() ==> in_closure(g, kset, #[trigger] final(order)@[j]) && item_valid(g, final(order)@[j]),
        final(order)@.len() >= old(order)@.len(),
        forall|j: int| 0 <= j < old(order)@.len() ==> #[trigger] final(order)@[j] == old(order)@[j],
{
    let ghost before = order@;
    if insert_item(set, c) {
        order.push(c);
        proof {
            before.lemma_push_to_set_commute(c);
            assert(order@[order@.len() - 1] == c);
            assert forall|j: int| 0 <= j < order@.len() implies in_closure(g, kset, #[trigger] order@[j]) && item_valid(g, order@[j]) by {
                if j < before.len() {
                    assert(order@[j] == before[j]);
                }
            }
        }
    }
}

/// Adds to the closure under construction every item that `p` generates.
fn add_children(grammar: &Grammar, p: LR0Item, ppath: Ghost<Seq<LR0Item>>, set: &mut Vec<LR0Item>, order: &mut Vec<LR0Item>, Ghost(kset): Ghost<Set<LR0Item>>)
    requires
        grammar.wf(),
        item_valid(*grammar, p),
        gen_path(*grammar, ppath@) && kset.contains(ppath@[0]) && ppath@.last() == p,
        items_sorted(old(set)@),
        old(set)@.to_set() == old(order)@.to_set(),
        forall|j: int| 0 <= j < old(order)@.len() ==> in_closure(*grammar, kset, #[trigger] old(order)@[j]) && item_valid(*grammar, old(order)@[j]),
    ensures
        items_sorted(final(set)@),
        final(set)@.to_set() == final(order)@.to_set(),
        old(set)@.to_set().subset_of(final(set)@.to_set()),
        forall|j: int| 0 <= j < final(order)@.len() ==> in_closure(*grammar, kset, #[trigger] final(order)@[j]) && item_valid(*grammar, final(order)@[j]),
        final(order)@.len() >= old(order)@.len(),
        forall|j: int| 0 <= j < old(order)@.len() ==> #[trigger] final(order)@[j] == old(order)@[j],
        forall|c: LR0Item| #[trigger] generates(*grammar, p, c) ==> final(set)@.to_set().contains(c),
{
    let ghost g = *grammar;
    let ghost set0 = set@.to_set();
    let ghost order0 = order@;
    match p.symbol_at_dot(grammar) {
        Some(Symbol::Variable(b)) => {
            assert(g.spec_rhs(p.alt as int)[p.pos as int] == Symbol::Variable(b));
            let (lo, hi) = grammar.alt_indices(b);
            let mut a = lo;
            while a < hi
                invariant
                    g == *grammar,
                    g.wf(),
                    gen_path(g, ppath@) && kset.contains(ppath@[0]) && ppath@.last() == p,
                    at_dot(g, p) == Some(Symbol::Variable(b)),
                    b < g.spec_rule_count(),
                    lo == g.spec_rule_starts()[b as int],
                    hi == g.spec_rule_starts()[b + 1],
                    lo <= a <= hi,
                    items_sorted(set@),
                    set@.to_set() == order@.to_set(),
                    set0.subset_of(set@.to_set()),
                    forall|j: int| 0 <= j < order@.len() ==> in_closure(g, kset, #[trigger] order@[j]) && item_valid(g, order@[j]),
                    order@.len() >= order0.len(),
                    forall|j: int| 0 <= j < order0.len() ==> #[trigger] order@[j] == order0[j],
                    forall|a2: int| lo <= a2 < a ==> #[trigger] set@.to_set().contains((LR0Item { alt: a2 as usize, pos: 0 })),
                decreases hi - a,
            {
                let c = LR0Item { alt: a, pos: 0 };
                let ghost order1 = order@;
                proof {
                    lemma_alt_rule(g, b as int, a as int);
                    assert(generates(g, p, c));
                    let path = ppath@.push(c);
                    assert(path[0] == ppath@[0]);
                    assert(path.last() == c);
                    assert forall|t: int| 0 <= t < path.len() - 1 implies generates(g, #[trigger] path[t], path[t + 1]) by {
                        if t < ppath@.len() - 1 {
                            assert(path[t] == ppath@[t] && path[t + 1] == ppath@[t + 1]);
                        } else {
                            assert(path[t] == p);
                        }
                    }
                    assert(gen_path(g, path));
                }
                add_item(c, set, order, Ghost(g), Ghost(kset));
                proof {
                    assert forall|j: int| 0 <= j < order0.len() implies #[trigger] order@[j] == order0[j] by {
                        assert(order1[j] == order0[j]);
                    }
                }
                a += 1;
            }
            proof {
                assert forall|c: LR0Item| #[trigger] generates(g, p, c) implies set@.to_set().contains(c) by {
                    let a = c.alt as int;
                    assert(g.spec_alt_rule()[a] == b);
                    assert(c == LR0Item { alt: a as usize, pos: 0 });
                }
            }
        },
        _ => {},
    }
}

/// The closure of a set of items: every item that a chain of items leads to
/// from `kernel`, each adding the next (see `generates`).
fn closure(grammar: &Grammar, kernel: &Vec<LR0Item>) -> (r: Vec<LR0Item>)
    requires
        grammar.wf(),
        forall|i: int| 0 <= i < kernel@.len() ==> item_valid(*grammar, #[trigger] kernel@[i]),
    ensures
        items_sorted(r@),
        r@.to_set() == closure_of(*grammar, kernel@.to_set()),
        forall|i: int| 0 <= i < r@.len() ==> item_valid(*grammar, #[trigger] r@[i]),
{
    let ghost g = *grammar;
    let ghost kset = kernel@.to_set();
    let mut set: Vec<LR0Item> = Vec::new();
    let mut order: Vec<LR0Item> = Vec::new();
    let mut k = 0usize;
    while k < kernel.len()
        invariant
            g == *grammar,
            kset == kernel@.to_set(),
            forall|i: int| 0 <= i < kernel@.len() ==> item_valid(g, #[trigger] kernel@[i]),
            k <= kernel@.len(),
            items_sorted(set@),
            set@.to_set() == order@.to_set(),
            forall|j: int| 0 <= j < order@.len() ==> in_closure(g, kset, #[trigger] order@[j]) && item_valid(g, order@[j]),
            forall|j: int| 0 <= j < k ==> set@.to_set().contains(#[trigger] kernel@[j]),
        decreases kernel@.len() - k,
    {
        let it = kernel[k];
        proof {
            let path = seq![it];
            assert(gen_path(g, path));
            assert(kset.contains(path[0]));
        }
        add_item(it, &mut set, &mut order, Ghost(g), Ghost(kset));
        k += 1;
    }
    let mut i = 0usize;
    while i < order.len()
        invariant
            g == *grammar,
            g.wf(),
            kset == kernel@.to_set(),
            i <= order@.len(),
            items_sorted(set@),
            set@.to_set() == order@.to_set(),
            forall|j: int| 0 <= j < order@.len() ==> in_closure(g, kset, #[trigger] order@[j]) && item_valid(g, order@[j]),
            kset.subset_of(set@.to_set()),
            forall|j: int, c: LR0Item| 0 <= j < i && #[trigger] generates(g, order@[j], c) ==> set@.to_set().contains(c),
        decreases usize::MAX - i,
    {
        let p = order[i];
        let ghost ppath = choose|path: Seq<LR0Item>| #[trigger] gen_path(g, path) && kset.contains(path[0]) && path.last() == p;
        let ghost order0 = order@;
        let ghost set0 = set@.to_set();
        add_children(grammar, p, Ghost(ppath), &mut set, &mut order, Ghost(kset));
        proof {
            assert forall|j: int, c: LR0Item| 0 <= j < i + 1 && #[trigger] generates(g, order@[j], c) implies set@.to_set().contains(c) by {
                assert(order@[j] == order0[j]);
                if j < i {
                    assert(set0.contains(c));
                }
            }
        }
        i += 1;
    }
    proof {
        assert forall|it: LR0Item| set@.to_set().contains(it) <==> closure_of(g, kset).contains(it) by {
            if set@.to_set().contains(it) {
                let j = choose|j: int| 0 <= j < order@.len() && order@[j] == it;
                assert(in_closure(g, kset, order@[j]));
            }
            if in_closure(g, kset, it) {
                let path = choose|path: Seq<LR0Item>| #[trigger] gen_path(g, path) && kset.contains(path[0]) && path.last() == it;
                lemma_path_in_closed(g, kset, set@.to_set(), order@, path);
            }
        }
        assert(set@.to_set() =~= closure_of(g, kset));
        assert forall|j: int| 0 <= j < set@.len() implies item_valid(g, #[trigger] set@[j]) by {
            assert(set@.to_set().contains(set@[j]));
            let t = choose|t: int| 0 <= t < order@.len() && order@[t] == set@[j];
            assert(item_valid(g, order@[t]));
        }
    }
    set
}

/// A set that holds `kernel` and every item its items add holds every
/// item of a chain from `kernel`.
proof fn lemma_path_in_closed(g: Grammar, kernel: Set<LR0Item>, s: Set<LR0Item>, order: Seq<LR0Item>, path: Seq<LR0Item>)
    requires
        gen_path(g, path),
        kernel.contains(path[0]),
        kernel.subset_of(s),
        s == order.to_set(),
        forall|j: int, c: LR0Item| 0 <= j < order.len() && #[trigger] generates(g, order[j], c) ==> s.contains(c),
    ensures
        s.contains(path.last()),
    decreases path.len(),
{
    if path.len() > 1 {
        let init = path.drop_last();
        assert forall|i: int| 0 <= i < init.len() - 1 implies generates(g, #[trigger] init[i], init[i + 1]) by {
            assert(init[i] == path[i] && init[i + 1] == path[i + 1]);
        }
        lemma_path_in_closed(g, kernel, s, order, init);
        let p = init.last();
        assert(p == path[path.len() - 2]);
        assert(generates(g, path[path.len() - 2], path[path.len() - 1]));
        assert(s.contains(p));
        let j = choose|j: int| 0 <= j < order.len() && order[j] == p;
        assert(generates(g, order[j], path.last()));
    }
}

/// The items of `items` with `x` at the dot, the dot moved past it, closed.
fn goto(grammar: &Grammar, items: &Vec<LR0Item>, x: Symbol) -> (r: Vec<LR0Item>)
    requires
        grammar.wf(),
        forall|i: int| 0 <= i < items@.len() ==> item_valid(*grammar, #[trigger] items@[i]),
    ensures
        items_sorted(r@),
        r@.to_set() == goto_of(*grammar, items@.to_set(), x),
        forall|i: int| 0 <= i < r@.len() ==> item_valid(*grammar, #[trigger] r@[i]),
{
    let ghost g = *grammar;
    let ghost target = goto_kernel(g, items@.to_set(), x);
    let mut kernel: Vec<LR0Item> = Vec::new();
    let mut i = 0usize;
    while i < items.len()
        invariant
            g == *grammar,
            g.wf(),
            target == goto_kernel(g, items@.to_set(), x),
            forall|k: int| 0 <= k < items@.len() ==> item_valid(g, #[trigger] items@[k]),
            i <= items@.len(),
            forall|k: int| 0 <= k < kernel@.len() ==> item_valid(g, #[trigger] kernel@[k]),
            forall|it: LR0Item| kernel@.to_set().contains(it) <==> exists|k: int| 0 <= k < i && at_dot(g, #[trigger] items@[k]) == Some(x) && it == (LR0Item { pos: (items@[k].pos + 1) as usize, ..items@[k] }),
        decreases items@.len() - i,
    {
        let p = items[i];
        let ghost before = kernel@;
        let rhs = grammar.alt(p.alt);
        if p.pos < rhs.len() && rhs[p.pos] == x {
            assert(at_dot(g, p) == Some(x));
            let q = LR0Item { alt: p.alt, pos: p.pos + 1 };
            kernel.push(q);
            proof {
                before.lemma_push_to_set_commute(q);
                assert forall|k: int| 0 <= k < kernel@.len() implies item_valid(g, #[trigger] kernel@[k]) by {
                    if k < before.len() {
                        assert(kernel@[k] == before[k]);
                    }
                }
                assert forall|it: LR0Item| kernel@.to_set().contains(it) <==> exists|k: int| 0 <= k < i + 1 && at_dot(g, #[trigger] items@[k]) == Some(x) && it == (LR0Item { pos: (items@[k].pos + 1) as usize, ..items@[k] }) by {
                    if it == q {
                        assert(at_dot(g, items@[i as int]) == Some(x));
                    }
                }
            }
        } else {
            assert(at_dot(g, p) != Some(x));
            proof {
                assert forall|it: LR0Item| kernel@.to_set().contains(it) <==> exists|k: int| 0 <= k < i + 1 && at_dot(g, #[trigger] items@[k]) == Some(x) && it == (LR0Item { pos: (items@[k].pos + 1) as usize, ..items@[k] }) by {
                    if exists|k: int| 0 <= k < i + 1 && at_dot(g, #[trigger] items@[k]) == Some(x) && it == (LR0Item { pos: (items@[k].pos + 1) as usize, ..items@[k] }) {
                        let k = choose|k: int| 0 <= k < i + 1 && at_dot(g, #[trigger] items@[k]) == Some(x) && it == (LR0Item { pos: (items@[k].pos + 1) as usize, ..items@[k] });
                        assert(k != i);
                    }
                }
            }
        }
        i += 1;
    }
    proof {
        assert forall|it: LR0Item| kernel@.to_set().contains(it) <==> target.contains(it) by {
            if target.contains(it) {
                let p = choose|p: LR0Item| #[trigger] items@.to_set().contains(p) && at_dot(g, p) == Some(x) && it == (LR0Item { pos: (p.pos + 1) as usize, ..p });
                let k = choose|k: int| 0 <= k < items@.len() && items@[k] == p;
                assert(at_dot(g, items@[k]) == Some(x));
            }
            if kernel@.to_set().contains(it) {
                let k = choose|k: int| 0 <= k < i && at_dot(g, #[trigger] items@[k]) == Some(x) && it == (LR0Item { pos: (items@[k].pos + 1) as usize, ..items@[k] });
                assert(items@.to_set().contains(items@[k]));
            }
        }
        assert(kernel@.to_set() =~= target);
    }
    closure(grammar, &kernel)
}

/// A state of the LR(0) automaton: its items, strictly sorted, and its
/// transitions, each a symbol and the index of the state it leads to.
pub struct State {
    pub items: Vec<LR0Item>,
    pub next: Vec<(Symbol, usize)>,
}

/// The canonical LR(0) automaton of a grammar.
pub struct LR0A {
    states: Vec<State>,
}

/// The transitions `next` of state `s` of an automaton over `items` are
/// those of the canonical collection: one per symbol at a dot, none twice,
/// each to the state whose items are the goto of `s`'s on that symbol.
pub open spec fn transitions_ok(g: Grammar, items: Seq<Seq<LR0Item>>, s: int, next: Seq<(Symbol, usize)>) -> bool {
    &&& forall|t: int| 0 <= t < next.len() ==> (#[trigger] next[t]).1 < items.len()
    &&& forall|t: int| 0 <= t < next.len() ==> items[(#[trigger] next[t]).1 as int].to_set() == goto_of(g, items[s].to_set(), next[t].0)
    &&& forall|t1: int, t2: int| 0 <= t1 < t2 < next.len() ==> (#[trigger] next[t1]).0 != (#[trigger] next[t2]).0
    &&& forall|k: int| 0 <= k < items[s].len() && (#[trigger] at_dot(g, items[s][k])) is Some ==> has_transition(next, at_dot(g, items[s][k])->Some_0)
    &&& forall|t: int| 0 <= t < next.len() ==> symbol_at_some_dot(g, items[s], items[s].len() as int, (#[trigger] next[t]).0)
}

/// Some item among the first `p` of `its` has `x` at its dot.
pub open spec fn symbol_at_some_dot(g: Grammar, its: Seq<LR0Item>, p: int, x: Symbol) -> bool {
    exists|k: int| 0 <= k < p && #[trigger] at_dot(g, its[k]) == Some(x)
}

/// Some transition of `next` is on `x`.
pub open spec fn has_transition(next: Seq<(Symbol, usize)>, x: Symbol) -> bool {
    exists|t: int| 0 <= t < next.len() && (#[trigger] next[t]).0 == x
}

/// `items` and `nexts` are the canonical collection of LR(0) item sets of
/// `g` and its transitions: the first state is the closure of the start
/// item, every transition is the goto of its state, no item set occurs
/// twice, and every state but the first is reached from an earlier one.
pub open spec fn is_lr0a(g: Grammar, items: Seq<Seq<LR0Item>>, nexts: Seq<Seq<(Symbol, usize)>>) -> bool {
    &&& items.len() >= 1
    &&& nexts.len() == items.len()
    &&& items[0].to_set() == closure_of(g, Set::empty().insert(start_item(g)))
    &&& forall|s: int| 0 <= s < items.len() ==> items_sorted(#[trigger] items[s])
    &&& forall|s: int, k: int| 0 <= s < items.len() && 0 <= k < items[s].len() ==> item_valid(g, #[trigger] items[s][k])
    &&& forall|s: int| 0 <= s < items.len() ==> transitions_ok(g, items, s, #[trigger] nexts[s])
    &&& forall|s1: int, s2: int| 0 <= s1 < s2 < items.len() ==> (#[trigger] items[s1]).to_set() != (#[trigger] items[s2]).to_set()
    &&& forall|s: int| 0 < s < items.len() ==> #[trigger] reached_from_earlier(nexts, s)
}

/// Some transition of a state before `s` leads to `s`.
pub open spec fn reached_from_earlier(nexts: Seq<Seq<(Symbol, usize)>>, s: int) -> bool {
    exists|p: int, t: int| 0 <= p < s && 0 <= t < nexts[p].len() && #[trigger] nexts[p][t].1 == s
}

impl LR0A {
    /// The item sets of the states.
    pub closed spec fn spec_items(&self) -> Seq<Seq<LR0Item>> {
        Seq::new(self.states@.len(), |s: int| self.states@[s].items@)
    }

    /// The transitions of the states.
    pub closed spec fn spec_nexts(&self) -> Seq<Seq<(Symbol, usize)>> {
        Seq::new(self.states@.len(), |s: int| self.states@[s].next@)
    }

    /// The canonical LR(0) automaton of `grammar`.
    pub fn new(grammar: &Grammar) -> (r: Self)
        requires
            grammar.wf(),
        ensures
            is_lr0a(*grammar, r.spec_items(), r.spec_nexts()),
    {
        LR0ABuilder::new(grammar).build()
    }

    /// The states, the first being the initial one.
    pub fn states(&self) -> (r: &[State])
        ensures
            r@.len() == self.spec_items().len(),
            forall|s: int| 0 <= s < r@.len() ==> (#[trigger] r@[s]).items@ == self.spec_items()[s] && r@[s].next@ == self.spec_nexts()[s],
    {
        self.states.as_slice()
    }
}

/// Whether two item lists are equal.
fn same_items(a: &Vec<LR0Item>, b: &Vec<LR0Item>) -> (r: bool)
    ensures
        r <==> a@ == b@,
{
    if a.len() != b.len() {
        return false;
    }
    let mut i = 0usize;
    while i < a.len()
        invariant
            a@.len() == b@.len(),
            i <= a@.len(),
            forall|k: int| 0 <= k < i ==> a@[k] == b@[k],
        decreases a@.len() - i,
    {
        if a[i] != b[i] {
            return false;
        }
        i += 1;
    }
    assert(a@ =~= b@);
    true
}

fn copy_items(v: &Vec<LR0Item>) -> (r: Vec<LR0Item>)
    ensures
        r@ == v@,
{
    let mut r: Vec<LR0Item> = Vec::new();
    let mut i = 0usize;
    while i < v.len()
        invariant
            i <= v@.len(),
            r@ == v@.take(i as int),
        decreases v@.len() - i,
    {
        r.push(v[i]);
        i += 1;
        assert(r@ =~= v@.take(i as int));
    }
    assert(r@ =~= v@);
    r
}

/// Whether some transition is on `x`.
fn has_symbol(next: &Vec<(Symbol, usize)>, x: Symbol) -> (r: bool)
    ensures
        r <==> exists|t: int| 0 <= t < next@.len() && (#[trigger] next@[t]).0 == x,
{
    let mut t = 0usize;
    while t < next.len()
        invariant
            t <= next@.len(),
            forall|u: int| 0 <= u < t ==> (#[trigger] next@[u]).0 != x,
        decreases next@.len() - t,
    {
        if next[t].0 == x {
            return true;
        }
        t += 1;
    }
    false
}

/// Builds the canonical LR(0) automaton of a grammar.
pub struct LR0ABuilder<'a> {
    grammar: &'a Grammar,
}

impl<'a> LR0ABuilder<'a> {
    /// A builder for the automaton of `grammar`.
    pub fn new(grammar: &'a Grammar) -> (r: Self)
        ensures
            r.spec_grammar() == grammar,
    {
        LR0ABuilder { grammar }
    }

    /// The grammar.
    pub closed spec fn spec_grammar(&self) -> &'a Grammar {
        self.grammar
    }

    fn closure(&self, kernel: &Vec<LR0Item>) -> (r: Vec<LR0Item>)
        requires
            self.grammar.wf(),
            forall|i: int| 0 <= i < kernel@.len() ==> item_valid(*self.grammar, #[trigger] kernel@[i]),
        ensures
            items_sorted(r@),
            r@.to_set() == closure_of(*self.grammar, kernel@.to_set()),
            forall|i: int| 0 <= i < r@.len() ==> item_valid(*self.grammar, #[trigger] r@[i]),
    {
        closure(self.grammar, kernel)
    }

    fn goto(&self, items: &Vec<LR0Item>, x: Symbol) -> (r: Vec<LR0Item>)
        requires
            self.grammar.wf(),
            forall|i: int| 0 <= i < items@.len() ==> item_valid(*self.grammar, #[trigger] items@[i]),
        ensures
            items_sorted(r@),
            r@.to_set() == goto_of(*self.grammar, items@.to_set(), x),
            forall|i: int| 0 <= i < r@.len() ==> item_valid(*self.grammar, #[trigger] r@[i]),
    {
        goto(self.grammar, items, x)
    }

    /// The canonical LR(0) automaton of the grammar.
    pub fn build(self) -> (r: LR0A)
        requires
            self.spec_grammar().wf(),
        ensures
            is_lr0a(*self.spec_grammar(), r.spec_items(), r.spec_nexts()),
    {
        let grammar = self.grammar;
        let ghost g = *grammar;
        let start = LR0Item { alt: grammar.alt_count() - 1, pos: 0 };
        let kernel = vec![start];
        proof {
            assert(start == start_item(g));
            assert(kernel@.to_set() =~= Set::empty().insert(start)) by {
                assert(kernel@[0] == start);
            }
        }
        let init = self.closure(&kernel);
        let mut items_list: Vec<Vec<LR0Item>> = Vec::new();
        items_list.push(init);
        let mut nexts: Vec<Vec<(Symbol, usize)>> = Vec::new();
        let ghost mut parent: Seq<(int, int)> = seq![(0int, 0int)];
        let mut i = 0usize;
        while i < items_list.len()
            invariant
                g == *self.grammar,
                grammar == self.grammar,
                g.wf(),
                i <= items_list@.len(),
                nexts@.len() == i,
                parent.len() == items_list@.len(),
                states_ok(g, view_items(items_list@)),
                forall|s: int| 0 <= s < i ==> transitions_ok(g, view_items(items_list@), s, #[trigger] nexts@[s]@),
                forall|s: int| 0 < s < items_list@.len() ==> 0 <= (#[trigger] parent[s]).0 < s && parent[s].0 < i && 0 <= parent[s].1 < nexts@[parent[s].0]@.len() && nexts@[parent[s].0]@[parent[s].1].1 == s,
            decreases usize::MAX - i,
        {
            let items = copy_items(&items_list[i]);
            let mut next: Vec<(Symbol, usize)> = Vec::new();
            let mut p = 0usize;
            while p < items.len()
                invariant
                    g == *self.grammar,
                    grammar == self.grammar,
                    g.wf(),
                        i < items_list@.len(),
                    nexts@.len() == i,
                    parent.len() == items_list@.len(),
                    items@ == items_list@[i as int]@,
                    p <= items@.len(),
                    states_ok(g, view_items(items_list@)),
                    forall|s: int| 0 <= s < i ==> transitions_ok(g, view_items(items_list@), s, #[trigger] nexts@[s]@),
                    forall|s: int| 0 < s < items_list@.len() ==> 0 <= (#[trigger] parent[s]).0 < s && parent[s].0 <= i,
                    forall|s: int| 0 < s < items_list@.len() && (#[trigger] parent[s]).0 < i ==> 0 <= parent[s].1 < nexts@[parent[s].0]@.len() && nexts@[parent[s].0]@[parent[s].1].1 == s,
                    forall|s: int| 0 < s < items_list@.len() && (#[trigger] parent[s]).0 == i ==> 0 <= parent[s].1 < next@.len() && next@[parent[s].1].1 == s,
                    partial_transitions_ok(g, view_items(items_list@), items@, p as int, next@),
                decreases items@.len() - p,
            {
                assert(view_items(items_list@)[i as int] == items@);
                assert(item_valid(g, view_items(items_list@)[i as int][p as int]));
                match items[p].symbol_at_dot(grammar) {
                    Some(x) => {
                        if !has_symbol(&next, x) {
                            let temp = self.goto(&items, x);
                            let ghost list0 = items_list@;
                            assert forall|u: int| 0 <= u < items_list@.len() implies items_sorted(#[trigger] items_list@[u]@) by {
                                assert(view_items(items_list@)[u] == items_list@[u]@);
                            }
                            let ghost tv = temp@;
                            let j = find_or_add(&mut items_list, temp);
                            proof {
                                if items_list@ != list0 {
                                    assert(view_items(items_list@) =~= view_items(list0).push(tv));
                                    lemma_states_push(g, view_items(list0), tv);
                                } else {
                                    assert(view_items(items_list@) == view_items(list0));
                                }
                                if items_list@.len() > list0.len() {
                                    parent = parent.push((i as int, next@.len() as int));
                                }
                                lemma_extend_transitions(g, view_items(list0), view_items(items_list@), nexts@, i as int);
                                lemma_extend_partial(g, view_items(list0), view_items(items_list@), items@, p as int, next@);
                            }
                            let ghost next0 = next@;
                            next.push((x, j));
                            proof {
                                lemma_partial_push(g, view_items(items_list@), items@, p as int, next0, x, j);
                                assert forall|s: int| 0 < s < items_list@.len() && (#[trigger] parent[s]).0 == i implies 0 <= parent[s].1 < next@.len() && next@[parent[s].1].1 == s by {
                                    if s < list0.len() {
                                        assert(next@[parent[s].1] == next0[parent[s].1]);
                                    }
                                }
                            }
                        } else {
                            proof {
                                lemma_partial_skip(g, view_items(items_list@), items@, p as int, next@);
                            }
                        }
                    },
                    None => {
                        proof {
                            lemma_partial_skip(g, view_items(items_list@), items@, p as int, next@);
                        }
                    },
                }
                p += 1;
            }
            let ghost nexts0 = nexts@;
            nexts.push(next);
            proof {
                assert(view_items(items_list@)[i as int] == items@);
                lemma_partial_full(g, view_items(items_list@), items@, i as int, next@);
                assert forall|s: int| 0 <= s < i + 1 implies transitions_ok(g, view_items(items_list@), s, #[trigger] nexts@[s]@) by {
                    if s < i {
                        assert(nexts@[s] == nexts0[s]);
                    }
                }
                assert forall|s: int| 0 < s < items_list@.len() implies 0 <= (#[trigger] parent[s]).0 < s && parent[s].0 < i + 1 && 0 <= parent[s].1 < nexts@[parent[s].0]@.len() && nexts@[parent[s].0]@[parent[s].1].1 == s by {
                    if parent[s].0 < i {
                        assert(nexts@[parent[s].0] == nexts0[parent[s].0]);
                    }
                }
            }
            i += 1;
        }
        let mut states: Vec<State> = Vec::new();
        let mut s = 0usize;
        let ghost items_v = view_items(items_list@);
        let ghost nexts_v = Seq::new(nexts@.len(), |u: int| nexts@[u]@);
        proof {
            assert forall|u: int| 0 < u < items_v.len() implies #[trigger] reached_from_earlier(nexts_v, u) by {
                let (p, t) = parent[u];
                assert(nexts_v[p][t].1 == u);
            }
        }
        let n = items_list.len();
        while s < n
            invariant
                n == items_list@.len(),
                nexts@.len() == n,
                s <= n,
                states@.len() == s,
                items_v.len() == n,
                nexts_v.len() == n,
                forall|u: int| s <= u < n ==> (#[trigger] items_list@[u])@ == items_v[u],
                forall|u: int| s <= u < n ==> (#[trigger] nexts@[u])@ == nexts_v[u],
                forall|u: int| 0 <= u < s ==> (#[trigger] states@[u]).items@ == items_v[u] && states@[u].next@ == nexts_v[u],
            decreases n - s,
        {
            let mut its: Vec<LR0Item> = Vec::new();
            let mut nx: Vec<(Symbol, usize)> = Vec::new();
            std::mem::swap(&mut its, &mut items_list[s]);
            std::mem::swap(&mut nx, &mut nexts[s]);
            states.push(State { items: its, next: nx });
            s += 1;
        }
        let r = LR0A { states };
        proof {
            assert(r.spec_items() =~= items_v);
            assert(r.spec_nexts() =~= nexts_v);
        }
        r
    }
}

/// The sequences that a list of vectors holds.
pub open spec fn view_items(l: Seq<Vec<LR0Item>>) -> Seq<Seq<LR0Item>> {
    Seq::new(l.len(), |s: int| l[s]@)
}

/// The item sets alone are those of the canonical collection: the first is
/// the closure of the start item; each is strictly sorted and valid; none
/// occurs twice.
pub open spec fn states_ok(g: Grammar, items: Seq<Seq<LR0Item>>) -> bool {
    &&& items.len() >= 1
    &&& items[0].to_set() == closure_of(g, Set::empty().insert(start_item(g)))
    &&& forall|s: int| 0 <= s < items.len() ==> items_sorted(#[trigger] items[s])
    &&& forall|s: int, k: int| 0 <= s < items.len() && 0 <= k < items[s].len() ==> item_valid(g, #[trigger] items[s][k])
    &&& forall|s1: int, s2: int| 0 <= s1 < s2 < items.len() ==> (#[trigger] items[s1]).to_set() != (#[trigger] items[s2]).to_set()
}

proof fn lemma_states_push(g: Grammar, v0: Seq<Seq<LR0Item>>, t: Seq<LR0Item>)
    requires
        states_ok(g, v0),
        items_sorted(t),
        forall|k: int| 0 <= k < t.len() ==> item_valid(g, #[trigger] t[k]),
        forall|s: int| 0 <= s < v0.len() ==> (#[trigger] v0[s]).to_set() != t.to_set(),
    ensures
        states_ok(g, v0.push(t)),
{
    let v1 = v0.push(t);
    assert(v1[0] == v0[0]);
    assert forall|s: int| 0 <= s < v1.len() implies items_sorted(#[trigger] v1[s]) by {
        if s < v0.len() {
            assert(v1[s] == v0[s]);
        }
    }
    assert forall|s: int, k: int| 0 <= s < v1.len() && 0 <= k < v1[s].len() implies item_valid(g, #[trigger] v1[s][k]) by {
        if s < v0.len() {
            assert(v1[s] == v0[s]);
        }
    }
    assert forall|s1: int, s2: int| 0 <= s1 < s2 < v1.len() implies (#[trigger] v1[s1]).to_set() != (#[trigger] v1[s2]).to_set() by {
        assert(v1[s1] == v0[s1]);
        if s2 < v0.len() {
            assert(v1[s2] == v0[s2]);
        }
    }
}

/// The transitions so far of a state whose first `p` items were handled.
pub open spec fn partial_transitions_ok(g: Grammar, items: Seq<Seq<LR0Item>>, its: Seq<LR0Item>, p: int, next: Seq<(Symbol, usize)>) -> bool {
    &&& forall|t: int| 0 <= t < next.len() ==> (#[trigger] next[t]).1 < items.len()
    &&& forall|t: int| 0 <= t < next.len() ==> items[(#[trigger] next[t]).1 as int].to_set() == goto_of(g, its.to_set(), next[t].0)
    &&& forall|t1: int, t2: int| 0 <= t1 < t2 < next.len() ==> (#[trigger] next[t1]).0 != (#[trigger] next[t2]).0
    &&& forall|k: int| 0 <= k < p && (#[trigger] at_dot(g, its[k])) is Some ==> has_transition(next, at_dot(g, its[k])->Some_0)
    &&& forall|t: int| 0 <= t < next.len() ==> symbol_at_some_dot(g, its, p, (#[trigger] next[t]).0)
}

proof fn lemma_extend_transitions(g: Grammar, items1: Seq<Seq<LR0Item>>, items2: Seq<Seq<LR0Item>>, nexts: Seq<Vec<(Symbol, usize)>>, i: int)
    requires
        items1.len() <= items2.len(),
        forall|s: int| 0 <= s < items1.len() ==> #[trigger] items2[s] == items1[s],
        i <= items1.len(),
        i <= nexts.len(),
        forall|s: int| 0 <= s < i ==> transitions_ok(g, items1, s, #[trigger] nexts[s]@),
    ensures
        forall|s: int| 0 <= s < i ==> transitions_ok(g, items2, s, #[trigger] nexts[s]@),
{
    assert forall|s: int| 0 <= s < i implies transitions_ok(g, items2, s, #[trigger] nexts[s]@) by {
        assert(transitions_ok(g, items1, s, nexts[s]@));
        let next = nexts[s]@;
        assert(items2[s] == items1[s]);
        assert forall|t: int| 0 <= t < next.len() implies items2[(#[trigger] next[t]).1 as int].to_set() == goto_of(g, items2[s].to_set(), next[t].0) by {
            assert(items2[next[t].1 as int] == items1[next[t].1 as int]);
        }
    }
}

proof fn lemma_extend_partial(g: Grammar, items1: Seq<Seq<LR0Item>>, items2: Seq<Seq<LR0Item>>, its: Seq<LR0Item>, p: int, next: Seq<(Symbol, usize)>)
    requires
        items1.len() <= items2.len(),
        forall|s: int| 0 <= s < items1.len() ==> #[trigger] items2[s] == items1[s],
        partial_transitions_ok(g, items1, its, p, next),
    ensures
        partial_transitions_ok(g, items2, its, p, next),
{
    assert forall|t: int| 0 <= t < next.len() implies items2[(#[trigger] next[t]).1 as int].to_set() == goto_of(g, its.to_set(), next[t].0) by {
        assert(items2[next[t].1 as int] == items1[next[t].1 as int]);
    }
}

proof fn lemma_partial_push(g: Grammar, items: Seq<Seq<LR0Item>>, its: Seq<LR0Item>, p: int, next: Seq<(Symbol, usize)>, x: Symbol, j: usize)
    requires
        0 <= p < its.len(),
        partial_transitions_ok(g, items, its, p, next),
        at_dot(g, its[p]) == Some(x),
        !(exists|t: int| 0 <= t < next.len() && (#[trigger] next[t]).0 == x),
        j < items.len(),
        items[j as int].to_set() == goto_of(g, its.to_set(), x),
    ensures
        partial_transitions_ok(g, items, its, p + 1, next.push((x, j))),
{
    let n2 = next.push((x, j));
    assert(n2[next.len() as int] == (x, j));
    assert forall|t: int| 0 <= t < n2.len() implies (#[trigger] n2[t]).1 < items.len() by {
        if t < next.len() {
            assert(n2[t] == next[t]);
        }
    }
    assert forall|t: int| 0 <= t < n2.len() implies items[(#[trigger] n2[t]).1 as int].to_set() == goto_of(g, its.to_set(), n2[t].0) by {
        if t < next.len() {
            assert(n2[t] == next[t]);
        } else {
            assert(n2[t] == (x, j));
        }
    }
    assert forall|t1: int, t2: int| 0 <= t1 < t2 < n2.len() implies (#[trigger] n2[t1]).0 != (#[trigger] n2[t2]).0 by {
        assert(n2[t1] == next[t1]);
        if t2 < next.len() {
            assert(n2[t2] == next[t2]);
        }
    }
    assert forall|k: int| 0 <= k < p + 1 && (#[trigger] at_dot(g, its[k])) is Some implies has_transition(n2, at_dot(g, its[k])->Some_0) by {
        if k < p {
            let t = choose|t: int| 0 <= t < next.len() && (#[trigger] next[t]).0 == at_dot(g, its[k])->Some_0;
            assert(n2[t] == next[t]);
        } else {
            assert(n2[next.len() as int].0 == at_dot(g, its[k])->Some_0);
        }
    }
    assert forall|t: int| 0 <= t < n2.len() implies symbol_at_some_dot(g, its, p + 1, (#[trigger] n2[t]).0) by {
        if t < next.len() {
            assert(n2[t] == next[t]);
            assert(symbol_at_some_dot(g, its, p, next[t].0));
            let k = choose|k: int| 0 <= k < p && #[trigger] at_dot(g, its[k]) == Some(next[t].0);
            assert(at_dot(g, its[k]) == Some(n2[t].0));
        } else {
            assert(at_dot(g, its[p]) == Some(n2[t].0));
        }
    }
}

proof fn lemma_partial_skip(g: Grammar, items: Seq<Seq<LR0Item>>, its: Seq<LR0Item>, p: int, next: Seq<(Symbol, usize)>)
    requires
        0 <= p < its.len(),
        partial_transitions_ok(g, items, its, p, next),
        at_dot(g, its[p]) is None || (exists|t: int| 0 <= t < next.len() && (#[trigger] next[t]).0 == at_dot(g, its[p])->Some_0),
    ensures
        partial_transitions_ok(g, items, its, p + 1, next),
{
    assert forall|k: int| 0 <= k < p + 1 && (#[trigger] at_dot(g, its[k])) is Some implies has_transition(next, at_dot(g, its[k])->Some_0) by {
    }
    assert forall|t: int| 0 <= t < next.len() implies symbol_at_some_dot(g, its, p + 1, (#[trigger] next[t]).0) by {
        assert(symbol_at_some_dot(g, its, p, next[t].0));
        let k = choose|k: int| 0 <= k < p && #[trigger] at_dot(g, its[k]) == Some(next[t].0);
        assert(at_dot(g, its[k]) == Some(next[t].0));
    }
}

proof fn lemma_partial_full(g: Grammar, items: Seq<Seq<LR0Item>>, its: Seq<LR0Item>, s: int, next: Seq<(Symbol, usize)>)
    requires
        0 <= s < items.len(),
        items[s] == its,
        partial_transitions_ok(g, items, its, its.len() as int, next),
    ensures
        transitions_ok(g, items, s, next),
{
    assert forall|k: int| 0 <= k < items[s].len() && (#[trigger] at_dot(g, items[s][k])) is Some implies has_transition(next, at_dot(g, items[s][k])->Some_0) by {
        assert(items[s][k] == its[k]);
        assert(at_dot(g, its[k]) is Some);
    }
}

/// The index of the item set `temp` in `list`, added at the end if absent.
fn find_or_add(list: &mut Vec<Vec<LR0Item>>, temp: Vec<LR0Item>) -> (j: usize)
    requires
        items_sorted(temp@),
        forall|s: int| 0 <= s < old(list)@.len() ==> items_sorted(#[trigger] old(list)@[s]@),
    ensures
        j < final(list)@.len(),
        final(list)@[j as int]@ == temp@,
        final(list)@ == old(list)@ || (final(list)@ == old(list)@.push(temp) && j == old(list)@.len()
            && forall|s: int| 0 <= s < old(list)@.len() ==> (#[trigger] old(list)@[s])@.to_set() != temp@.to_set()),
{
    let mut s = 0usize;
    while s < list.len()
        invariant
            list@ == old(list)@,
            items_sorted(temp@),
            forall|u: int| 0 <= u < list@.len() ==> items_sorted(#[trigger] list@[u]@),
            s <= list@.len(),
            forall|u: int| 0 <= u < s ==> (#[trigger] list@[u])@ != temp@,
        decreases list@.len() - s,
    {
        if same_items(&list[s], &temp) {
            return s;
        }
        s += 1;
    }
    proof {
        assert forall|u: int| 0 <= u < list@.len() implies (#[trigger] list@[u])@.to_set() != temp@.to_set() by {
            if list@[u]@.to_set() == temp@.to_set() {
                lemma_sorted_same_set(list@[u]@, temp@);
            }
        }
    }
    let j = list.len();
    list.push(temp);
    j
}

} // verus!
