//! LALR(1) tables: the states of the canonical LR(1) automaton with equal
//! cores merged, their lookaheads pooled.

use vstd::prelude::*;
use crate::cfg::{Grammar, Symbol};
use crate::first::terminals_below;
use crate::lr1::{Item, LR1A, State, is_lr1a, items_sorted, insert_item, item_ok, at_dot, has_transition, transitions_ok, lemma_lr1a_items_ok};
use crate::parser::{ParserDef, NaiveLR1Table, ConstructionError, LR1TableConstruction, word_count_of, resolved_outcome, word_count_bounded, tables_from_states};

verus! {

/// Some item of `x` has alternative `a` and its dot at `p`.
pub open spec fn in_core(x: Seq<Item>, a: usize, p: usize) -> bool {
    exists|k: int| 0 <= k < x.len() && (#[trigger] x[k]).alt == a && x[k].pos == p
}

/// `x` and `y` have the same core: the same alternatives with the dot at
/// the same places, whatever their lookaheads.
pub open spec fn same_core(x: Seq<Item>, y: Seq<Item>) -> bool {
    forall|a: usize, p: usize| #[trigger] in_core(x, a, p) <==> #[trigger] in_core(y, a, p)
}

/// `litems`/`lnexts` merge the states of the LR(1) automaton
/// `items`/`nexts` with the same core: LR(1) state `s` goes to state
/// `grp[s]`, which holds the items of all its states; states are numbered
/// in the order of their first LR(1) state `reps[j]`, whose transitions
/// they take, each to the merged state of its target.
pub open spec fn merged(items: Seq<Seq<Item>>, nexts: Seq<Seq<(Symbol, usize)>>, grp: Seq<usize>, reps: Seq<usize>, litems: Seq<Seq<Item>>, lnexts: Seq<Seq<(Symbol, usize)>>) -> bool {
    &&& grp.len() == items.len()
    &&& litems.len() == reps.len()
    &&& lnexts.len() == reps.len()
    &&& forall|s: int| 0 <= s < items.len() ==> #[trigger] grp[s] < reps.len()
    &&& forall|j: int| 0 <= j < reps.len() ==> #[trigger] reps[j] < items.len() && grp[reps[j] as int] == j
    &&& forall|j: int, s: int| #![trigger grp[s], reps[j]] 0 <= j < reps.len() && 0 <= s < reps[j] ==> grp[s] != j
    &&& forall|s: int, t: int| 0 <= s < items.len() && 0 <= t < items.len() ==> (#[trigger] grp[s] == #[trigger] grp[t] <==> same_core(items[s], items[t]))
    &&& forall|j: int| 0 <= j < reps.len() ==> items_sorted(#[trigger] litems[j])
    &&& forall|j: int, it: Item| 0 <= j < reps.len() ==> (#[trigger] litems[j].contains(it) <==> exists|s: int| 0 <= s < items.len() && grp[s] == j && #[trigger] items[s].contains(it))
    &&& forall|j: int| 0 <= j < reps.len() ==> (#[trigger] lnexts[j]).len() == nexts[reps[j] as int].len()
    &&& forall|j: int, t: int| 0 <= j < reps.len() && 0 <= t < lnexts[j].len() ==> #[trigger] lnexts[j][t] == (nexts[reps[j] as int][t].0, grp[nexts[reps[j] as int][t].1 as int])
}

/// `litems`/`lnexts` are the LALR(1) automaton of `g`: the merge by core
/// of its canonical LR(1) automaton.
pub open spec fn is_lalr1a(g: crate::cfg::Grammar, litems: Seq<Seq<Item>>, lnexts: Seq<Seq<(Symbol, usize)>>) -> bool {
    exists|items: Seq<Seq<Item>>, nexts: Seq<Seq<(Symbol, usize)>>, grp: Seq<usize>, reps: Seq<usize>|
        is_lr1a(g, items, nexts) && #[trigger] merged(items, nexts, grp, reps, litems, lnexts)
}

proof fn lemma_core_equiv(x: Seq<Item>, y: Seq<Item>, z: Seq<Item>)
    ensures
        same_core(x, x),
        same_core(x, y) ==> same_core(y, x),
        same_core(x, y) && same_core(y, z) ==> same_core(x, z),
{
    if same_core(x, y) {
        assert forall|a: usize, p: usize| #[trigger] in_core(y, a, p) <==> #[trigger] in_core(x, a, p) by {
            assert(in_core(x, a, p) <==> in_core(y, a, p));
        }
        if same_core(y, z) {
            assert forall|a: usize, p: usize| #[trigger] in_core(x, a, p) <==> #[trigger] in_core(z, a, p) by {
                assert(in_core(x, a, p) <==> in_core(y, a, p));
                assert(in_core(y, a, p) <==> in_core(z, a, p));
            }
        }
    }
}

/// Whether some item of `y` has alternative `a` and its dot at `p`.
fn in_core_exec(y: &Vec<Item>, a: usize, p: usize) -> (r: bool)
    ensures
        r == in_core(y@, a, p),
{
    let mut k = 0usize;
    while k < y.len()
        invariant
            k <= y@.len(),
            forall|j: int| 0 <= j < k ==> !((#[trigger] y@[j]).alt == a && y@[j].pos == p),
        decreases y@.len() - k,
    {
        if y[k].alt == a && y[k].pos == p {
            return true;
        }
        k += 1;
    }
    false
}

/// Every item of `x` has its alternative and dot in `y`'s core.
fn core_within(x: &Vec<Item>, y: &Vec<Item>) -> (r: bool)
    ensures
        r == forall|k: int| 0 <= k < x@.len() ==> #[trigger] in_core(y@, x@[k].alt, x@[k].pos),
{
    let mut k = 0usize;
    while k < x.len()
        invariant
            k <= x@.len(),
            forall|j: int| 0 <= j < k ==> #[trigger] in_core(y@, x@[j].alt, x@[j].pos),
        decreases x@.len() - k,
    {
        if !in_core_exec(y, x[k].alt, x[k].pos) {
            return false;
        }
        k += 1;
    }
    true
}

/// Whether `x` and `y` have the same core.
fn same_core_exec(x: &Vec<Item>, y: &Vec<Item>) -> (r: bool)
    ensures
        r == same_core(x@, y@),
{
    let a = core_within(x, y);
    let b = core_within(y, x);
    proof {
        if a && b {
            assert forall|al: usize, p: usize| #[trigger] in_core(x@, al, p) <==> #[trigger] in_core(y@, al, p) by {
                if in_core(x@, al, p) {
                    let k = choose|k: int| 0 <= k < x@.len() && (#[trigger] x@[k]).alt == al && x@[k].pos == p;
                    assert(in_core(y@, x@[k].alt, x@[k].pos));
                }
                if in_core(y@, al, p) {
                    let k = choose|k: int| 0 <= k < y@.len() && (#[trigger] y@[k]).alt == al && y@[k].pos == p;
                    assert(in_core(x@, y@[k].alt, y@[k].pos));
                }
            }
        }
        if !a {
            let k = choose|k: int| 0 <= k < x@.len() && !#[trigger] in_core(y@, x@[k].alt, x@[k].pos);
            assert(in_core(x@, x@[k].alt, x@[k].pos));
        }
        if a && !b {
            let k = choose|k: int| 0 <= k < y@.len() && !#[trigger] in_core(x@, y@[k].alt, y@[k].pos);
            assert(in_core(y@, y@[k].alt, y@[k].pos));
        }
    }
    a && b
}

/// The groups of the states by core, numbered in the order of their first
/// state.
fn core_groups(states: &[State]) -> (r: (Vec<usize>, Vec<usize>))
    ensures
        r.0@.len() == states@.len(),
        forall|s: int| 0 <= s < states@.len() ==> #[trigger] r.0@[s] < r.1@.len(),
        forall|j: int| 0 <= j < r.1@.len() ==> #[trigger] r.1@[j] < states@.len() && r.0@[r.1@[j] as int] == j,
        forall|j: int, s: int| #![trigger r.0@[s], r.1@[j]] 0 <= j < r.1@.len() && 0 <= s < r.1@[j] ==> r.0@[s] != j,
        forall|s: int, t: int| 0 <= s < states@.len() && 0 <= t < states@.len() ==> (#[trigger] r.0@[s] == #[trigger] r.0@[t] <==> same_core(states@[s].items@, states@[t].items@)),
{
    let n = states.len();
    let mut grp: Vec<usize> = Vec::new();
    let mut reps: Vec<usize> = Vec::new();
    let mut s = 0usize;
    while s < n
        invariant
            n == states@.len(),
            s <= n,
            grp@.len() == s,
            reps@.len() <= s,
            forall|t: int| 0 <= t < s ==> #[trigger] grp@[t] < reps@.len(),
            forall|j: int| 0 <= j < reps@.len() ==> #[trigger] reps@[j] < s && grp@[reps@[j] as int] == j,
            forall|j: int, t: int| #![trigger grp@[t], reps@[j]] 0 <= j < reps@.len() && 0 <= t < reps@[j] ==> grp@[t] != j,
            forall|p: int, q: int| 0 <= p < s && 0 <= q < s ==> (#[trigger] grp@[p] == #[trigger] grp@[q] <==> same_core(states@[p].items@, states@[q].items@)),
        decreases n - s,
    {
        let mut r = 0usize;
        let mut found = false;
        while r < s
            invariant
                n == states@.len(),
                s < n,
                r <= s,
                !found ==> forall|t: int| 0 <= t < r ==> !same_core(states@[t].items@, states@[s as int].items@),
                found ==> r < s && same_core(states@[r as int].items@, states@[s as int].items@),
            ensures
                !found ==> r == s && forall|t: int| 0 <= t < s ==> !same_core(states@[t].items@, states@[s as int].items@),
                found ==> r < s && same_core(states@[r as int].items@, states@[s as int].items@),
            decreases s - r,
        {
            if same_core_exec(&states[r].items, &states[s].items) {
                found = true;
                break;
            }
            r += 1;
        }
        let ghost g0 = grp@;
        let ghost r0 = reps@;
        if found {
            let b = grp[r];
            grp.push(b);
            proof {
                assert forall|j: int, t: int| #![trigger grp@[t], reps@[j]] 0 <= j < reps@.len() && 0 <= t < reps@[j] implies grp@[t] != j by {
                    assert(grp@[t] == g0[t]);
                }
                assert forall|p: int, q: int| 0 <= p < s + 1 && 0 <= q < s + 1 implies (#[trigger] grp@[p] == #[trigger] grp@[q] <==> same_core(states@[p].items@, states@[q].items@)) by {
                    if p < s {
                        assert(grp@[p] == g0[p]);
                    }
                    if q < s {
                        assert(grp@[q] == g0[q]);
                    }
                    let x = states@[r as int].items@;
                    let y = states@[s as int].items@;
                    lemma_core_equiv(y, y, y);
                    if p == s && q < s {
                        let z = states@[q].items@;
                        assert(g0[r as int] == g0[q] <==> same_core(x, z));
                        lemma_core_equiv(y, x, z);
                        lemma_core_equiv(x, y, z);
                        lemma_core_equiv(z, y, x);
                        lemma_core_equiv(z, x, y);
                    }
                    if q == s && p < s {
                        let z = states@[p].items@;
                        assert(g0[r as int] == g0[p] <==> same_core(x, z));
                        lemma_core_equiv(x, z, y);
                        lemma_core_equiv(z, x, y);
                        lemma_core_equiv(z, y, x);
                        lemma_core_equiv(y, x, z);
                        lemma_core_equiv(x, y, z);
                    }
                }
            }
        } else {
            let k = reps.len();
            grp.push(k);
            reps.push(s);
            proof {
                assert forall|j: int| 0 <= j < reps@.len() implies #[trigger] reps@[j] < s + 1 && grp@[reps@[j] as int] == j by {
                    if j < k {
                        assert(reps@[j] == r0[j]);
                        assert(grp@[r0[j] as int] == g0[r0[j] as int]);
                    }
                }
                assert forall|j: int, t: int| #![trigger grp@[t], reps@[j]] 0 <= j < reps@.len() && 0 <= t < reps@[j] implies grp@[t] != j by {
                    if j < k {
                        assert(reps@[j] == r0[j]);
                        assert(grp@[t] == g0[t]);
                    } else {
                        assert(grp@[t] == g0[t]);
                        assert(g0[t] < k);
                    }
                }
                assert forall|p: int, q: int| 0 <= p < s + 1 && 0 <= q < s + 1 implies (#[trigger] grp@[p] == #[trigger] grp@[q] <==> same_core(states@[p].items@, states@[q].items@)) by {
                    if p < s {
                        assert(grp@[p] == g0[p]);
                        assert(g0[p] < k);
                    }
                    if q < s {
                        assert(grp@[q] == g0[q]);
                        assert(g0[q] < k);
                    }
                    lemma_core_equiv(states@[p].items@, states@[q].items@, states@[q].items@);
                    if p == s && q < s {
                        assert(!same_core(states@[q].items@, states@[s as int].items@));
                        lemma_core_equiv(states@[s as int].items@, states@[q].items@, states@[q].items@);
                    }
                    if q == s && p < s {
                        assert(!same_core(states@[p].items@, states@[s as int].items@));
                    }
                }
            }
        }
        s += 1;
    }
    (grp, reps)
}

/// The items of all states of group `j`, strictly sorted.
fn merge_group(states: &[State], grp: &Vec<usize>, j: usize) -> (r: Vec<Item>)
    requires
        grp@.len() == states@.len(),
    ensures
        items_sorted(r@),
        forall|it: Item| #[trigger] r@.contains(it) <==> exists|s: int| 0 <= s < states@.len() && grp@[s] == j && #[trigger] states@[s].items@.contains(it),
{
    let mut acc: Vec<Item> = Vec::new();
    let mut s = 0usize;
    while s < states.len()
        invariant
            grp@.len() == states@.len(),
            s <= states@.len(),
            items_sorted(acc@),
            forall|it: Item| #[trigger] acc@.contains(it) <==> exists|t: int| 0 <= t < s && grp@[t] == j && #[trigger] states@[t].items@.contains(it),
        decreases states@.len() - s,
    {
        if grp[s] == j {
            let its = &states[s].items;
            let ghost acc0 = acc@;
            let mut k = 0usize;
            while k < its.len()
                invariant
                    grp@.len() == states@.len(),
                    s < states@.len(),
                    grp@[s as int] == j,
                    its@ == states@[s as int].items@,
                    k <= its@.len(),
                    items_sorted(acc@),
                    forall|it: Item| #[trigger] acc@.contains(it) <==> acc0.contains(it) || exists|q: int| 0 <= q < k && its@[q] == it,
                decreases its@.len() - k,
            {
                let ghost before = acc@;
                insert_item(&mut acc, its[k]);
                proof {
                    assert forall|it: Item| #[trigger] acc@.contains(it) <==> acc0.contains(it) || exists|q: int| 0 <= q < k + 1 && its@[q] == it by {
                        assert(acc@.to_set().contains(it) == acc@.contains(it));
                        assert(before.to_set().contains(it) == before.contains(it));
                        if it == its@[k as int] {
                            assert(acc@.to_set().contains(it));
                        }
                    }
                }
                k += 1;
            }
            proof {
                assert forall|it: Item| #[trigger] acc@.contains(it) <==> exists|t: int| 0 <= t < s + 1 && grp@[t] == j && #[trigger] states@[t].items@.contains(it) by {
                    if acc@.contains(it) && !acc0.contains(it) {
                        let q = choose|q: int| 0 <= q < its@.len() && its@[q] == it;
                        assert(states@[s as int].items@.contains(it));
                    }
                    if exists|t: int| 0 <= t < s + 1 && grp@[t] == j && #[trigger] states@[t].items@.contains(it) {
                        let t = choose|t: int| 0 <= t < s + 1 && grp@[t] == j && #[trigger] states@[t].items@.contains(it);
                        if t == s {
                            let q = choose|q: int| 0 <= q < its@.len() && its@[q] == it;
                        }
                    }
                }
            }
        }
        s += 1;
    }
    acc
}

/// The states of the LR(1) automaton `lr1a` merged by core (see `merged`).
fn merge_states(lr1a: &LR1A) -> (r: (Vec<State>, Ghost<Seq<usize>>, Ghost<Seq<usize>>))
    requires
        forall|s: int, t: int| 0 <= s < lr1a.spec_nexts().len() && 0 <= t < lr1a.spec_nexts()[s].len() ==> (#[trigger] lr1a.spec_nexts()[s][t]).1 < lr1a.spec_items().len(),
        lr1a.spec_nexts().len() == lr1a.spec_items().len(),
    ensures
        merged(lr1a.spec_items(), lr1a.spec_nexts(), r.1@, r.2@, Seq::new(r.0@.len(), |j: int| r.0@[j].items@), Seq::new(r.0@.len(), |j: int| r.0@[j].next@)),
{
    let ghost items = lr1a.spec_items();
    let ghost nexts = lr1a.spec_nexts();
    let states = lr1a.states();
    let (grp, reps) = core_groups(states);
    let mut out: Vec<State> = Vec::new();
    let mut j = 0usize;
    while j < reps.len()
        invariant
            states@.len() == items.len(),
            nexts.len() == items.len(),
            forall|s: int| 0 <= s < states@.len() ==> (#[trigger] states@[s]).items@ == items[s] && states@[s].next@ == nexts[s],
            forall|s: int, t: int| 0 <= s < nexts.len() && 0 <= t < nexts[s].len() ==> (#[trigger] nexts[s][t]).1 < items.len(),
            grp@.len() == items.len(),
            forall|s: int| 0 <= s < items.len() ==> #[trigger] grp@[s] < reps@.len(),
            forall|i: int| 0 <= i < reps@.len() ==> #[trigger] reps@[i] < items.len() && grp@[reps@[i] as int] == i,
            j <= reps@.len(),
            out@.len() == j,
            forall|i: int| 0 <= i < j ==> items_sorted(#[trigger] out@[i].items@),
            forall|i: int, it: Item| 0 <= i < j ==> (#[trigger] out@[i].items@.contains(it) <==> exists|s: int| 0 <= s < items.len() && grp@[s] == i && #[trigger] items[s].contains(it)),
            forall|i: int| 0 <= i < j ==> (#[trigger] out@[i]).next@.len() == nexts[reps@[i] as int].len(),
            forall|i: int, t: int| 0 <= i < j && 0 <= t < out@[i].next@.len() ==> #[trigger] out@[i].next@[t] == (nexts[reps@[i] as int][t].0, grp@[nexts[reps@[i] as int][t].1 as int]),
        decreases reps@.len() - j,
    {
        let merged_items = merge_group(states, &grp, j);
        let rep = reps[j];
        let src = &states[rep].next;
        let mut next: Vec<(Symbol, usize)> = Vec::new();
        let mut t = 0usize;
        while t < src.len()
            invariant
                src@ == nexts[rep as int],
                rep < items.len(),
                nexts.len() == items.len(),
                forall|s: int, u: int| 0 <= s < nexts.len() && 0 <= u < nexts[s].len() ==> (#[trigger] nexts[s][u]).1 < items.len(),
                grp@.len() == items.len(),
                t <= src@.len(),
                next@.len() == t,
                forall|u: int| 0 <= u < t ==> #[trigger] next@[u] == (src@[u].0, grp@[src@[u].1 as int]),
            decreases src@.len() - t,
        {
            let (x, dst) = src[t];
            assert(dst < items.len());
            next.push((x, grp[dst]));
            t += 1;
        }
        let ghost out0 = out@;
        out.push(State { items: merged_items, next });
        proof {
            assert forall|i: int, it: Item| 0 <= i < j + 1 implies (#[trigger] out@[i].items@.contains(it) <==> exists|s: int| 0 <= s < items.len() && grp@[s] == i && #[trigger] items[s].contains(it)) by {
                if i < j {
                    assert(out@[i] == out0[i]);
                } else {
                    assert forall|s: int| 0 <= s < items.len() implies (#[trigger] items[s].contains(it)) == states@[s].items@.contains(it) by {
                        assert(states@[s].items@ == items[s]);
                    }
                }
            }
            assert forall|i: int| 0 <= i < j + 1 implies items_sorted(#[trigger] out@[i].items@) by {
                if i < j {
                    assert(out@[i] == out0[i]);
                }
            }
            assert forall|i: int| 0 <= i < j + 1 implies (#[trigger] out@[i]).next@.len() == nexts[reps@[i] as int].len() by {
                if i < j {
                    assert(out@[i] == out0[i]);
                }
            }
            assert forall|i: int, u: int| 0 <= i < j + 1 && 0 <= u < out@[i].next@.len() implies #[trigger] out@[i].next@[u] == (nexts[reps@[i] as int][u].0, grp@[nexts[reps@[i] as int][u].1 as int]) by {
                if i < j {
                    assert(out@[i] == out0[i]);
                }
            }
        }
        j += 1;
    }
    let ghost litems = Seq::new(out@.len(), |i: int| out@[i].items@);
    let ghost lnexts = Seq::new(out@.len(), |i: int| out@[i].next@);
    proof {
        assert forall|i: int, it: Item| 0 <= i < reps@.len() implies (#[trigger] litems[i].contains(it) <==> exists|s: int| 0 <= s < items.len() && grp@[s] == i && #[trigger] items[s].contains(it)) by {
            assert(litems[i] == out@[i].items@);
        }
        assert forall|i: int| 0 <= i < reps@.len() implies items_sorted(#[trigger] litems[i]) by {
            assert(litems[i] == out@[i].items@);
        }
        assert forall|i: int| 0 <= i < reps@.len() implies (#[trigger] lnexts[i]).len() == nexts[reps@[i] as int].len() by {
            assert(lnexts[i] == out@[i].next@);
        }
        assert forall|i: int, u: int| 0 <= i < reps@.len() && 0 <= u < lnexts[i].len() implies #[trigger] lnexts[i][u] == (nexts[reps@[i] as int][u].0, grp@[nexts[reps@[i] as int][u].1 as int]) by {
            assert(lnexts[i] == out@[i].next@);
        }
        assert forall|s: int, t: int| 0 <= s < items.len() && 0 <= t < items.len() implies (#[trigger] grp@[s] == #[trigger] grp@[t] <==> same_core(items[s], items[t])) by {
            assert(states@[s].items@ == items[s] && states@[t].items@ == items[t]);
        }
    }
    (out, Ghost(grp@), Ghost(reps@))
}

/// The LALR(1) table construction.
pub struct LALR1;

impl LR1TableConstruction for LALR1 {
    /// The LALR(1) automaton.
    open spec fn builds_from(&self, g: Grammar, items: Seq<Seq<Item>>, nexts: Seq<Seq<(Symbol, usize)>>) -> bool {
        is_lalr1a(g, items, nexts)
    }

    fn construct(&self, def: &ParserDef) -> (r: Result<NaiveLR1Table, ConstructionError>)
    {
        let ghost g = def.grammar;
        let wc = word_count_bounded(def);
        let lr1a = LR1A::from(&def.grammar);
        let ghost items = lr1a.spec_items();
        let ghost nexts = lr1a.spec_nexts();
        proof {
            assert forall|s: int, t: int| 0 <= s < nexts.len() && 0 <= t < nexts[s].len() implies (#[trigger] nexts[s][t]).1 < items.len() by {
                assert(transitions_ok(g, items, s, nexts[s]));
            }
        }
        let (lstates, Ghost(grp), Ghost(reps)) = merge_states(&lr1a);
        let ghost litems = Seq::new(lstates@.len(), |j: int| lstates@[j].items@);
        let ghost lnexts = Seq::new(lstates@.len(), |j: int| lstates@[j].next@);
        proof {
            assert(merged(items, nexts, grp, reps, litems, lnexts));
            assert forall|j: int, k: int| 0 <= j < litems.len() && 0 <= k < litems[j].len() implies item_ok(g, wc as int, #[trigger] litems[j][k]) by {
                let it = litems[j][k];
                assert(litems[j].contains(it));
                let s = choose|s: int| 0 <= s < items.len() && grp[s] == j && #[trigger] items[s].contains(it);
                let ks = choose|ks: int| 0 <= ks < items[s].len() && items[s][ks] == it;
                lemma_lr1a_items_ok(g, wc as int, items, nexts, s);
                assert(item_ok(g, wc as int, items[s][ks]));
            }
            assert forall|j: int, t1: int, t2: int| 0 <= j < litems.len() && 0 <= t1 < t2 < lnexts[j].len() implies (#[trigger] lnexts[j][t1]).0 != (#[trigger] lnexts[j][t2]).0 by {
                let rep = reps[j] as int;
                assert(transitions_ok(g, items, rep, nexts[rep]));
                assert(nexts[rep][t1].0 != nexts[rep][t2].0);
            }
            assert forall|j: int, k: int| 0 <= j < litems.len() && 0 <= k < litems[j].len() && (#[trigger] at_dot(g, litems[j][k])) is Some implies has_transition(lnexts[j], at_dot(g, litems[j][k])->Some_0) by {
                let it = litems[j][k];
                let x = at_dot(g, it)->Some_0;
                assert(litems[j].contains(it));
                let s = choose|s: int| 0 <= s < items.len() && grp[s] == j && #[trigger] items[s].contains(it);
                let ks = choose|ks: int| 0 <= ks < items[s].len() && items[s][ks] == it;
                let rep = reps[j] as int;
                assert(grp[rep] == grp[s]);
                assert(same_core(items[s], items[rep]));
                assert(in_core(items[s], it.alt, it.pos));
                assert(in_core(items[rep], it.alt, it.pos));
                let kr = choose|kr: int| 0 <= kr < items[rep].len() && (#[trigger] items[rep][kr]).alt == it.alt && items[rep][kr].pos == it.pos;
                assert(at_dot(g, items[rep][kr]) == at_dot(g, it));
                assert(transitions_ok(g, items, rep, nexts[rep]));
                assert(has_transition(nexts[rep], x));
                let t = choose|t: int| 0 <= t < nexts[rep].len() && (#[trigger] nexts[rep][t]).0 == x;
                assert(lnexts[j][t].0 == x);
            }
            assert forall|j: int| 0 <= j < lstates@.len() implies (#[trigger] lstates@[j]).items@ == litems[j] && lstates@[j].next@ == lnexts[j] by {}
        }
        let r = tables_from_states(def, wc, lstates.as_slice(), Ghost(litems), Ghost(lnexts));
        proof {
            assert(is_lr1a(g, items, nexts) && merged(items, nexts, grp, reps, litems, lnexts));
            assert(is_lalr1a(g, litems, lnexts));
            assert(self.builds_from(g, litems, lnexts));
            assert(word_count_of(g, wc as nat));
        }
        r
    }
}

} // verus!
