//! FIRST sets of the variables of a grammar: for each variable, the terminals
//! that can begin a string derived from it, and `None` where it derives the
//! empty string. They are computed as the limit of the Kleene iteration of
//! the FIRST equations, which the specification below states directly, and
//! shown to hold exactly the first words of the strings a variable derives.

use vstd::prelude::*;
use crate::cfg::{Grammar, Symbol, derives_sym, derives_seq, lemma_derives_mono, lemma_derives_single, lemma_derives_append};

verus! {

/// FIRST of the symbol string `w`, where `f[v]` gives FIRST of variable `v`.
pub open spec fn first_of_seq(f: Seq<Set<Option<usize>>>, w: Seq<Symbol>) -> Set<Option<usize>>
    decreases w.len(),
{
    if w.len() == 0 {
        Set::empty().insert(None)
    } else {
        match w[0] {
            Symbol::Terminal(t) => Set::empty().insert(Some(t)),
            Symbol::Variable(v) => if f[v as int].contains(None) {
                f[v as int].remove(None).union(first_of_seq(f, w.drop_first()))
            } else {
                f[v as int]
            },
        }
    }
}

/// The FIRST sets of the variables of `g`, as a family.
pub open spec fn first_family(g: Grammar) -> Seq<Set<Option<usize>>> {
    Seq::new(g.spec_rule_count(), |v: int| first_set(g, v))
}

/// The union of FIRST of the alternatives `lo..hi` of `g`.
pub open spec fn alts_first(g: Grammar, f: Seq<Set<Option<usize>>>, lo: int, hi: int) -> Set<Option<usize>>
    decreases hi - lo,
{
    if lo >= hi {
        Set::empty()
    } else {
        first_of_seq(f, g.spec_rhs(lo)).union(alts_first(g, f, lo + 1, hi))
    }
}

/// One round of the FIRST equations: each variable gets the union of FIRST
/// of its alternatives, computed from `f`.
pub open spec fn first_step(g: Grammar, f: Seq<Set<Option<usize>>>) -> Seq<Set<Option<usize>>> {
    Seq::new(g.spec_rule_count(), |v: int| alts_first(g, f, g.spec_rule_starts()[v] as int, g.spec_rule_starts()[v + 1] as int))
}

/// The `k`-th Kleene approximation of the FIRST sets, from empty sets.
pub open spec fn first_iter(g: Grammar, k: nat) -> Seq<Set<Option<usize>>>
    decreases k,
{
    if k == 0 {
        Seq::new(g.spec_rule_count(), |v: int| Set::<Option<usize>>::empty())
    } else {
        first_step(g, first_iter(g, (k - 1) as nat))
    }
}

/// `x` is in FIRST of variable `v`: some approximation holds it.
pub open spec fn in_first(g: Grammar, v: int, x: Option<usize>) -> bool {
    exists|k: nat| #[trigger] first_iter(g, k)[v].contains(x)
}

/// FIRST of variable `v`.
pub open spec fn first_set(g: Grammar, v: int) -> Set<Option<usize>> {
    Set::new(|x: Option<usize>| in_first(g, v, x))
}

/// The order of FIRST elements: `None` first, then terminals by number.
pub open spec fn first_key(x: Option<usize>) -> int {
    match x {
        None => 0,
        Some(t) => t + 1,
    }
}

/// Strictly increasing by `first_key` (so no element occurs twice).
pub open spec fn first_sorted(s: Seq<Option<usize>>) -> bool {
    forall|i: int, j: int| 0 <= i < j < s.len() ==> first_key(#[trigger] s[i]) < first_key(#[trigger] s[j])
}

/// Pointwise inclusion of two families of sets of the same length.
pub open spec fn fam_sub(f1: Seq<Set<Option<usize>>>, f2: Seq<Set<Option<usize>>>) -> bool {
    &&& f1.len() == f2.len()
    &&& forall|v: int| 0 <= v < f1.len() ==> (#[trigger] f1[v]).subset_of(f2[v])
}

/// Every element has a key of at most `b`.
pub open spec fn fam_bounded(f: Seq<Set<Option<usize>>>, b: int) -> bool {
    forall|v: int, x: Option<usize>| 0 <= v < f.len() && #[trigger] f[v].contains(x) ==> first_key(x) <= b
}

/// Every terminal of `g` is below `b`.
pub open spec fn terminals_below(g: Grammar, b: int) -> bool {
    forall|a: int, i: int| 0 <= a < g.spec_alt_count() && 0 <= i < g.spec_rhs(a).len() ==> (#[trigger] g.spec_rhs(a)[i] matches Symbol::Terminal(t) ==> t < b)
}

/// The element of key `k`.
pub open spec fn key_elem(k: nat) -> Option<usize> {
    if k == 0 { None } else { Some((k - 1) as usize) }
}

/// The number of keys below `k` whose element is missing from `s`.
pub open spec fn missing(s: Set<Option<usize>>, k: nat) -> nat
    decreases k,
{
    if k == 0 {
        0
    } else {
        missing(s, (k - 1) as nat) + if s.contains(key_elem((k - 1) as nat)) { 0nat } else { 1nat }
    }
}

/// The number of missing (variable, key) pairs below `k`, over variables `0..n`.
pub open spec fn total_missing(f: Seq<Set<Option<usize>>>, n: int, k: nat) -> nat
    decreases n,
{
    if n <= 0 {
        0
    } else {
        total_missing(f, n - 1, k) + missing(f[n - 1], k)
    }
}

proof fn lemma_first_of_seq_mono(f1: Seq<Set<Option<usize>>>, f2: Seq<Set<Option<usize>>>, w: Seq<Symbol>)
    requires
        fam_sub(f1, f2),
        forall|i: int| 0 <= i < w.len() ==> (#[trigger] w[i] matches Symbol::Variable(v) ==> v < f1.len()),
    ensures
        first_of_seq(f1, w).subset_of(first_of_seq(f2, w)),
    decreases w.len(),
{
    if w.len() > 0 {
        assert forall|i: int| 0 <= i < w.drop_first().len() implies (#[trigger] w.drop_first()[i] matches Symbol::Variable(v) ==> v < f1.len()) by {
            assert(w.drop_first()[i] == w[i + 1]);
        }
        lemma_first_of_seq_mono(f1, f2, w.drop_first());
        match w[0] {
            Symbol::Terminal(_) => {},
            Symbol::Variable(v) => {
                assert(f1[v as int].subset_of(f2[v as int]));
            },
        }
    }
}

pub proof fn lemma_first_of_seq_bounded(f: Seq<Set<Option<usize>>>, w: Seq<Symbol>, b: int)
    requires
        fam_bounded(f, b),
        b >= 0,
        forall|i: int| 0 <= i < w.len() ==> (#[trigger] w[i] matches Symbol::Variable(v) ==> v < f.len()),
        forall|i: int| 0 <= i < w.len() ==> (#[trigger] w[i] matches Symbol::Terminal(t) ==> t < b),
    ensures
        forall|x: Option<usize>| #[trigger] first_of_seq(f, w).contains(x) ==> first_key(x) <= b,
    decreases w.len(),
{
    if w.len() > 0 {
        assert forall|i: int| 0 <= i < w.drop_first().len() implies (#[trigger] w.drop_first()[i] matches Symbol::Variable(v) ==> v < f.len()) by {
            assert(w.drop_first()[i] == w[i + 1]);
        }
        assert forall|i: int| 0 <= i < w.drop_first().len() implies (#[trigger] w.drop_first()[i] matches Symbol::Terminal(t) ==> t < b) by {
            assert(w.drop_first()[i] == w[i + 1]);
        }
        lemma_first_of_seq_bounded(f, w.drop_first(), b);
        assert forall|x: Option<usize>| #[trigger] first_of_seq(f, w).contains(x) implies first_key(x) <= b by {
            match w[0] {
                Symbol::Terminal(t) => {
                    assert(x == Some(t));
                },
                Symbol::Variable(v) => {
                    if f[v as int].contains(x) {
                    } else {
                        assert(first_of_seq(f, w.drop_first()).contains(x));
                    }
                },
            }
        }
    }
}

proof fn lemma_alts_first_mono(g: Grammar, f1: Seq<Set<Option<usize>>>, f2: Seq<Set<Option<usize>>>, lo: int, hi: int)
    requires
        g.wf(),
        fam_sub(f1, f2),
        f1.len() == g.spec_rule_count(),
        0 <= lo,
        hi <= g.spec_alt_count(),
    ensures
        alts_first(g, f1, lo, hi).subset_of(alts_first(g, f2, lo, hi)),
    decreases hi - lo,
{
    if lo < hi {
        lemma_alts_first_mono(g, f1, f2, lo + 1, hi);
        assert forall|i: int| 0 <= i < g.spec_rhs(lo).len() implies (#[trigger] g.spec_rhs(lo)[i] matches Symbol::Variable(v) ==> v < f1.len()) by {
        }
        lemma_first_of_seq_mono(f1, f2, g.spec_rhs(lo));
    }
}

proof fn lemma_alts_first_bounded(g: Grammar, f: Seq<Set<Option<usize>>>, lo: int, hi: int, b: int)
    requires
        g.wf(),
        fam_bounded(f, b),
        b >= 0,
        terminals_below(g, b),
        f.len() == g.spec_rule_count(),
        0 <= lo,
        hi <= g.spec_alt_count(),
    ensures
        forall|x: Option<usize>| #[trigger] alts_first(g, f, lo, hi).contains(x) ==> first_key(x) <= b,
    decreases hi - lo,
{
    if lo < hi {
        lemma_alts_first_bounded(g, f, lo + 1, hi, b);
        assert forall|i: int| 0 <= i < g.spec_rhs(lo).len() implies (#[trigger] g.spec_rhs(lo)[i] matches Symbol::Variable(v) ==> v < f.len()) by {
        }
        assert forall|i: int| 0 <= i < g.spec_rhs(lo).len() implies (#[trigger] g.spec_rhs(lo)[i] matches Symbol::Terminal(t) ==> t < b) by {
        }
        lemma_first_of_seq_bounded(f, g.spec_rhs(lo), b);
        assert forall|x: Option<usize>| #[trigger] alts_first(g, f, lo, hi).contains(x) implies first_key(x) <= b by {
            if first_of_seq(f, g.spec_rhs(lo)).contains(x) {
            } else {
                assert(alts_first(g, f, lo + 1, hi).contains(x));
            }
        }
    }
}

proof fn lemma_step_mono(g: Grammar, f1: Seq<Set<Option<usize>>>, f2: Seq<Set<Option<usize>>>)
    requires
        g.wf(),
        fam_sub(f1, f2),
        f1.len() == g.spec_rule_count(),
    ensures
        fam_sub(first_step(g, f1), first_step(g, f2)),
{
    assert forall|v: int| 0 <= v < first_step(g, f1).len() implies (#[trigger] first_step(g, f1)[v]).subset_of(first_step(g, f2)[v]) by {
        let st = g.spec_rule_starts();
        assert(st[v] <= st[v + 1]);
        assert(st[v + 1] <= st[g.spec_rule_count() as int]);
        lemma_alts_first_mono(g, f1, f2, st[v] as int, st[v + 1] as int);
    }
}

proof fn lemma_iter_len(g: Grammar, k: nat)
    ensures
        first_iter(g, k).len() == g.spec_rule_count(),
    decreases k,
{
    if k > 0 {
        lemma_iter_len(g, (k - 1) as nat);
    }
}

proof fn lemma_iter_chain(g: Grammar, k: nat)
    requires
        g.wf(),
    ensures
        fam_sub(first_iter(g, k), first_iter(g, k + 1)),
    decreases k,
{
    lemma_iter_len(g, k);
    lemma_iter_len(g, k + 1);
    if k > 0 {
        lemma_iter_chain(g, (k - 1) as nat);
        lemma_step_mono(g, first_iter(g, (k - 1) as nat), first_iter(g, k));
    }
}

proof fn lemma_iter_le(g: Grammar, i: nat, j: nat)
    requires
        g.wf(),
        i <= j,
    ensures
        fam_sub(first_iter(g, i), first_iter(g, j)),
    decreases j - i,
{
    lemma_iter_len(g, i);
    lemma_iter_len(g, j);
    if i < j {
        lemma_iter_le(g, i, (j - 1) as nat);
        lemma_iter_chain(g, (j - 1) as nat);
    }
}

proof fn lemma_iter_stable(g: Grammar, k: nat, j: nat)
    requires
        first_iter(g, k + 1) == first_iter(g, k),
        k <= j,
    ensures
        first_iter(g, j) == first_iter(g, k),
    decreases j - k,
{
    if k < j {
        lemma_iter_stable(g, k, (j - 1) as nat);
        assert(first_iter(g, j) == first_step(g, first_iter(g, (j - 1) as nat)));
    }
}

proof fn lemma_iter_bounded(g: Grammar, k: nat, b: int)
    requires
        g.wf(),
        b >= 0,
        terminals_below(g, b),
    ensures
        fam_bounded(first_iter(g, k), b),
    decreases k,
{
    lemma_iter_len(g, k);
    if k > 0 {
        lemma_iter_bounded(g, (k - 1) as nat, b);
        lemma_iter_len(g, (k - 1) as nat);
        let f = first_iter(g, (k - 1) as nat);
        assert forall|v: int, x: Option<usize>| 0 <= v < first_iter(g, k).len() && #[trigger] first_iter(g, k)[v].contains(x) implies first_key(x) <= b by {
            let st = g.spec_rule_starts();
            assert(st[v] <= st[v + 1]);
            assert(st[v + 1] <= st[g.spec_rule_count() as int]);
            lemma_alts_first_bounded(g, f, st[v] as int, st[v + 1] as int, b);
        }
    }
}

/// Every element of a FIRST set is the end marker or a terminal of the grammar.
pub proof fn lemma_first_set_bounded(g: Grammar, b: int, v: int, x: Option<usize>)
    requires
        g.wf(),
        b >= 0,
        terminals_below(g, b),
        0 <= v < g.spec_rule_count(),
        in_first(g, v, x),
    ensures
        first_key(x) <= b,
{
    let k = choose|k: nat| #[trigger] first_iter(g, k)[v].contains(x);
    lemma_iter_bounded(g, k, b);
    lemma_iter_len(g, k);
}

/// Once the iteration is stable at `k`, its sets are exactly the FIRST sets.
proof fn lemma_stable_is_first(g: Grammar, k: nat)
    requires
        g.wf(),
        first_iter(g, k + 1) == first_iter(g, k),
    ensures
        forall|v: int, x: Option<usize>| 0 <= v < g.spec_rule_count() ==> (#[trigger] first_iter(g, k)[v].contains(x) <==> in_first(g, v, x)),
{
    assert forall|v: int, x: Option<usize>| 0 <= v < g.spec_rule_count() implies (#[trigger] first_iter(g, k)[v].contains(x) <==> in_first(g, v, x)) by {
        if in_first(g, v, x) {
            let j = choose|j: nat| #[trigger] first_iter(g, j)[v].contains(x);
            lemma_iter_len(g, j);
            if j <= k {
                lemma_iter_le(g, j, k);
                assert(first_iter(g, j)[v].subset_of(first_iter(g, k)[v]));
            } else {
                lemma_iter_stable(g, k, j);
            }
        }
    }
}

proof fn lemma_missing_mono(s1: Set<Option<usize>>, s2: Set<Option<usize>>, k: nat)
    requires
        s1.subset_of(s2),
    ensures
        missing(s2, k) <= missing(s1, k),
        forall|x: Option<usize>| s2.contains(x) && !s1.contains(x) && 0 <= first_key(x) < k ==> missing(s2, k) < missing(s1, k),
    decreases k,
{
    if k > 0 {
        lemma_missing_mono(s1, s2, (k - 1) as nat);
        assert forall|x: Option<usize>| s2.contains(x) && !s1.contains(x) && 0 <= first_key(x) < k implies missing(s2, k) < missing(s1, k) by {
            if first_key(x) == k - 1 {
                assert(key_elem((k - 1) as nat) == x);
            }
        }
    }
}

proof fn lemma_total_mono(f1: Seq<Set<Option<usize>>>, f2: Seq<Set<Option<usize>>>, n: int, k: nat)
    requires
        fam_sub(f1, f2),
        n <= f1.len(),
    ensures
        total_missing(f2, n, k) <= total_missing(f1, n, k),
        forall|v: int, x: Option<usize>| 0 <= v < n && f2[v].contains(x) && !f1[v].contains(x) && 0 <= first_key(x) < k ==> total_missing(f2, n, k) < total_missing(f1, n, k),
    decreases n,
{
    if n > 0 {
        lemma_total_mono(f1, f2, n - 1, k);
        assert(f1[n - 1].subset_of(f2[n - 1]));
        lemma_missing_mono(f1[n - 1], f2[n - 1], k);
    }
}

proof fn lemma_insert_sorted(s: Seq<Option<usize>>, pos: int, x: Option<usize>)
    requires
        first_sorted(s),
        0 <= pos <= s.len(),
        forall|i: int| 0 <= i < pos ==> first_key(#[trigger] s[i]) < first_key(x),
        forall|i: int| pos <= i < s.len() ==> first_key(x) < first_key(#[trigger] s[i]),
    ensures
        first_sorted(s.insert(pos, x)),
        s.insert(pos, x).to_set() == s.to_set().insert(x),
{
    let t = s.insert(pos, x);
    assert forall|y: Option<usize>| #[trigger] t.contains(y) <==> s.contains(y) || y == x by {
        if t.contains(y) {
            let i = choose|i: int| 0 <= i < t.len() && t[i] == y;
            if i < pos {
                assert(s[i] == y);
            } else if i > pos {
                assert(s[i - 1] == y);
            }
        }
        if s.contains(y) {
            let i = choose|i: int| 0 <= i < s.len() && s[i] == y;
            if i < pos {
                assert(t[i] == y);
            } else {
                assert(t[i + 1] == y);
            }
        }
        if y == x {
            assert(t[pos] == x);
        }
    }
    assert(t.to_set() =~= s.to_set().insert(x));
}

/// Inserts `x` into the strictly sorted `v`; tells whether it was new.
fn insert_first(v: &mut Vec<Option<usize>>, x: Option<usize>) -> (added: bool)
    requires
        first_sorted(old(v)@),
    ensures
        first_sorted(final(v)@),
        final(v)@.to_set() == old(v)@.to_set().insert(x),
        added <==> !old(v)@.contains(x),
{
    let kx: u128 = match x {
        None => 0,
        Some(t) => t as u128 + 1,
    };
    let mut pos = 0usize;
    while pos < v.len()
        invariant
            first_sorted(v@),
            pos <= v@.len(),
            kx == first_key(x),
            forall|i: int| 0 <= i < pos ==> first_key(#[trigger] v@[i]) < first_key(x),
        ensures
            pos == v@.len() || first_key(x) < first_key(v@[pos as int]),
        decreases v@.len() - pos,
    {
        let ky: u128 = match v[pos] {
            None => 0,
            Some(t) => t as u128 + 1,
        };
        if ky == kx {
            proof {
                assert(first_key(v@[pos as int]) == first_key(x));
                assert(v@[pos as int] == x);
                assert(v@.to_set().insert(x) =~= v@.to_set());
            }
            return false;
        }
        if ky > kx {
            break;
        }
        pos += 1;
    }
    proof {
        assert forall|i: int| pos <= i < v@.len() implies first_key(x) < first_key(#[trigger] v@[i]) by {
            if i > pos {
                assert(first_key(v@[pos as int]) < first_key(v@[i]));
            }
        }
        if v@.contains(x) {
            let i = choose|i: int| 0 <= i < v@.len() && v@[i] == x;
            assert(first_key(v@[i]) == first_key(x));
        }
        lemma_insert_sorted(v@, pos as int, x);
    }
    v.insert(pos, x);
    true
}

/// The family of sets that a sequence of element lists stands for.
pub open spec fn fam_of(rows: Seq<Vec<Option<usize>>>) -> Seq<Set<Option<usize>>> {
    Seq::new(rows.len(), |v: int| rows[v]@.to_set())
}

fn copy_row(v: &Vec<Option<usize>>) -> (r: Vec<Option<usize>>)
    ensures
        r@ == v@,
{
    let mut r: Vec<Option<usize>> = Vec::new();
    let mut i = 0usize;
    while i < v.len()
        invariant
            i <= v@.len(),
            r@ == v@.take(i as int),
        decreases v@.len() - i,
    {
        r.push(v[i]);
        i += 1;
        assert(r@ =~= v@.take(i as int));
    }
    assert(r@ =~= v@);
    r
}

/// Adds to `acc` the elements of `row` other than `None`.
fn add_row_but_none(row: &Vec<Option<usize>>, acc: &mut Vec<Option<usize>>) -> (changed: bool)
    requires
        first_sorted(old(acc)@),
    ensures
        first_sorted(final(acc)@),
        final(acc)@.to_set() == old(acc)@.to_set().union(row@.to_set().remove(None)),
        !changed ==> final(acc)@.to_set() == old(acc)@.to_set(),
        changed ==> exists|x: Option<usize>| final(acc)@.to_set().contains(x) && !old(acc)@.to_set().contains(x),
{
    let ghost start = acc@.to_set();
    let mut changed = false;
    let mut i = 0usize;
    while i < row.len()
        invariant
            first_sorted(acc@),
            i <= row@.len(),
            acc@.to_set() == start.union(row@.take(i as int).to_set().remove(None)),
            !changed ==> acc@.to_set() == start,
            changed ==> exists|x: Option<usize>| acc@.to_set().contains(x) && !start.contains(x),
        decreases row@.len() - i,
    {
        let x = row[i];
        if x.is_some() {
            let ghost before = acc@;
            let added = insert_first(acc, x);
            if added {
                changed = true;
                assert(acc@.to_set().contains(x));
                assert(!before.contains(x));
                assert(!before.to_set().contains(x));
                assert(!start.contains(x));
            }
        }
        proof {
            assert(row@.take(i + 1) == row@.take(i as int).push(x));
            row@.take(i as int).lemma_push_to_set_commute(x);
            assert(acc@.to_set() =~= start.union(row@.take(i + 1).to_set().remove(None)));
            if !changed {
                assert(acc@.to_set() =~= start);
            }
        }
        i += 1;
    }
    assert(row@.take(row@.len() as int) =~= row@);
    changed
}

/// Adds to `acc` FIRST of the symbol string `w`, given the approximation `cur`.
fn add_first_of_seq(cur: &Vec<Vec<Option<usize>>>, w: &Vec<Symbol>, acc: &mut Vec<Option<usize>>) -> (changed: bool)
    requires
        first_sorted(old(acc)@),
        forall|i: int| 0 <= i < w@.len() ==> (#[trigger] w@[i] matches Symbol::Variable(v) ==> v < cur@.len()),
    ensures
        first_sorted(final(acc)@),
        final(acc)@.to_set() == old(acc)@.to_set().union(first_of_seq(fam_of(cur@), w@)),
        !changed ==> final(acc)@.to_set() == old(acc)@.to_set(),
        changed ==> exists|x: Option<usize>| final(acc)@.to_set().contains(x) && !old(acc)@.to_set().contains(x),
{
    let ghost f = fam_of(cur@);
    let ghost start = acc@.to_set();
    let ghost target = start.union(first_of_seq(f, w@));
    let mut changed = false;
    let mut i = 0usize;
    assert(w@.skip(0) =~= w@);
    while i < w.len()
        invariant
            f == fam_of(cur@),
            start == old(acc)@.to_set(),
            target == start.union(first_of_seq(f, w@)),
            forall|j: int| 0 <= j < w@.len() ==> (#[trigger] w@[j] matches Symbol::Variable(v) ==> v < cur@.len()),
            first_sorted(acc@),
            i <= w@.len(),
            acc@.to_set().union(first_of_seq(f, w@.skip(i as int))) == target,
            start.subset_of(acc@.to_set()),
            !changed ==> acc@.to_set() == start,
            changed ==> exists|x: Option<usize>| acc@.to_set().contains(x) && !start.contains(x),
        decreases w@.len() - i,
    {
        let ghost rest = w@.skip(i as int);
        assert(rest[0] == w@[i as int]);
        assert(rest.drop_first() =~= w@.skip(i + 1));
        match w[i] {
            Symbol::Terminal(t) => {
                let ghost before = acc@;
                let added = insert_first(acc, Some(t));
                proof {
                    assert(acc@.to_set() =~= target);
                    if added {
                        assert(acc@.to_set().contains(Some(t)));
                        assert(!before.to_set().contains(Some(t)));
                    } else if changed {
                        let x = choose|x: Option<usize>| before.to_set().contains(x) && !start.contains(x);
                        assert(acc@.to_set().contains(x));
                    } else {
                        assert(acc@.to_set() =~= start);
                    }
                }
                if added {
                    changed = true;
                }
                return changed;
            },
            Symbol::Variable(v) => {
                let row = &cur[v];
                let ghost before = acc@.to_set();
                let added = add_row_but_none(row, acc);
                proof {
                    if !added && changed {
                        let x = choose|x: Option<usize>| before.contains(x) && !start.contains(x);
                        assert(acc@.to_set().contains(x));
                    }
                }
                if added {
                    changed = true;
                }
                assert(f[v as int] == row@.to_set());
                let nullable = row_has_none(row);
                if !nullable {
                    proof {
                        assert(!f[v as int].contains(None));
                        assert(row@.to_set().remove(None) =~= row@.to_set());
                        assert(acc@.to_set() =~= target);
                        if !changed {
                            assert(acc@.to_set() =~= start);
                        }
                    }
                    return changed;
                }
                proof {
                    assert(acc@.to_set().union(first_of_seq(f, w@.skip(i + 1))) =~= target);
                    if !changed {
                        assert(acc@.to_set() =~= start);
                    }
                }
            },
        }
        i += 1;
    }
    let ghost before = acc@;
    let added = insert_first(acc, None);
    proof {
        if added {
            assert(acc@.to_set().contains(None));
            assert(!before.to_set().contains(None));
        } else if changed {
            let x = choose|x: Option<usize>| before.to_set().contains(x) && !start.contains(x);
            assert(acc@.to_set().contains(x));
        }
    }
    if added {
        changed = true;
    }
    proof {
        assert(w@.skip(i as int).len() == 0);
        assert(acc@.to_set() =~= target);
        if !changed {
            assert(acc@.to_set() =~= start);
        } else {
            assert(acc@.to_set().contains(None) || exists|x: Option<usize>| acc@.to_set().contains(x) && !start.contains(x));
        }
    }
    changed
}

/// Whether the strictly sorted row holds `None` (at its front).
fn row_has_none(row: &Vec<Option<usize>>) -> (r: bool)
    ensures
        r <==> row@.to_set().contains(None),
{
    let mut i = 0usize;
    while i < row.len()
        invariant
            i <= row@.len(),
            forall|j: int| 0 <= j < i ==> row@[j] != None::<usize>,
        decreases row@.len() - i,
    {
        if row[i].is_none() {
            assert(row@.to_set().contains(row@[i as int]));
            return true;
        }
        i += 1;
    }
    false
}

/// The FIRST sets of the variables of a grammar. Each is strictly sorted by
/// `first_key`, so that `None`, standing for the empty string, comes first
/// where the variable derives it.
pub struct First {
    sets: Vec<Vec<Option<usize>>>,
}

impl First {
    /// The FIRST list of each variable.
    pub closed spec fn spec_sets(&self) -> Seq<Seq<Option<usize>>> {
        Seq::new(self.sets@.len(), |v: int| self.sets@[v]@)
    }

    /// These are the FIRST sets of `g`, each strictly sorted.
    pub open spec fn is_first_of(&self, g: Grammar) -> bool {
        &&& self.spec_sets().len() == g.spec_rule_count()
        &&& forall|v: int| 0 <= v < self.spec_sets().len() ==> first_sorted(#[trigger] self.spec_sets()[v])
        &&& forall|v: int, x: Option<usize>| 0 <= v < self.spec_sets().len() ==> (#[trigger] self.spec_sets()[v].contains(x) <==> in_first(g, v, x))
    }

    /// Computes the FIRST sets of `grammar`.
    pub fn new(grammar: &Grammar) -> (r: Self)
        requires
            grammar.wf(),
        ensures
            r.is_first_of(*grammar),
    {
        let ghost g = *grammar;
        let ghost b: int = usize::MAX + 1;
        let n = grammar.rule_count();
        let mut cur: Vec<Vec<Option<usize>>> = Vec::new();
        let mut v = 0usize;
        while v < n
            invariant
                v <= n,
                cur@.len() == v,
                forall|u: int| 0 <= u < v ==> (#[trigger] cur@[u])@ == Seq::<Option<usize>>::empty(),
            decreases n - v,
        {
            cur.push(Vec::new());
            v += 1;
        }
        let ghost mut k: nat = 0;
        proof {
            lemma_iter_len(g, 0);
            assert forall|u: int| 0 <= u < n implies fam_of(cur@)[u] == first_iter(g, 0)[u] by {
                assert(cur@[u]@.to_set() =~= Set::<Option<usize>>::empty());
            }
            assert(fam_of(cur@) =~= first_iter(g, 0));
        }
        loop
            invariant
                g == *grammar,
                g.wf(),
                b == usize::MAX + 1,
                n == g.spec_rule_count(),
                cur@.len() == n,
                fam_of(cur@) == first_iter(g, k),
                forall|u: int| 0 <= u < n ==> first_sorted(#[trigger] cur@[u]@),
            decreases total_missing(fam_of(cur@), n as int, (b + 1) as nat),
        {
            proof {
                lemma_iter_len(g, k + 1);
                lemma_iter_chain(g, k);
                lemma_iter_bounded(g, k + 1, b);
            }
            let mut next: Vec<Vec<Option<usize>>> = Vec::new();
            let mut changed = false;
            let mut v = 0usize;
            while v < n
                invariant
                    g == *grammar,
                    g.wf(),
                    n == g.spec_rule_count(),
                    cur@.len() == n,
                    fam_of(cur@) == first_iter(g, k),
                    forall|u: int| 0 <= u < n ==> first_sorted(#[trigger] cur@[u]@),
                    fam_sub(first_iter(g, k), first_iter(g, k + 1)),
                    first_iter(g, k + 1).len() == n,
                    v <= n,
                    next@.len() == v,
                    forall|u: int| 0 <= u < v ==> first_sorted(#[trigger] next@[u]@),
                    forall|u: int| 0 <= u < v ==> (#[trigger] next@[u])@.to_set() == first_iter(g, k + 1)[u],
                    !changed ==> forall|u: int| 0 <= u < v ==> (#[trigger] next@[u])@.to_set() == cur@[u]@.to_set(),
                    changed ==> exists|u: int, x: Option<usize>| 0 <= u < v && #[trigger] next@[u]@.to_set().contains(x) && !cur@[u]@.to_set().contains(x),
                decreases n - v,
            {
                let mut row = copy_row(&cur[v]);
                let ghost row0 = row@.to_set();
                let (lo, hi) = grammar.alt_indices(v);
                let mut a = lo;
                let ghost f = fam_of(cur@);
                assert(f[v as int] == row0);
                assert(alts_first(g, f, lo as int, lo as int) =~= Set::empty());
                assert(row@.to_set() =~= row0.union(alts_first(g, f, lo as int, lo as int)));
                let mut row_changed = false;
                while a < hi
                    invariant
                        g == *grammar,
                        g.wf(),
                        f == fam_of(cur@),
                        cur@.len() == n,
                        n == g.spec_rule_count(),
                        v < n,
                        lo == g.spec_rule_starts()[v as int],
                        hi == g.spec_rule_starts()[v + 1],
                        hi <= g.spec_alt_count(),
                        lo <= a <= hi,
                        first_sorted(row@),
                        row@.to_set() == row0.union(alts_first(g, f, lo as int, a as int)),
                        !row_changed ==> row@.to_set() == row0,
                        row_changed ==> exists|x: Option<usize>| row@.to_set().contains(x) && !row0.contains(x),
                    decreases hi - a,
                {
                    let rhs = grammar.alt(a);
                    assert forall|i: int| 0 <= i < rhs@.len() implies (#[trigger] rhs@[i] matches Symbol::Variable(u) ==> u < cur@.len()) by {
                        assert(rhs@[i] == g.spec_rhs(a as int)[i]);
                    }
                    let added = add_first_of_seq(&cur, rhs, &mut row);
                    if added {
                        row_changed = true;
                    }
                    proof {
                        lemma_alts_first_split(g, f, lo as int, a as int, hi as int);
                    }
                    a += 1;
                    proof {
                        assert(row@.to_set() =~= row0.union(alts_first(g, f, lo as int, a as int)));
                    }
                }
                proof {
                    assert(alts_first(g, f, hi as int, hi as int) =~= Set::empty());
                    assert(first_iter(g, k + 1)[v as int] == alts_first(g, f, lo as int, hi as int));
                    assert(f[v as int].subset_of(first_iter(g, k + 1)[v as int]));
                    assert(row@.to_set() =~= first_iter(g, k + 1)[v as int]);
                }
                if row_changed {
                    changed = true;
                }
                let ghost next0 = next@;
                next.push(row);
                proof {
                    assert(next@[v as int] == row);
                    if row_changed {
                        let x = choose|x: Option<usize>| row@.to_set().contains(x) && !row0.contains(x);
                        assert(next@[v as int]@.to_set().contains(x) && !cur@[v as int]@.to_set().contains(x));
                    } else if changed {
                        let (u, x) = choose|u: int, x: Option<usize>| 0 <= u < v && #[trigger] next0[u]@.to_set().contains(x) && !cur@[u]@.to_set().contains(x);
                        assert(next@[u] == next0[u]);
                        assert(next@[u]@.to_set().contains(x) && !cur@[u]@.to_set().contains(x));
                    }
                }
                v += 1;
            }
            if !changed {
                proof {
                    assert(first_iter(g, k + 1) =~= first_iter(g, k)) by {
                        assert forall|u: int| 0 <= u < n implies first_iter(g, k + 1)[u] == first_iter(g, k)[u] by {
                            assert(next@[u]@.to_set() == first_iter(g, k + 1)[u]);
                            assert(next@[u]@.to_set() == cur@[u]@.to_set());
                            assert(fam_of(cur@)[u] == cur@[u]@.to_set());
                        }
                    }
                    lemma_stable_is_first(g, k);
                }
                let r = First { sets: cur };
                proof {
                    assert forall|u: int, x: Option<usize>| 0 <= u < r.spec_sets().len() implies (#[trigger] r.spec_sets()[u].contains(x) <==> in_first(g, u, x)) by {
                        assert(r.spec_sets()[u] == r.sets@[u]@);
                        assert(fam_of(r.sets@)[u] == r.sets@[u]@.to_set());
                        assert(first_iter(g, k)[u].contains(x) <==> in_first(g, u, x));
                    }
                    assert forall|u: int| 0 <= u < r.spec_sets().len() implies first_sorted(#[trigger] r.spec_sets()[u]) by {
                        assert(r.spec_sets()[u] == r.sets@[u]@);
                    }
                }
                return r;
            }
            proof {
                let ghost fnext = fam_of(next@);
                assert(fnext =~= first_iter(g, k + 1)) by {
                    assert forall|u: int| 0 <= u < n implies fnext[u] == first_iter(g, k + 1)[u] by {
                        assert(next@[u]@.to_set() == first_iter(g, k + 1)[u]);
                    }
                }
                let (u, x) = choose|u: int, x: Option<usize>| 0 <= u < n && #[trigger] next@[u]@.to_set().contains(x) && !cur@[u]@.to_set().contains(x);
                assert(fnext[u].contains(x));
                assert(!fam_of(cur@)[u].contains(x));
                assert(first_key(x) <= b);
                lemma_total_mono(fam_of(cur@), fnext, n as int, (b + 1) as nat);
                k = k + 1;
            }
            cur = next;
        }
    }

    /// FIRST of variable `var`, strictly sorted, `None` first where present.
    pub fn get(&self, var: usize) -> (r: &Vec<Option<usize>>)
        requires
            var < self.spec_sets().len(),
        ensures
            r@ == self.spec_sets()[var as int],
    {
        &self.sets[var]
    }
}

proof fn lemma_alts_first_split(g: Grammar, f: Seq<Set<Option<usize>>>, lo: int, a: int, hi: int)
    requires
        lo <= a < hi,
    ensures
        alts_first(g, f, lo, a + 1) == alts_first(g, f, lo, a).union(first_of_seq(f, g.spec_rhs(a))),
        alts_first(g, f, a, hi) == first_of_seq(f, g.spec_rhs(a)).union(alts_first(g, f, a + 1, hi)),
    decreases a - lo,
{
    if lo < a {
        lemma_alts_first_split(g, f, lo + 1, a, hi);
        assert(alts_first(g, f, lo, a + 1) =~= alts_first(g, f, lo, a).union(first_of_seq(f, g.spec_rhs(a))));
    } else {
        assert(alts_first(g, f, a, a) =~= Set::empty());
        assert(alts_first(g, f, a + 1, a + 1) =~= Set::empty());
        assert(alts_first(g, f, lo, a + 1) =~= alts_first(g, f, lo, a).union(first_of_seq(f, g.spec_rhs(a))));
    }
}

/// The first word of `w`, `None` where it is empty.
pub open spec fn first_word(w: Seq<usize>) -> Option<usize> {
    if w.len() == 0 {
        None
    } else {
        Some(w[0])
    }
}

/// Variable `u` derives some string of words.
pub open spec fn derives_something(g: Grammar, u: usize) -> bool {
    exists|w: Seq<usize>, n: nat| #[trigger] derives_sym(g, Symbol::Variable(u), w, n)
}

/// Every variable of `g` derives some string of words.
pub open spec fn productive(g: Grammar) -> bool {
    forall|u: usize| u < g.spec_rule_count() ==> #[trigger] derives_something(g, u)
}

/// The variables of `s` are variables of `g`.
pub open spec fn vars_in(g: Grammar, s: Seq<Symbol>) -> bool {
    forall|i: int| 0 <= i < s.len() ==> (#[trigger] s[i] matches Symbol::Variable(v) ==> v < g.spec_rule_count())
}

proof fn lemma_alts_first_contains(g: Grammar, f: Seq<Set<Option<usize>>>, lo: int, a: int, hi: int, x: Option<usize>)
    requires
        lo <= a < hi,
        first_of_seq(f, g.spec_rhs(a)).contains(x),
    ensures
        alts_first(g, f, lo, hi).contains(x),
    decreases a - lo,
{
    if lo < a {
        lemma_alts_first_contains(g, f, lo + 1, a, hi, x);
    }
}

proof fn lemma_alts_first_member(g: Grammar, f: Seq<Set<Option<usize>>>, lo: int, hi: int, x: Option<usize>) -> (a: int)
    requires
        alts_first(g, f, lo, hi).contains(x),
    ensures
        lo <= a < hi,
        first_of_seq(f, g.spec_rhs(a)).contains(x),
    decreases hi - lo,
{
    if first_of_seq(f, g.spec_rhs(lo)).contains(x) {
        lo
    } else {
        lemma_alts_first_member(g, f, lo + 1, hi, x)
    }
}

proof fn lemma_rhs_vars(g: Grammar, a: int)
    requires
        g.wf(),
        0 <= a < g.spec_alt_count(),
    ensures
        vars_in(g, g.spec_rhs(a)),
{
    assert forall|i: int| 0 <= i < g.spec_rhs(a).len() implies (#[trigger] g.spec_rhs(a)[i] matches Symbol::Variable(v) ==> v < g.spec_rule_count()) by {
        match g.spec_rhs(a)[i] {
            Symbol::Variable(v) => {},
            Symbol::Terminal(_) => {},
        }
    }
}

proof fn lemma_sym_first(g: Grammar, v: usize, w: Seq<usize>, n: nat)
    requires
        g.wf(),
        v < g.spec_rule_count(),
        derives_sym(g, Symbol::Variable(v), w, n),
    ensures
        first_iter(g, n)[v as int].contains(first_word(w)),
    decreases n, 0nat,
{
    let a = choose|a: int| 0 <= a < g.spec_alt_count() && #[trigger] g.spec_alt_rule()[a] == v
        && derives_seq(g, g.spec_rhs(a), w, (n - 1) as nat);
    lemma_rhs_vars(g, a);
    lemma_seq_first(g, g.spec_rhs(a), w, (n - 1) as nat);
    let st = g.spec_rule_starts();
    let r = g.spec_alt_rule()[a];
    assert(st[r as int] <= a < st[r + 1]);
    lemma_alts_first_contains(g, first_iter(g, (n - 1) as nat), st[v as int] as int, a, st[v + 1] as int, first_word(w));
}

proof fn lemma_seq_first(g: Grammar, s: Seq<Symbol>, w: Seq<usize>, n: nat)
    requires
        g.wf(),
        vars_in(g, s),
        derives_seq(g, s, w, n),
    ensures
        first_of_seq(first_iter(g, n), s).contains(first_word(w)),
    decreases n, s.len() + 1,
{
    if s.len() > 0 {
        let k = choose|k: int| 0 <= k <= w.len() && derives_sym(g, s[0], #[trigger] w.take(k), n) && derives_seq(g, s.drop_first(), w.skip(k), n);
        let rest = s.drop_first();
        assert(vars_in(g, rest)) by {
            assert forall|i: int| 0 <= i < rest.len() implies (#[trigger] rest[i] matches Symbol::Variable(v) ==> v < g.spec_rule_count()) by {
                assert(rest[i] == s[i + 1]);
            }
        }
        match s[0] {
            Symbol::Terminal(t) => {
                assert(w.take(k) == seq![t]);
                assert(w[0] == w.take(k)[0]);
            },
            Symbol::Variable(u) => {
                assert(s[0] matches Symbol::Variable(v) ==> v < g.spec_rule_count());
                lemma_sym_first(g, u, w.take(k), n);
                if k > 0 {
                    assert(w[0] == w.take(k)[0]);
                } else {
                    assert(w.take(k).len() == 0);
                    assert(w.skip(k) =~= w);
                    lemma_seq_first(g, rest, w.skip(k), n);
                }
            },
        }
    }
}

/// A string that a variable derives begins with an element of the
/// variable's FIRST set (`None`: the string is empty).
pub proof fn lemma_first_of_derivation(g: Grammar, v: usize, w: Seq<usize>, n: nat)
    requires
        g.wf(),
        v < g.spec_rule_count(),
        derives_sym(g, Symbol::Variable(v), w, n),
    ensures
        in_first(g, v as int, first_word(w)),
{
    lemma_sym_first(g, v, w, n);
}

proof fn lemma_sym_mono(g: Grammar, x: Symbol, w: Seq<usize>, n: nat, m: nat)
    requires
        derives_sym(g, x, w, n),
        n <= m,
    ensures
        derives_sym(g, x, w, m),
{
    lemma_derives_single(g, x, w, n);
    lemma_derives_mono(g, seq![x], w, n, m);
    lemma_derives_single(g, x, w, m);
}

proof fn lemma_seq_productive(g: Grammar, s: Seq<Symbol>) -> (r: (Seq<usize>, nat))
    requires
        productive(g),
        vars_in(g, s),
    ensures
        derives_seq(g, s, r.0, r.1),
    decreases s.len(),
{
    if s.len() == 0 {
        (Seq::empty(), 0)
    } else {
        let rest = s.drop_first();
        assert(vars_in(g, rest)) by {
            assert forall|i: int| 0 <= i < rest.len() implies (#[trigger] rest[i] matches Symbol::Variable(v) ==> v < g.spec_rule_count()) by {
                assert(rest[i] == s[i + 1]);
            }
        }
        let (w1, n1) = lemma_seq_productive(g, rest);
        let (w0, n0) = match s[0] {
            Symbol::Terminal(t) => (seq![t], 0nat),
            Symbol::Variable(u) => {
                assert(s[0] matches Symbol::Variable(v) ==> v < g.spec_rule_count());
                assert(derives_something(g, u));
                choose|w: Seq<usize>, n: nat| #[trigger] derives_sym(g, Symbol::Variable(u), w, n)
            },
        };
        let m = if n0 <= n1 { n1 } else { n0 };
        assert(derives_sym(g, s[0], w0, n0));
        lemma_sym_mono(g, s[0], w0, n0, m);
        lemma_derives_single(g, s[0], w0, m);
        lemma_derives_mono(g, rest, w1, n1, m);
        lemma_derives_append(g, seq![s[0]], w0, rest, w1, m);
        assert(seq![s[0]] + rest =~= s);
        (w0 + w1, m)
    }
}

proof fn lemma_sym_sound(g: Grammar, v: usize, k: nat, x: Option<usize>) -> (r: (Seq<usize>, nat))
    requires
        g.wf(),
        productive(g),
        v < g.spec_rule_count(),
        first_iter(g, k)[v as int].contains(x),
    ensures
        derives_sym(g, Symbol::Variable(v), r.0, r.1),
        first_word(r.0) == x,
    decreases k, 0nat,
{
    lemma_iter_len(g, k);
    if k == 0 {
        assert(false);
        (Seq::empty(), 0)
    } else {
        let f = first_iter(g, (k - 1) as nat);
        let st = g.spec_rule_starts();
        assert(st[v + 1] <= st[g.spec_rule_count() as int]);
        let a = lemma_alts_first_member(g, f, st[v as int] as int, st[v + 1] as int, x);
        assert(0 <= a < g.spec_alt_count());
        lemma_rhs_vars(g, a);
        let (w, n) = lemma_seq_sound(g, (k - 1) as nat, g.spec_rhs(a), x);
        assert(g.spec_alt_rule()[a] == v) by {
            crate::cfg::lemma_alt_rule(g, v as int, a);
        }
        assert(derives_sym(g, Symbol::Variable(v), w, n + 1));
        (w, n + 1)
    }
}

proof fn lemma_seq_sound(g: Grammar, k: nat, s: Seq<Symbol>, x: Option<usize>) -> (r: (Seq<usize>, nat))
    requires
        g.wf(),
        productive(g),
        vars_in(g, s),
        first_of_seq(first_iter(g, k), s).contains(x),
    ensures
        derives_seq(g, s, r.0, r.1),
        first_word(r.0) == x,
    decreases k, s.len() + 1,
{
    if s.len() == 0 {
        (Seq::empty(), 0)
    } else {
        let rest = s.drop_first();
        assert(vars_in(g, rest)) by {
            assert forall|i: int| 0 <= i < rest.len() implies (#[trigger] rest[i] matches Symbol::Variable(v) ==> v < g.spec_rule_count()) by {
                assert(rest[i] == s[i + 1]);
            }
        }
        let f = first_iter(g, k);
        let (w0, n0, w1, n1) = match s[0] {
            Symbol::Terminal(t) => {
                let (w1, n1) = lemma_seq_productive(g, rest);
                (seq![t], 0nat, w1, n1)
            },
            Symbol::Variable(u) => {
                assert(s[0] matches Symbol::Variable(v) ==> v < g.spec_rule_count());
                lemma_iter_len(g, k);
                if f[u as int].contains(None) && !f[u as int].remove(None).contains(x) {
                    let (w0, n0) = lemma_sym_sound(g, u, k, None);
                    let (w1, n1) = lemma_seq_sound(g, k, rest, x);
                    (w0, n0, w1, n1)
                } else {
                    let (w0, n0) = lemma_sym_sound(g, u, k, x);
                    let (w1, n1) = lemma_seq_productive(g, rest);
                    (w0, n0, w1, n1)
                }
            },
        };
        let m = if n0 <= n1 { n1 } else { n0 };
        assert(derives_sym(g, s[0], w0, n0));
        lemma_sym_mono(g, s[0], w0, n0, m);
        lemma_derives_single(g, s[0], w0, m);
        lemma_derives_mono(g, rest, w1, n1, m);
        lemma_derives_append(g, seq![s[0]], w0, rest, w1, m);
        assert(seq![s[0]] + rest =~= s);
        let w = w0 + w1;
        if w0.len() > 0 {
            assert(w[0] == w0[0]);
        } else {
            assert(w =~= w1);
        }
        (w, m)
    }
}

/// In a grammar whose variables all derive some string, every element of
/// a FIRST set begins a string that the variable derives (`None`: the
/// variable derives the empty string).
pub proof fn lemma_derivation_of_first(g: Grammar, v: usize, x: Option<usize>) -> (r: (Seq<usize>, nat))
    requires
        g.wf(),
        productive(g),
        v < g.spec_rule_count(),
        in_first(g, v as int, x),
    ensures
        derives_sym(g, Symbol::Variable(v), r.0, r.1),
        first_word(r.0) == x,
{
    let k = choose|k: nat| #[trigger] first_iter(g, k)[v as int].contains(x);
    lemma_sym_sound(g, v, k, x)
}

} // verus!
