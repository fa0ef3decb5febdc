//! Deterministic automata recognising a vector of regular expressions at
//! once, built from Brzozowski derivatives: each state stands for a vector
//! of derivatives, and its class is the first of them that matches the
//! empty string. State 0 is the sink, state 1 the start.

use vstd::prelude::*;
use vstd::string::StringSliceAdditionalSpecFns;
use crate::regex::{RegEx, wf, not_free, lang, nullable, same, same_seq, all_wf, equivalent, lemma_same_seq, lemma_same_seq_quant, lemma_nullable, lemma_all_wf, alike, grouping, cross, one_group, deriv_post};

verus! {

/// A state: the class it accepts (the index of the first expression that
/// matches there), and the state each byte leads to.
pub struct State {
    pub class: Option<usize>,
    pub next: Vec<usize>,
}

/// A deterministic automaton over bytes.
pub struct DFA {
    states: Vec<State>,
}

/// The index of the first of the expressions of `q`, from `k` on, that matches `w`.
pub open spec fn first_match_from(q: Seq<RegEx>, w: Seq<u8>, k: int) -> Option<usize>
    decreases q.len() - k,
{
    if k < 0 || k >= q.len() {
        None
    } else if lang(q[k], w) {
        Some(k as usize)
    } else {
        first_match_from(q, w, k + 1)
    }
}

/// The index of the first of the expressions of `q` that matches `w`.
pub open spec fn first_match(q: Seq<RegEx>, w: Seq<u8>) -> Option<usize> {
    first_match_from(q, w, 0)
}

/// The state reached from `s` on `w`, by the transition rows `next`.
pub open spec fn run(next: Seq<Seq<usize>>, s: int, w: Seq<u8>) -> int
    decreases w.len(),
{
    if w.len() == 0 {
        s
    } else {
        run(next, next[s][w[0] as int] as int, w.drop_first())
    }
}

/// Every expression of `q` is free of complements.
pub open spec fn vec_not_free(q: Seq<RegEx>) -> bool {
    forall|k: int| 0 <= k < q.len() ==> #[trigger] not_free(q[k])
}

/// Every expression of `q` is valid.
pub open spec fn vec_wf(q: Seq<RegEx>) -> bool {
    forall|k: int| 0 <= k < q.len() ==> #[trigger] wf(q[k])
}

/// `d` holds the derivatives of `q` by byte `a`: as valid, as free of
/// complements, and, where `q` is free of them, matching exactly the
/// strings `w` such that `a` followed by `w` is matched by `q`.
#[verifier::opaque]
pub open spec fn derives(q: Seq<RegEx>, a: u8, d: Seq<RegEx>) -> bool {
    &&& d.len() == q.len()
    &&& vec_wf(d)
    &&& (vec_not_free(q) ==> vec_not_free(d))
    &&& (vec_not_free(q) ==> forall|k: int, w: Seq<u8>| 0 <= k < q.len() ==> #[trigger] lang(d[k], w) == lang(q[k], seq![a] + w))
}

impl DFA {
    /// The transition rows of the states.
    pub closed spec fn spec_next(&self) -> Seq<Seq<usize>> {
        Seq::new(self.states@.len(), |s: int| self.states@[s].next@)
    }

    /// The classes of the states.
    pub closed spec fn spec_classes(&self) -> Seq<Option<usize>> {
        Seq::new(self.states@.len(), |s: int| self.states@[s].class)
    }

    /// The automaton is complete over bytes, and state 0 is a sink.
    pub open spec fn wf(&self) -> bool {
        let next = self.spec_next();
        &&& next.len() >= 2
        &&& self.spec_classes().len() == next.len()
        &&& forall|s: int| 0 <= s < next.len() ==> (#[trigger] next[s]).len() == 256
        &&& forall|s: int, a: int| 0 <= s < next.len() && 0 <= a < 256 ==> #[trigger] next[s][a] < next.len()
        &&& forall|a: int| 0 <= a < 256 ==> #[trigger] next[0][a] == 0
        &&& self.spec_classes()[0] is None
    }

    /// The automaton recognising the expressions of `regexes`: the class of
    /// the state a string leads to from the start is the index of the first
    /// expression that matches it (for expressions free of complements).
    pub fn from(regexes: &Vec<RegEx>) -> (r: Self)
        requires
            forall|k: int| 0 <= k < regexes@.len() ==> #[trigger] wf(regexes@[k]),
        ensures
            r.wf(),
            forall|s: int| 0 <= s < r.spec_classes().len() ==> (#[trigger] r.spec_classes()[s] matches Some(c) ==> c < regexes@.len()),
            vec_not_free(regexes@) ==> forall|w: Seq<u8>| #[trigger] r.spec_classes()[run(r.spec_next(), 1, w)] == first_match(regexes@, w),
    {
        let (r, q) = build(regexes);
        proof {
            let q = q@;
            assert forall|s: int| 0 <= s < r.spec_classes().len() implies (#[trigger] r.spec_classes()[s] matches Some(c) ==> c < regexes@.len()) by {
                lemma_first_match_bound(q[s], Seq::empty(), 0);
            }
            if vec_not_free(regexes@) {
                assert forall|w: Seq<u8>| #[trigger] r.spec_classes()[run(r.spec_next(), 1, w)] == first_match(regexes@, w) by {
                    lemma_run(r.spec_next(), q, 1, w);
                    let s = run(r.spec_next(), 1, w);
                    lemma_first_match_equiv(q[s], regexes@, w, 0);
                }
            }
        }
        r
    }

    /// The state byte `symbol` leads to from state `id`.
    pub fn step(&self, id: usize, symbol: u8) -> (r: usize)
        requires
            self.wf(),
            id < self.spec_next().len(),
        ensures
            r == self.spec_next()[id as int][symbol as int],
            r < self.spec_next().len(),
    {
        let row = &self.states[id].next;
        assert(row@ == self.spec_next()[id as int]);
        row[symbol as usize]
    }

    /// The class state `id` accepts, if any.
    pub fn class(&self, id: usize) -> (r: Option<usize>)
        requires
            id < self.spec_classes().len(),
        ensures
            r == self.spec_classes()[id as int],
    {
        self.states[id].class
    }

    /// The states; the sink is first, the start second.
    pub fn states(&self) -> (r: &[State])
        ensures
            r@.len() == self.spec_next().len(),
            forall|s: int| 0 <= s < r@.len() ==> (#[trigger] r@[s]).next@ == self.spec_next()[s] && r@[s].class == self.spec_classes()[s],
    {
        self.states.as_slice()
    }

    /// Whether the text leads from the start to a state that accepts some class.
    pub fn matches(&self, text: &str) -> (r: bool)
        requires
            self.wf(),
        ensures
            r == self.spec_classes()[run(self.spec_next(), 1, text.spec_bytes())] is Some,
    {
        let bytes = text.as_bytes();
        let mut id = 1usize;
        let mut i = 0usize;
        assert(bytes@.skip(0) =~= bytes@);
        while i < bytes.len()
            invariant
                self.wf(),
                bytes@ == text.spec_bytes(),
                i <= bytes@.len(),
                id < self.spec_next().len(),
                run(self.spec_next(), id as int, bytes@.skip(i as int)) == run(self.spec_next(), 1, bytes@),
            decreases bytes@.len() - i,
        {
            proof {
                assert(bytes@.skip(i as int)[0] == bytes@[i as int]);
                assert(bytes@.skip(i as int).drop_first() =~= bytes@.skip(i + 1));
            }
            id = self.step(id, bytes[i]);
            i += 1;
        }
        proof {
            assert(bytes@.skip(i as int).len() == 0);
        }
        self.class(id).is_some()
    }
}

/// Following transitions on `w` from `s` reaches a state whose expressions
/// match the empty string exactly where `s`'s match `w`.
proof fn lemma_run(next: Seq<Seq<usize>>, q: Seq<Seq<RegEx>>, s: int, w: Seq<u8>)
    requires
        q.len() == next.len(),
        forall|t: int| 0 <= t < next.len() ==> (#[trigger] next[t]).len() == 256,
        forall|t: int, a: int| 0 <= t < next.len() && 0 <= a < 256 ==> #[trigger] next[t][a] < next.len(),
        forall|t: int, a: int| 0 <= t < next.len() && 0 <= a < 256 ==> derives(q[t], a as u8, #[trigger] q[next[t][a] as int]),
        0 <= s < next.len(),
        vec_not_free(q[s]),
    ensures
        0 <= run(next, s, w) < next.len(),
        vec_not_free(q[run(next, s, w)]),
        q[run(next, s, w)].len() == q[s].len(),
        forall|k: int| 0 <= k < q[s].len() ==> lang(q[run(next, s, w)][k], Seq::empty()) == #[trigger] lang(q[s][k], w),
    decreases w.len(),
{
    if w.len() > 0 {
        let a = w[0];
        let w1 = w.drop_first();
        let t = next[s][a as int] as int;
        assert(derives(q[s], a, q[t]));
        assert(vec_not_free(q[t]) && q[t].len() == q[s].len()) by {
            reveal(derives);
        }
        lemma_run(next, q, t, w1);
        let e = run(next, s, w);
        assert(e == run(next, t, w1));
        assert forall|k: int| 0 <= k < q[s].len() implies lang(q[e][k], Seq::empty()) == #[trigger] lang(q[s][k], w) by {
            assert(lang(q[e][k], Seq::empty()) == lang(q[t][k], w1));
            assert(lang(q[t][k], w1) == lang(q[s][k], seq![a] + w1)) by {
                reveal(derives);
            }
            assert(seq![a] + w1 =~= w);
        }
    } else {
        assert(w =~= Seq::<u8>::empty());
    }
}

/// Two vectors whose expressions match the empty string where the other's
/// match `w` have the same first match.
proof fn lemma_first_match_equiv(q: Seq<RegEx>, r: Seq<RegEx>, w: Seq<u8>, k: int)
    requires
        q.len() == r.len(),
        0 <= k,
        forall|j: int| 0 <= j < r.len() ==> lang(q[j], Seq::empty()) == #[trigger] lang(r[j], w),
    ensures
        first_match_from(q, Seq::empty(), k) == first_match_from(r, w, k),
    decreases q.len() - k,
{
    if k < q.len() {
        assert(lang(q[k], Seq::empty()) == lang(r[k], w));
        lemma_first_match_equiv(q, r, w, k + 1);
    }
}

/// The class of a vector of expressions: the first that matches the empty string.
fn vec_class(q: &Vec<RegEx>) -> (r: Option<usize>)
    ensures
        r == first_match(q@, Seq::empty()),
{
    let mut k = q.len();
    let mut r: Option<usize> = None;
    while k > 0
        invariant
            k <= q@.len(),
            r == first_match_from(q@, Seq::empty(), k as int),
        decreases k,
    {
        k -= 1;
        if q[k].is_nullable() {
            r = Some(k);
        }
    }
    r
}

/// The derivatives of the expressions of `q` by byte `a`.
fn vec_deriv(q: &Vec<RegEx>, a: u8) -> (r: Vec<RegEx>)
    requires
        vec_wf(q@),
    ensures
        derives(q@, a, r@),
        r@.len() == q@.len(),
        forall|k: int| 0 <= k < q@.len() ==> #[trigger] deriv_post(q@[k], a, r@[k]),
{
    let mut r: Vec<RegEx> = Vec::new();
    let mut k = 0usize;
    while k < q.len()
        invariant
            vec_wf(q@),
            k <= q@.len(),
            r@.len() == k,
            forall|j: int| 0 <= j < k ==> #[trigger] wf(r@[j]),
            forall|j: int| 0 <= j < k ==> not_free(q@[j]) ==> #[trigger] not_free(r@[j]),
            forall|j: int, w: Seq<u8>| 0 <= j < k && not_free(q@[j]) ==> #[trigger] lang(r@[j], w) == lang(q@[j], seq![a] + w),
            forall|j: int| 0 <= j < k ==> #[trigger] deriv_post(q@[j], a, r@[j]),
        decreases q@.len() - k,
    {
        let d = q[k].deriv(a);
        r.push(d);
        k += 1;
    }
    proof {
        reveal(derives);
    }
    r
}

/// A grouping of the bytes such that bytes of one group lead every
/// expression of `q` alike.
fn vec_classes(q: &Vec<RegEx>) -> (c: Vec<u8>)
    requires
        vec_wf(q@),
    ensures
        grouping(c@),
        forall|x: int, y: int, k: int| 0 <= x < 256 && 0 <= y < 256 && 0 <= k < q@.len() && #[trigger] c@[x] == #[trigger] c@[y] ==> #[trigger] alike(q@[k], x as u8, y as u8),
{
    let mut c = one_group();
    let mut k = 0usize;
    while k < q.len()
        invariant
            vec_wf(q@),
            k <= q@.len(),
            grouping(c@),
            forall|x: int, y: int, j: int| 0 <= x < 256 && 0 <= y < 256 && 0 <= j < k && #[trigger] c@[x] == #[trigger] c@[y] ==> #[trigger] alike(q@[j], x as u8, y as u8),
        decreases q@.len() - k,
    {
        assert(wf(q@[k as int]));
        let ck = q[k].deriv_classes();
        let c2 = cross(&c, &ck);
        proof {
            assert forall|x: int, y: int, j: int| 0 <= x < 256 && 0 <= y < 256 && 0 <= j < k + 1 && #[trigger] c2@[x] == #[trigger] c2@[y] implies #[trigger] alike(q@[j], x as u8, y as u8) by {
                assert(c@[x] == c@[y] && ck@[x] == ck@[y]);
                assert(x == x as u8 && y == y as u8);
            }
        }
        c = c2;
        k += 1;
    }
    c
}

/// Derivatives by one byte are derivatives by any byte that leads every
/// expression alike.
proof fn lemma_derives_alike(q: Seq<RegEx>, a: u8, b: u8, d: Seq<RegEx>)
    requires
        derives(q, a, d),
        forall|k: int| 0 <= k < q.len() ==> #[trigger] alike(q[k], a, b),
    ensures
        derives(q, b, d),
{
    reveal(derives);
    if vec_not_free(q) {
        assert forall|k: int, w: Seq<u8>| 0 <= k < q.len() implies #[trigger] lang(d[k], w) == lang(q[k], seq![b] + w) by {
            assert(alike(q[k], a, b));
            assert(lang(q[k], seq![a] + w) == lang(q[k], seq![b] + w));
        }
    }
}

/// Element-wise structural equality of two vectors of expressions.
fn vec_equals(a: &Vec<RegEx>, b: &Vec<RegEx>) -> (r: bool)
    requires
        vec_wf(a@),
        vec_wf(b@),
    ensures
        r == (a@.len() == b@.len() && forall|k: int| 0 <= k < a@.len() ==> #[trigger] same(a@[k], b@[k])),
        r ==> a@.len() == b@.len() && forall|k: int| 0 <= k < a@.len() ==> #[trigger] equivalent(a@[k], b@[k]) && (not_free(a@[k]) == not_free(b@[k])) && (wf(a@[k]) == wf(b@[k])),
{
    if a.len() != b.len() {
        return false;
    }
    let mut k = 0usize;
    while k < a.len()
        invariant
            a@.len() == b@.len(),
            vec_wf(a@),
            vec_wf(b@),
            k <= a@.len(),
            forall|j: int| 0 <= j < k ==> #[trigger] equivalent(a@[j], b@[j]) && (not_free(a@[j]) == not_free(b@[j])) && (wf(a@[j]) == wf(b@[j])),
            forall|j: int| 0 <= j < k ==> #[trigger] same(a@[j], b@[j]),
        decreases a@.len() - k,
    {
        if !a[k].equals(&b[k]) {
            return false;
        }
        proof {
            crate::regex::lemma_same(a@[k as int], b@[k as int]);
        }
        k += 1;
    }
    true
}

fn copy_vec(v: &Vec<RegEx>) -> (r: Vec<RegEx>)
    requires
        vec_wf(v@),
    ensures
        r@.len() == v@.len(),
        vec_wf(r@),
        forall|k: int| 0 <= k < v@.len() ==> #[trigger] equivalent(r@[k], v@[k]) && (not_free(r@[k]) == not_free(v@[k])),
{
    let mut r: Vec<RegEx> = Vec::new();
    let mut k = 0usize;
    while k < v.len()
        invariant
            vec_wf(v@),
            k <= v@.len(),
            r@.len() == k,
            forall|j: int| 0 <= j < k ==> #[trigger] wf(r@[j]),
            forall|j: int| 0 <= j < k ==> #[trigger] equivalent(r@[j], v@[j]) && (not_free(r@[j]) == not_free(v@[j])),
        decreases v@.len() - k,
    {
        let d = v[k].duplicate();
        proof {
            crate::regex::lemma_same(d, v@[k as int]);
        }
        r.push(d);
        k += 1;
    }
    r
}

/// `e` stands for `q`: the same number of expressions, each valid and
/// equivalent to its counterpart, and equally free of complements.
pub open spec fn stands_for(e: Seq<RegEx>, q: Seq<RegEx>) -> bool {
    &&& e.len() == q.len()
    &&& vec_wf(e)
    &&& forall|k: int| 0 <= k < e.len() ==> #[trigger] equivalent(e[k], q[k]) && (not_free(e[k]) == not_free(q[k]))
}

/// The index of the state that stands for `d`, added where there is none.
fn find_or_add_state(vecs: &mut Vec<Vec<RegEx>>, classes: &mut Vec<Option<usize>>, d: Vec<RegEx>) -> (j: usize)
    requires
        vec_wf(d@),
        old(vecs)@.len() == old(classes)@.len(),
        forall|s: int| 0 <= s < old(vecs)@.len() ==> vec_wf(#[trigger] old(vecs)@[s]@),
    ensures
        j < final(vecs)@.len(),
        final(vecs)@.len() == final(classes)@.len(),
        stands_for(final(vecs)@[j as int]@, d@),
        final(vecs)@.len() == old(vecs)@.len() || (final(vecs)@.len() == old(vecs)@.len() + 1 && j == old(vecs)@.len()
            && final(classes)@[j as int] == first_match(d@, Seq::empty())),
        forall|s: int| 0 <= s < old(vecs)@.len() ==> #[trigger] final(vecs)@[s] == old(vecs)@[s],
        forall|s: int| 0 <= s < old(vecs)@.len() ==> #[trigger] final(classes)@[s] == old(classes)@[s],
        forall|s: int| 0 <= s < final(vecs)@.len() ==> vec_wf(#[trigger] final(vecs)@[s]@),
{
    let mut s = 0usize;
    while s < vecs.len()
        invariant
            vecs@ == old(vecs)@,
            classes@ == old(classes)@,
            vecs@.len() == classes@.len(),
            vec_wf(d@),
            forall|u: int| 0 <= u < vecs@.len() ==> vec_wf(#[trigger] vecs@[u]@),
            s <= vecs@.len(),
        decreases vecs@.len() - s,
    {
        if vec_equals(&vecs[s], &d) {
            proof {
                assert forall|k: int| 0 <= k < vecs@[s as int]@.len() implies #[trigger] equivalent(vecs@[s as int]@[k], d@[k]) && (not_free(vecs@[s as int]@[k]) == not_free(d@[k])) by {
                    assert(equivalent(vecs@[s as int]@[k], d@[k]));
                }
            }
            return s;
        }
        s += 1;
    }
    let c = vec_class(&d);
    let j = vecs.len();
    proof {
        assert forall|k: int| 0 <= k < d@.len() implies #[trigger] equivalent(d@[k], d@[k]) && (not_free(d@[k]) == not_free(d@[k])) by {}
    }
    vecs.push(d);
    classes.push(c);
    j
}

/// The automaton of the expressions `regexes`, its states found by
/// exploring derivatives breadth first, bytes in increasing order.
fn build(regexes: &Vec<RegEx>) -> (r: (DFA, Ghost<Seq<Seq<RegEx>>>))
    requires
        forall|k: int| 0 <= k < regexes@.len() ==> #[trigger] wf(regexes@[k]),
    ensures
        r.0.wf(),
        derived(r.0.spec_next(), r.0.spec_classes(), r.1@),
        r.1@[1] == regexes@,
{
    let n = regexes.len();
    let mut sink: Vec<RegEx> = Vec::new();
    let mut k = 0usize;
    while k < n
        invariant
            k <= n,
            sink@.len() == k,
            forall|j: int| 0 <= j < k ==> #[trigger] wf(sink@[j]),
            forall|j: int| 0 <= j < k ==> #[trigger] not_free(sink@[j]),
            forall|j: int, w: Seq<u8>| 0 <= j < k ==> !#[trigger] lang(sink@[j], w),
        decreases n - k,
    {
        sink.push(RegEx::none());
        k += 1;
    }
    let ghost q0 = sink@;
    let start = copy_vec(regexes);
    let mut vecs: Vec<Vec<RegEx>> = Vec::new();
    let mut classes: Vec<Option<usize>> = Vec::new();
    let c0 = vec_class(&sink);
    proof {
        lemma_no_match(sink@, Seq::empty(), 0);
    }
    let c1 = vec_class(regexes);
    vecs.push(sink);
    classes.push(c0);
    vecs.push(start);
    classes.push(c1);
    let mut rows: Vec<Vec<usize>> = Vec::new();
    let mut row0: Vec<usize> = Vec::new();
    let mut a = 0usize;
    while a < 256
        invariant
            a <= 256,
            row0@.len() == a,
            forall|b: int| 0 <= b < a ==> #[trigger] row0@[b] == 0,
        decreases 256 - a,
    {
        row0.push(0);
        a += 1;
    }
    rows.push(row0);
    let ghost mut q: Seq<Seq<RegEx>> = seq![q0, regexes@];
    proof {
        assert forall|w: Seq<u8>, j: int| 0 <= j < n implies !#[trigger] lang(q0[j], w) by {}
        assert(stands_for(vecs@[0]@, q[0])) by {
            assert forall|j: int| 0 <= j < n implies #[trigger] equivalent(vecs@[0]@[j], q[0][j]) && (not_free(vecs@[0]@[j]) == not_free(q[0][j])) by {}
        }
        assert(stands_for(vecs@[1]@, q[1]));
        assert forall|b: int| 0 <= b < 256 implies derives(q[0], b as u8, #[trigger] q[rows@[0]@[b] as int]) by {
            reveal(derives);
            assert(rows@[0]@[b] == 0);
            assert forall|j: int, w: Seq<u8>| 0 <= j < q[0].len() implies #[trigger] lang(q[0][j], w) == lang(q[0][j], seq![b as u8] + w) by {
                assert(!lang(q0[j], w));
                assert(!lang(q0[j], seq![b as u8] + w));
            }
        }
    }
    let mut i = 1usize;
    while i < vecs.len()
        invariant
            vecs@.len() >= 2,
            classes@.len() == vecs@.len(),
            q.len() == vecs@.len(),
            1 <= i <= vecs@.len(),
            rows@.len() == i,
            q[1] == regexes@,
            classes@[0] is None,
            forall|s: int| 0 <= s < vecs@.len() ==> stands_for(#[trigger] vecs@[s]@, q[s]),
            forall|s: int| 0 <= s < vecs@.len() ==> vec_wf(#[trigger] vecs@[s]@),
            forall|s: int| 0 <= s < q.len() ==> vec_wf(#[trigger] q[s]) && q[s].len() == n,
            forall|s: int| 0 <= s < vecs@.len() ==> #[trigger] classes@[s] == first_match(q[s], Seq::empty()),
            forall|s: int| 0 <= s < i ==> (#[trigger] rows@[s])@.len() == 256,
            forall|s: int, b: int| 0 <= s < i && 0 <= b < 256 ==> #[trigger] rows@[s]@[b] < vecs@.len(),
            forall|b: int| 0 <= b < 256 ==> #[trigger] rows@[0]@[b] == 0,
            forall|s: int, b: int| 0 <= s < i && 0 <= b < 256 ==> derives(q[s], b as u8, #[trigger] q[rows@[s]@[b] as int]),
            n == regexes@.len(),
        decreases usize::MAX - i,
    {
        let mut row: Vec<usize> = Vec::new();
        let cls = vec_classes(&vecs[i]);
        proof {
            let qi = q[i as int];
            let ei = vecs@[i as int]@;
            assert(stands_for(ei, qi));
            assert forall|x: int, y: int, k: int| 0 <= x < 256 && 0 <= y < 256 && 0 <= k < qi.len() && #[trigger] cls@[x] == #[trigger] cls@[y] implies #[trigger] alike(qi[k], x as u8, y as u8) by {
                assert(alike(ei[k], x as u8, y as u8));
                assert(equivalent(ei[k], qi[k]));
                assert forall|w: Seq<u8>| #[trigger] lang(qi[k], seq![x as u8] + w) == lang(qi[k], seq![y as u8] + w) by {
                    assert(lang(ei[k], seq![x as u8] + w) == lang(ei[k], seq![y as u8] + w));
                    assert(lang(ei[k], seq![x as u8] + w) == lang(qi[k], seq![x as u8] + w));
                    assert(lang(ei[k], seq![y as u8] + w) == lang(qi[k], seq![y as u8] + w));
                }
            }
        }
        let mut b = 0usize;
        while b < 256
            invariant
                grouping(cls@),
                forall|x: int, y: int, k: int| 0 <= x < 256 && 0 <= y < 256 && 0 <= k < q[i as int].len() && #[trigger] cls@[x] == #[trigger] cls@[y] ==> #[trigger] alike(q[i as int][k], x as u8, y as u8),
                vecs@.len() >= 2,
                classes@.len() == vecs@.len(),
                q.len() == vecs@.len(),
                1 <= i < vecs@.len(),
                rows@.len() == i,
                q[1] == regexes@,
                classes@[0] is None,
                forall|s: int| 0 <= s < vecs@.len() ==> stands_for(#[trigger] vecs@[s]@, q[s]),
                forall|s: int| 0 <= s < vecs@.len() ==> vec_wf(#[trigger] vecs@[s]@),
                forall|s: int| 0 <= s < q.len() ==> vec_wf(#[trigger] q[s]) && q[s].len() == n,
                forall|s: int| 0 <= s < vecs@.len() ==> #[trigger] classes@[s] == first_match(q[s], Seq::empty()),
                forall|s: int| 0 <= s < i ==> (#[trigger] rows@[s])@.len() == 256,
                forall|s: int, c: int| 0 <= s < i && 0 <= c < 256 ==> #[trigger] rows@[s]@[c] < vecs@.len(),
                forall|c: int| 0 <= c < 256 ==> #[trigger] rows@[0]@[c] == 0,
                forall|s: int, c: int| 0 <= s < i && 0 <= c < 256 ==> derives(q[s], c as u8, #[trigger] q[rows@[s]@[c] as int]),
                n == regexes@.len(),
                b <= 256,
                row@.len() == b,
                forall|c: int| 0 <= c < b ==> #[trigger] row@[c] < vecs@.len(),
                forall|c: int| 0 <= c < b ==> derives(q[i as int], c as u8, #[trigger] q[row@[c] as int]),
            decreases 256 - b,
        {
            let rep = cls[b] as usize;
            if rep < b {
                let j = row[rep];
                proof {
                    assert(derives(q[i as int], rep as u8, q[j as int]));
                    assert forall|k: int| 0 <= k < q[i as int].len() implies #[trigger] alike(q[i as int][k], rep as u8, b as u8) by {
                        assert(cls@[rep as int] == cls@[b as int]);
                    }
                    lemma_derives_alike(q[i as int], rep as u8, b as u8, q[j as int]);
                }
                row.push(j);
                proof {
                    assert forall|c: int| 0 <= c < b + 1 implies derives(q[i as int], c as u8, #[trigger] q[row@[c] as int]) by {}
                }
                b += 1;
                continue;
            }
            let ghost qi = q[i as int];
            let ghost ei = vecs@[i as int]@;
            let d = vec_deriv(&vecs[i], b as u8);
            let ghost dv = d@;
            proof {
                reveal(derives);
            }
            let ghost len0 = vecs@.len();
            let ghost vecs0 = vecs@;
            let ghost classes0 = classes@;
            let j = find_or_add_state(&mut vecs, &mut classes, d);
            proof {
                if vecs@.len() > len0 {
                    q = q.push(dv);
                }
                assert(q[i as int] == qi);
                assert forall|s: int| 0 <= s < vecs@.len() implies stands_for(#[trigger] vecs@[s]@, q[s]) by {
                    if s < len0 {
                        assert(vecs@[s] == vecs0[s]);
                    } else {
                        assert(stands_for(vecs@[s]@, dv));
                    }
                }
                assert forall|s: int| 0 <= s < vecs@.len() implies #[trigger] classes@[s] == first_match(q[s], Seq::empty()) by {
                    if s < len0 {
                        assert(classes@[s] == classes0[s]);
                    }
                }
                assert forall|s: int| 0 <= s < q.len() implies vec_wf(#[trigger] q[s]) && q[s].len() == n by {}
                let qj = q[j as int];
                let ej = vecs@[j as int]@;
                assert(derives(ei, b as u8, dv));
                assert(derives(qi, b as u8, qj)) by {
                    reveal(derives);
                    assert(stands_for(ej, qj));
                    assert(stands_for(ej, dv));
                    assert(stands_for(ei, qi));
                    if vec_not_free(qi) {
                        assert(vec_not_free(ei)) by {
                            assert forall|k: int| 0 <= k < ei.len() implies #[trigger] not_free(ei[k]) by {
                                assert(not_free(qi[k]));
                                assert(equivalent(ei[k], qi[k]));
                            }
                        }
                        assert forall|k: int| 0 <= k < qj.len() implies #[trigger] not_free(qj[k]) by {
                            assert(not_free(dv[k]));
                            assert(equivalent(ej[k], dv[k]));
                            assert(equivalent(ej[k], qj[k]));
                            assert(not_free(ej[k]) == not_free(dv[k]));
                        }
                        assert forall|k: int, w: Seq<u8>| 0 <= k < qi.len() implies #[trigger] lang(qj[k], w) == lang(qi[k], seq![b as u8] + w) by {
                            assert(equivalent(ej[k], qj[k]));
                            assert(equivalent(ej[k], dv[k]));
                            assert(equivalent(ei[k], qi[k]));
                            assert(lang(ej[k], w) == lang(qj[k], w));
                            assert(lang(ej[k], w) == lang(dv[k], w));
                            assert(lang(dv[k], w) == lang(ei[k], seq![b as u8] + w));
                            assert(lang(ei[k], seq![b as u8] + w) == lang(qi[k], seq![b as u8] + w));
                        }
                    }
                }
            }
            row.push(j);
            proof {
                assert forall|c: int| 0 <= c < b + 1 implies derives(q[i as int], c as u8, #[trigger] q[row@[c] as int]) by {}
            }
            b += 1;
        }
        rows.push(row);
        proof {
            assert forall|s: int, c: int| 0 <= s < i + 1 && 0 <= c < 256 implies derives(q[s], c as u8, #[trigger] q[rows@[s]@[c] as int]) by {}
        }
        i += 1;
    }
    let mut states: Vec<State> = Vec::new();
    let m = vecs.len();
    let ghost rows_v = Seq::new(rows@.len(), |s: int| rows@[s]@);
    let ghost classes_v = classes@;
    let mut s = 0usize;
    while s < m
        invariant
            m == rows@.len(),
            m == classes@.len(),
            classes@ == classes_v,
            rows_v.len() == m,
            s <= m,
            states@.len() == s,
            forall|u: int| s <= u < m ==> (#[trigger] rows@[u])@ == rows_v[u],
            forall|u: int| 0 <= u < s ==> (#[trigger] states@[u]).next@ == rows_v[u] && states@[u].class == classes_v[u],
        decreases m - s,
    {
        let mut nx: Vec<usize> = Vec::new();
        std::mem::swap(&mut nx, &mut rows[s]);
        states.push(State { class: classes[s], next: nx });
        s += 1;
    }
    let r = DFA { states };
    proof {
        assert(r.spec_next() =~= rows_v);
        assert(r.spec_classes() =~= classes_v);
    }
    (r, Ghost(q))
}

/// `q` gives each state the expressions it stands for: its class is the
/// first of them that matches the empty string, and each transition leads
/// to their derivatives by its byte.
pub open spec fn derived(next: Seq<Seq<usize>>, classes: Seq<Option<usize>>, q: Seq<Seq<RegEx>>) -> bool {
    &&& q.len() == next.len()
    &&& classes.len() == next.len()
    &&& forall|s: int| 0 <= s < next.len() ==> vec_wf(#[trigger] q[s]) && q[s].len() == q[1].len()
    &&& forall|s: int| 0 <= s < next.len() ==> #[trigger] classes[s] == first_match(q[s], Seq::empty())
    &&& forall|s: int, a: int| 0 <= s < next.len() && 0 <= a < 256 ==> derives(q[s], a as u8, #[trigger] q[next[s][a] as int])
}

proof fn lemma_no_match(q: Seq<RegEx>, w: Seq<u8>, k: int)
    requires
        forall|j: int| 0 <= j < q.len() ==> !#[trigger] lang(q[j], w),
    ensures
        first_match_from(q, w, k) is None,
    decreases q.len() - k,
{
    if 0 <= k < q.len() {
        lemma_no_match(q, w, k + 1);
    }
}

proof fn lemma_first_match_bound(q: Seq<RegEx>, w: Seq<u8>, k: int)
    requires
        0 <= k,
    ensures
        first_match_from(q, w, k) matches Some(c) ==> c < q.len(),
    decreases q.len() - k,
{
    if k < q.len() {
        lemma_first_match_bound(q, w, k + 1);
    }
}

/// Some string leads from `p` and from `q` to states of different classes.
pub open spec fn distinguishable(next: Seq<Seq<usize>>, classes: Seq<Option<usize>>, p: int, q: int) -> bool {
    exists|w: Seq<u8>| classes[#[trigger] run(next, p, w)] != classes[run(next, q, w)]
}

/// `p` and `q` are in the same block of `block`, and each byte leads them
/// to states in the same block.
pub open spec fn same_sig(next: Seq<Seq<usize>>, block: Seq<usize>, p: int, q: int) -> bool {
    &&& block[p] == block[q]
    &&& forall|a: int| #![trigger next[p][a]] 0 <= a < 256 ==> block[next[p][a] as int] == block[next[q][a] as int]
}

/// `block` numbers the blocks of a partition of the states, `reps[j]` is a
/// state of block `j`; states of one block have one class, states of
/// different blocks are distinguishable; the sink is in block 0, the start
/// in block 0 or 1.
pub open spec fn partition_ok(next: Seq<Seq<usize>>, classes: Seq<Option<usize>>, block: Seq<usize>, reps: Seq<usize>) -> bool {
    let n = next.len();
    &&& n >= 2
    &&& block.len() == n
    &&& forall|s: int| 0 <= s < n ==> #[trigger] block[s] < reps.len()
    &&& forall|j: int| 0 <= j < reps.len() ==> #[trigger] reps[j] < n && block[reps[j] as int] == j
    &&& forall|p: int, q: int| 0 <= p < n && 0 <= q < n && #[trigger] block[p] == #[trigger] block[q] ==> classes[p] == classes[q]
    &&& forall|p: int, q: int| 0 <= p < n && 0 <= q < n && block[p] != block[q] ==> #[trigger] distinguishable(next, classes, p, q)
    &&& block[0] == 0
    &&& block[1] <= 1
}

/// States in one block lead, on each byte, to states in one block.
pub open spec fn stable(next: Seq<Seq<usize>>, block: Seq<usize>) -> bool {
    forall|p: int, q: int| 0 <= p < next.len() && 0 <= q < next.len() && block[p] == block[q] ==> #[trigger] same_sig(next, block, p, q)
}

/// A string that tells apart the successors of `p` and `q` on `a`, after `a`, tells them apart.
proof fn lemma_dist_step(next: Seq<Seq<usize>>, classes: Seq<Option<usize>>, p: int, q: int, a: u8)
    requires
        distinguishable(next, classes, next[p][a as int] as int, next[q][a as int] as int),
    ensures
        distinguishable(next, classes, p, q),
{
    let w = choose|w: Seq<u8>| classes[#[trigger] run(next, next[p][a as int] as int, w)] != classes[run(next, next[q][a as int] as int, w)];
    let aw = seq![a] + w;
    assert(aw[0] == a);
    assert(aw.drop_first() =~= w);
    assert(run(next, p, aw) == run(next, next[p][a as int] as int, w));
    assert(run(next, q, aw) == run(next, next[q][a as int] as int, w));
    assert(classes[run(next, p, aw)] != classes[run(next, q, aw)]);
}

/// `y` is the image of some number below `a`.
pub open spec fn in_image(f: spec_fn(int) -> int, a: int, y: int) -> bool {
    exists|i: int| 0 <= i < a && #[trigger] f(i) == y
}

/// An injective map from `0..a` into `0..b`: `a <= b`, and where `a == b`
/// every number below `b` is an image.
proof fn lemma_pigeonhole(f: spec_fn(int) -> int, a: int, b: int)
    requires
        0 <= a,
        0 <= b,
        forall|i: int| 0 <= i < a ==> 0 <= #[trigger] f(i) < b,
        forall|i: int, j: int| 0 <= i < a && 0 <= j < a && #[trigger] f(i) == #[trigger] f(j) ==> i == j,
    ensures
        a <= b,
        a == b ==> forall|y: int| 0 <= y < b ==> #[trigger] in_image(f, a, y),
{
    let x = vstd::set_lib::set_int_range(0, a);
    let z = vstd::set_lib::set_int_range(0, b);
    vstd::set_lib::lemma_int_range(0, a);
    vstd::set_lib::lemma_int_range(0, b);
    let y = x.map(f);
    assert(vstd::relations::injective_on(f, x));
    vstd::set_lib::lemma_map_size(x, y, f);
    assert(y.subset_of(z)) by {
        assert forall|v: int| #[trigger] y.contains(v) implies z.contains(v) by {
            let i = choose|i: int| x.contains(i) && f(i) == v;
        }
    }
    vstd::set_lib::lemma_len_subset(y, z);
    if a == b {
        vstd::set_lib::lemma_subset_equality(y, z);
        assert forall|v: int| 0 <= v < b implies #[trigger] in_image(f, a, v) by {
            assert(z.contains(v));
            assert(y.contains(v));
        }
    }
}

/// Whether `p` and `q` have the same signature under `block`.
fn same_sig_exec(d: &DFA, block: &Vec<usize>, p: usize, q: usize) -> (r: bool)
    requires
        d.wf(),
        p < d.spec_next().len(),
        q < d.spec_next().len(),
        block@.len() == d.spec_next().len(),
    ensures
        r == same_sig(d.spec_next(), block@, p as int, q as int),
{
    let ghost next = d.spec_next();
    if block[p] != block[q] {
        return false;
    }
    let mut a = 0usize;
    while a < 256
        invariant
            d.wf(),
            next == d.spec_next(),
            p < next.len(),
            q < next.len(),
            block@.len() == next.len(),
            a <= 256,
            forall|b: int| #![trigger next[p as int][b]] 0 <= b < a ==> block@[next[p as int][b] as int] == block@[next[q as int][b] as int],
        decreases 256 - a,
    {
        let sp = d.step(p, a as u8);
        let sq = d.step(q, a as u8);
        if block[sp] != block[sq] {
            assert(block@[next[p as int][a as int] as int] != block@[next[q as int][a as int] as int]);
            return false;
        }
        a += 1;
    }
    true
}

/// Whether two classes are equal.
fn same_class(x: Option<usize>, y: Option<usize>) -> (r: bool)
    ensures
        r == (x == y),
{
    match (x, y) {
        (Some(a), Some(b)) => a == b,
        (None, None) => true,
        _ => false,
    }
}

/// The partition of the states by class, blocks numbered in order of first
/// appearance.
fn class_partition(d: &DFA) -> (r: (Vec<usize>, Vec<usize>))
    requires
        d.wf(),
    ensures
        partition_ok(d.spec_next(), d.spec_classes(), r.0@, r.1@),
        r.1@.len() <= d.spec_next().len(),
{
    let ghost next = d.spec_next();
    let ghost classes = d.spec_classes();
    let n = d.states.len();
    let mut block: Vec<usize> = Vec::new();
    let mut reps: Vec<usize> = Vec::new();
    let mut s = 0usize;
    while s < n
        invariant
            d.wf(),
            next == d.spec_next(),
            classes == d.spec_classes(),
            n == next.len(),
            s <= n,
            block@.len() == s,
            reps@.len() <= s,
            forall|t: int| 0 <= t < s ==> #[trigger] block@[t] < reps@.len(),
            forall|j: int| 0 <= j < reps@.len() ==> #[trigger] reps@[j] < s && block@[reps@[j] as int] == j,
            forall|p: int, q: int| 0 <= p < s && 0 <= q < s ==> (#[trigger] block@[p] == #[trigger] block@[q] <==> classes[p] == classes[q]),
            s >= 1 ==> block@[0] == 0,
            s >= 2 ==> block@[1] <= 1,
        decreases n - s,
    {
        let cs = d.class(s);
        let mut r = 0usize;
        let mut found = false;
        while r < s
            invariant
                d.wf(),
                classes == d.spec_classes(),
                n == classes.len(),
                s < n,
                r <= s,
                cs == classes[s as int],
                !found ==> forall|t: int| 0 <= t < r ==> classes[t] != classes[s as int],
                found ==> r < s && classes[r as int] == classes[s as int],
            ensures
                !found ==> r == s && forall|t: int| 0 <= t < s ==> classes[t] != classes[s as int],
                found ==> r < s && classes[r as int] == classes[s as int],
            decreases s - r,
        {
            if same_class(d.class(r), cs) {
                found = true;
                break;
            }
            r += 1;
        }
        let ghost b0 = block@;
        if found {
            let b = block[r];
            block.push(b);
            proof {
                assert forall|p: int, q: int| 0 <= p < s + 1 && 0 <= q < s + 1 implies (#[trigger] block@[p] == #[trigger] block@[q] <==> classes[p] == classes[q]) by {
                    if p == s && q < s {
                        assert(block@[q] == b0[q]);
                        assert(b0[r as int] == b0[q] <==> classes[r as int] == classes[q]);
                    } else if q == s && p < s {
                        assert(block@[p] == b0[p]);
                        assert(b0[r as int] == b0[p] <==> classes[r as int] == classes[p]);
                    } else if p < s && q < s {
                        assert(block@[p] == b0[p] && block@[q] == b0[q]);
                    }
                }
            }
        } else {
            let k = reps.len();
            block.push(k);
            reps.push(s);
            proof {
                assert(r == s);
                assert forall|p: int, q: int| 0 <= p < s + 1 && 0 <= q < s + 1 implies (#[trigger] block@[p] == #[trigger] block@[q] <==> classes[p] == classes[q]) by {
                    if p == s && q < s {
                        assert(block@[q] == b0[q]);
                        assert(b0[q] < k);
                        assert(classes[q] != classes[s as int]);
                    } else if q == s && p < s {
                        assert(block@[p] == b0[p]);
                        assert(b0[p] < k);
                        assert(classes[p] != classes[s as int]);
                    } else if p < s && q < s {
                        assert(block@[p] == b0[p] && block@[q] == b0[q]);
                    }
                }
            }
        }
        s += 1;
    }
    proof {
        assert forall|p: int, q: int| 0 <= p < n && 0 <= q < n && block@[p] != block@[q] implies #[trigger] distinguishable(next, classes, p, q) by {
            assert(!(block@[p] == block@[q]));
            let e = Seq::<u8>::empty();
            assert(run(next, p, e) == p);
            assert(run(next, q, e) == q);
            assert(classes[run(next, p, e)] != classes[run(next, q, e)]);
        }
    }
    (block, reps)
}

proof fn lemma_sig_equiv(next: Seq<Seq<usize>>, block: Seq<usize>, p: int, q: int, r: int)
    ensures
        same_sig(next, block, p, q) ==> same_sig(next, block, q, p),
        same_sig(next, block, p, q) && same_sig(next, block, q, r) ==> same_sig(next, block, p, r),
{
    if same_sig(next, block, p, q) {
        assert forall|a: int| #![trigger next[q][a]] 0 <= a < 256 implies block[next[q][a] as int] == block[next[p][a] as int] by {
            assert(block[next[p][a] as int] == block[next[q][a] as int]);
        }
        if same_sig(next, block, q, r) {
            assert forall|a: int| #![trigger next[p][a]] 0 <= a < 256 implies block[next[p][a] as int] == block[next[r][a] as int] by {
                assert(block[next[p][a] as int] == block[next[q][a] as int]);
                assert(block[next[q][a] as int] == block[next[r][a] as int]);
            }
        }
    }
}

/// One round of refinement: the states split by their signatures under
/// `block`, new blocks numbered in order of first appearance.
fn refine(d: &DFA, block: &Vec<usize>) -> (r: (Vec<usize>, Vec<usize>))
    requires
        d.wf(),
        block@.len() == d.spec_next().len(),
    ensures
        r.0@.len() == block@.len(),
        forall|s: int| 0 <= s < block@.len() ==> #[trigger] r.0@[s] < r.1@.len(),
        forall|j: int| 0 <= j < r.1@.len() ==> #[trigger] r.1@[j] < block@.len() && r.0@[r.1@[j] as int] == j,
        forall|p: int, q: int| 0 <= p < block@.len() && 0 <= q < block@.len() ==> (#[trigger] r.0@[p] == #[trigger] r.0@[q] <==> same_sig(d.spec_next(), block@, p, q)),
        r.0@[0] == 0,
        r.0@[1] <= 1,
{
    let ghost next = d.spec_next();
    let n = d.states.len();
    let mut nb: Vec<usize> = Vec::new();
    let mut reps: Vec<usize> = Vec::new();
    let mut s = 0usize;
    while s < n
        invariant
            d.wf(),
            next == d.spec_next(),
            n == next.len(),
            block@.len() == n,
            s <= n,
            nb@.len() == s,
            reps@.len() <= s,
            forall|t: int| 0 <= t < s ==> #[trigger] nb@[t] < reps@.len(),
            forall|j: int| 0 <= j < reps@.len() ==> #[trigger] reps@[j] < s && nb@[reps@[j] as int] == j,
            forall|p: int, q: int| 0 <= p < s && 0 <= q < s ==> (#[trigger] nb@[p] == #[trigger] nb@[q] <==> same_sig(next, block@, p, q)),
            s >= 1 ==> nb@[0] == 0,
            s >= 2 ==> nb@[1] <= 1,
        decreases n - s,
    {
        let mut r = 0usize;
        let mut found = false;
        while r < s
            invariant
                d.wf(),
                next == d.spec_next(),
                n == next.len(),
                block@.len() == n,
                s < n,
                r <= s,
                !found ==> forall|t: int| 0 <= t < r ==> !same_sig(next, block@, t, s as int),
                found ==> r < s && same_sig(next, block@, r as int, s as int),
            ensures
                !found ==> r == s && forall|t: int| 0 <= t < s ==> !same_sig(next, block@, t, s as int),
                found ==> r < s && same_sig(next, block@, r as int, s as int),
            decreases s - r,
        {
            if same_sig_exec(d, block, r, s) {
                found = true;
                break;
            }
            r += 1;
        }
        let ghost b0 = nb@;
        if found {
            let b = nb[r];
            nb.push(b);
            proof {
                if s >= 1 {
                    assert(nb@[0] == b0[0]);
                }
                if s >= 2 {
                    assert(nb@[1] == b0[1]);
                }
                assert forall|p: int, q: int| 0 <= p < s + 1 && 0 <= q < s + 1 implies (#[trigger] nb@[p] == #[trigger] nb@[q] <==> same_sig(next, block@, p, q)) by {
                    lemma_sig_equiv(next, block@, p, q, q);
                    if p == s && q < s {
                        assert(nb@[q] == b0[q]);
                        assert(b0[q] == b0[r as int] <==> same_sig(next, block@, q, r as int));
                        lemma_sig_equiv(next, block@, q, r as int, s as int);
                        lemma_sig_equiv(next, block@, r as int, s as int, s as int);
                        lemma_sig_equiv(next, block@, q, s as int, r as int);
                        lemma_sig_equiv(next, block@, s as int, q, q);
                    } else if q == s && p < s {
                        assert(nb@[p] == b0[p]);
                        assert(b0[p] == b0[r as int] <==> same_sig(next, block@, p, r as int));
                        lemma_sig_equiv(next, block@, p, r as int, s as int);
                        lemma_sig_equiv(next, block@, r as int, s as int, s as int);
                        lemma_sig_equiv(next, block@, p, s as int, r as int);
                    } else if p < s && q < s {
                        assert(nb@[p] == b0[p] && nb@[q] == b0[q]);
                    } else {
                        assert(same_sig(next, block@, p, p));
                    }
                }
            }
        } else {
            let k = reps.len();
            nb.push(k);
            reps.push(s);
            proof {
                if s >= 1 {
                    assert(nb@[0] == b0[0]);
                }
                if s >= 2 {
                    assert(nb@[1] == b0[1]);
                }
                assert forall|p: int, q: int| 0 <= p < s + 1 && 0 <= q < s + 1 implies (#[trigger] nb@[p] == #[trigger] nb@[q] <==> same_sig(next, block@, p, q)) by {
                    if p == s && q < s {
                        assert(nb@[q] == b0[q]);
                        assert(b0[q] < k);
                        assert(!same_sig(next, block@, q, s as int));
                        lemma_sig_equiv(next, block@, p, q, q);
                    } else if q == s && p < s {
                        assert(nb@[p] == b0[p]);
                        assert(b0[p] < k);
                        assert(!same_sig(next, block@, p, s as int));
                    } else if p < s && q < s {
                        assert(nb@[p] == b0[p] && nb@[q] == b0[q]);
                    } else {
                        assert(same_sig(next, block@, p, p));
                    }
                }
            }
        }
        s += 1;
    }
    (nb, reps)
}

/// A refinement by signatures is again a partition of the required kind;
/// it has at least as many blocks, at most one per state, and where it
/// has no more blocks than before, it is stable.
proof fn lemma_refine(next: Seq<Seq<usize>>, classes: Seq<Option<usize>>, block: Seq<usize>, reps: Seq<usize>, nb: Seq<usize>, nr: Seq<usize>)
    requires
        partition_ok(next, classes, block, reps),
        forall|s: int, a: int| 0 <= s < next.len() && 0 <= a < 256 ==> #[trigger] next[s][a] < next.len(),
        nb.len() == next.len(),
        forall|s: int| 0 <= s < next.len() ==> #[trigger] nb[s] < nr.len(),
        forall|j: int| 0 <= j < nr.len() ==> #[trigger] nr[j] < next.len() && nb[nr[j] as int] == j,
        forall|p: int, q: int| 0 <= p < next.len() && 0 <= q < next.len() ==> (#[trigger] nb[p] == #[trigger] nb[q] <==> same_sig(next, block, p, q)),
        nb[0] == 0,
        nb[1] <= 1,
    ensures
        partition_ok(next, classes, nb, nr),
        reps.len() <= nr.len() <= next.len(),
        nr.len() == reps.len() ==> stable(next, nb),
{
    let n = next.len() as int;
    assert forall|p: int, q: int| 0 <= p < n && 0 <= q < n && #[trigger] nb[p] == #[trigger] nb[q] implies classes[p] == classes[q] by {
        assert(same_sig(next, block, p, q));
        assert(block[p] == block[q]);
    }
    assert forall|p: int, q: int| 0 <= p < n && 0 <= q < n && nb[p] != nb[q] implies #[trigger] distinguishable(next, classes, p, q) by {
        assert(!same_sig(next, block, p, q));
        if block[p] != block[q] {
        } else {
            let a = choose|a: int| #![trigger next[p][a]] 0 <= a < 256 && block[next[p][a] as int] != block[next[q][a] as int];
            let pa = next[p][a] as int;
            let qa = next[q][a] as int;
            assert(distinguishable(next, classes, pa, qa));
            lemma_dist_step(next, classes, p, q, a as u8);
        }
    }
    let f = |j: int| nb[reps[j] as int] as int;
    assert forall|i: int, j: int| 0 <= i < reps.len() && 0 <= j < reps.len() && #[trigger] f(i) == #[trigger] f(j) implies i == j by {
        assert(nb[reps[i] as int] == nb[reps[j] as int]);
        assert(same_sig(next, block, reps[i] as int, reps[j] as int));
    }
    lemma_pigeonhole(f, reps.len() as int, nr.len() as int);
    let g = |j: int| nr[j] as int;
    assert forall|i: int, j: int| 0 <= i < nr.len() && 0 <= j < nr.len() && #[trigger] g(i) == #[trigger] g(j) implies i == j by {
        assert(nb[nr[i] as int] == i);
        assert(nb[nr[j] as int] == j);
    }
    lemma_pigeonhole(g, nr.len() as int, n);
    if nr.len() == reps.len() {
        assert forall|x: int, y: int| 0 <= x < n && 0 <= y < n && block[x] == block[y] implies nb[x] == nb[y] by {
            assert(in_image(f, reps.len() as int, nb[x] as int));
            assert(in_image(f, reps.len() as int, nb[y] as int));
            let i = choose|i: int| 0 <= i < reps.len() && #[trigger] f(i) == nb[x] as int;
            let j = choose|j: int| 0 <= j < reps.len() && #[trigger] f(j) == nb[y] as int;
            assert(nb[x] == nb[reps[i] as int]);
            assert(same_sig(next, block, x, reps[i] as int));
            assert(nb[y] == nb[reps[j] as int]);
            assert(same_sig(next, block, y, reps[j] as int));
        }
        assert forall|p: int, q: int| 0 <= p < n && 0 <= q < n && nb[p] == nb[q] implies #[trigger] same_sig(next, nb, p, q) by {
            assert(same_sig(next, block, p, q));
            assert forall|a: int| #![trigger next[p][a]] 0 <= a < 256 implies nb[next[p][a] as int] == nb[next[q][a] as int] by {
                assert(block[next[p][a] as int] == block[next[q][a] as int]);
                assert(next[p][a] < n && next[q][a] < n);
            }
        }
    }
}

/// Following transitions stays among the states.
pub proof fn lemma_run_in_range(next: Seq<Seq<usize>>, s: int, w: Seq<u8>)
    requires
        0 <= s < next.len(),
        forall|t: int, a: int| 0 <= t < next.len() && 0 <= a < 256 ==> #[trigger] next[t][a] < next.len(),
    ensures
        0 <= run(next, s, w) < next.len(),
    decreases w.len(),
{
    if w.len() > 0 {
        lemma_run_in_range(next, next[s][w[0] as int] as int, w.drop_first());
    }
}

pub proof fn lemma_sink_run(next: Seq<Seq<usize>>, w: Seq<u8>)
    requires
        forall|a: int| 0 <= a < 256 ==> #[trigger] next[0][a] == 0,
    ensures
        run(next, 0, w) == 0,
    decreases w.len(),
{
    if w.len() > 0 {
        assert(next[0][w[0] as int] == 0);
        lemma_sink_run(next, w.drop_first());
    }
}

/// In a stable partition, states of one block lead on any string to
/// states of one block.
proof fn lemma_block_run(next: Seq<Seq<usize>>, block: Seq<usize>, p: int, q: int, w: Seq<u8>)
    requires
        stable(next, block),
        forall|t: int, a: int| 0 <= t < next.len() && 0 <= a < 256 ==> #[trigger] next[t][a] < next.len(),
        0 <= p < next.len(),
        0 <= q < next.len(),
        block[p] == block[q],
    ensures
        block[run(next, p, w)] == block[run(next, q, w)],
    decreases w.len(),
{
    if w.len() > 0 {
        let a = w[0] as int;
        assert(same_sig(next, block, p, q));
        assert(block[next[p][a] as int] == block[next[q][a] as int]);
        lemma_block_run(next, block, next[p][a] as int, next[q][a] as int, w.drop_first());
    }
}

/// The quotient automaton, whose state `t` is block `t`, accepts from the
/// block of `s` what the automaton accepts from `s`.
proof fn lemma_quotient_run(next: Seq<Seq<usize>>, classes: Seq<Option<usize>>, block: Seq<usize>, reps: Seq<usize>, rnext: Seq<Seq<usize>>, rclasses: Seq<Option<usize>>, s: int, w: Seq<u8>)
    requires
        partition_ok(next, classes, block, reps),
        stable(next, block),
        forall|t: int, a: int| 0 <= t < next.len() && 0 <= a < 256 ==> #[trigger] next[t][a] < next.len(),
        rnext.len() == reps.len(),
        rclasses.len() == reps.len(),
        forall|t: int, a: int| 0 <= t < reps.len() && 0 <= a < 256 ==> #[trigger] rnext[t][a] == block[next[reps[t] as int][a] as int],
        forall|t: int| 0 <= t < reps.len() ==> #[trigger] rclasses[t] == classes[reps[t] as int],
        0 <= s < next.len(),
    ensures
        rclasses[run(rnext, block[s] as int, w)] == classes[run(next, s, w)],
    decreases w.len(),
{
    let bs = block[s] as int;
    let rs = reps[bs] as int;
    assert(block[rs] == block[s]);
    if w.len() == 0 {
        assert(classes[rs] == classes[s]);
    } else {
        let a = w[0] as int;
        assert(same_sig(next, block, rs, s));
        assert(block[next[rs][a] as int] == block[next[s][a] as int]);
        assert(rnext[bs][a] == block[next[rs][a] as int]);
        lemma_quotient_run(next, classes, block, reps, rnext, rclasses, next[s][a] as int, w.drop_first());
    }
}

/// Some state of `classes` has class `c`.
pub open spec fn has_class(classes: Seq<Option<usize>>, c: Option<usize>) -> bool {
    exists|s: int| 0 <= s < classes.len() && classes[s] == c
}

/// A row of 256 transitions to the sink.
fn sink_row() -> (r: Vec<usize>)
    ensures
        r@.len() == 256,
        forall|a: int| 0 <= a < 256 ==> #[trigger] r@[a] == 0,
{
    let mut r: Vec<usize> = Vec::new();
    let mut a = 0usize;
    while a < 256
        invariant
            a <= 256,
            r@.len() == a,
            forall|b: int| 0 <= b < a ==> #[trigger] r@[b] == 0,
        decreases 256 - a,
    {
        r.push(0);
        a += 1;
    }
    r
}

/// The automaton whose states are the blocks of a stable partition.
fn quotient(d: &DFA, block: &Vec<usize>, reps: &Vec<usize>) -> (r: DFA)
    requires
        d.wf(),
        partition_ok(d.spec_next(), d.spec_classes(), block@, reps@),
        stable(d.spec_next(), block@),
        reps@.len() <= d.spec_next().len(),
    ensures
        r.wf(),
        r.spec_next().len() <= d.spec_next().len(),
        forall|w: Seq<u8>| #[trigger] r.spec_classes()[run(r.spec_next(), 1, w)] == d.spec_classes()[run(d.spec_next(), 1, w)],
        forall|t: int| 0 <= t < r.spec_classes().len() ==> #[trigger] has_class(d.spec_classes(), r.spec_classes()[t]),
        forall|t1: int, t2: int| 0 <= t1 < t2 < r.spec_next().len() && 2 <= t2 ==> #[trigger] distinguishable(r.spec_next(), r.spec_classes(), t1, t2),
        distinguishable(r.spec_next(), r.spec_classes(), 0, 1) == distinguishable(d.spec_next(), d.spec_classes(), 0, 1),
{
    let ghost next = d.spec_next();
    let ghost classes = d.spec_classes();
    let ghost n = next.len();
    if block[1] == 0 {
        let c = d.class(reps[0]);
        let mut states: Vec<State> = Vec::new();
        states.push(State { class: c, next: sink_row() });
        states.push(State { class: c, next: sink_row() });
        let r = DFA { states };
        proof {
            let rn = r.spec_next();
            let rc = r.spec_classes();
            assert(rc[0] == c && rc[1] == c);
            assert(has_class(classes, c)) by {
                assert(classes[reps@[0] as int] == c);
            }
            assert forall|w: Seq<u8>| #[trigger] rc[run(rn, 1, w)] == classes[run(next, 1, w)] by {
                lemma_run_in_range(rn, 1, w);
                lemma_run_in_range(next, 1, w);
                lemma_sink_run(next, w);
                lemma_block_run(next, block@, 1, 0, w);
                let e = run(next, 1, w);
                assert(block@[e] == block@[reps@[0] as int]);
            }
            assert forall|w: Seq<u8>| classes[#[trigger] run(next, 0, w)] == classes[run(next, 1, w)] by {
                lemma_run_in_range(next, 1, w);
                lemma_sink_run(next, w);
                lemma_block_run(next, block@, 1, 0, w);
                let e = run(next, 1, w);
                assert(block@[e] == block@[0]);
            }
            assert forall|w: Seq<u8>| rc[#[trigger] run(rn, 0, w)] == rc[run(rn, 1, w)] by {
                lemma_run_in_range(rn, 0, w);
                lemma_run_in_range(rn, 1, w);
            }
        }
        r
    } else {
        let k = reps.len();
        let mut states: Vec<State> = Vec::new();
        let mut t = 0usize;
        while t < k
            invariant
                d.wf(),
                next == d.spec_next(),
                classes == d.spec_classes(),
                n == next.len(),
                partition_ok(next, classes, block@, reps@),
                k == reps@.len(),
                t <= k,
                states@.len() == t,
                forall|u: int| 0 <= u < t ==> (#[trigger] states@[u]).next@.len() == 256 && states@[u].class == classes[reps@[u] as int],
                forall|u: int, a: int| 0 <= u < t && 0 <= a < 256 ==> #[trigger] states@[u].next@[a] == block@[next[reps@[u] as int][a] as int],
            decreases k - t,
        {
            let s = reps[t];
            let mut row: Vec<usize> = Vec::new();
            let mut a = 0usize;
            while a < 256
                invariant
                    d.wf(),
                    next == d.spec_next(),
                    n == next.len(),
                    block@.len() == n,
                    s < n,
                    a <= 256,
                    row@.len() == a,
                    forall|b: int| 0 <= b < a ==> #[trigger] row@[b] == block@[next[s as int][b] as int],
                decreases 256 - a,
            {
                let e = d.step(s, a as u8);
                row.push(block[e]);
                a += 1;
            }
            states.push(State { class: d.class(s), next: row });
            t += 1;
        }
        let r = DFA { states };
        proof {
            let rn = r.spec_next();
            let rc = r.spec_classes();
            assert(block@[1] == 1);
            assert forall|u: int, a: int| 0 <= u < k && 0 <= a < 256 implies #[trigger] rn[u][a] == block@[next[reps@[u] as int][a] as int] by {
                assert(rn[u] == states@[u].next@);
            }
            assert forall|u: int| 0 <= u < k implies #[trigger] rc[u] == classes[reps@[u] as int] by {}
            assert forall|u: int| 0 <= u < k implies (#[trigger] rn[u]).len() == 256 by {
                assert(rn[u] == states@[u].next@);
            }
            assert forall|u: int, a: int| 0 <= u < k && 0 <= a < 256 implies #[trigger] rn[u][a] < k by {
                assert(next[reps@[u] as int][a] < n);
            }
            assert forall|a: int| 0 <= a < 256 implies #[trigger] rn[0][a] == 0 by {
                let r0 = reps@[0] as int;
                assert(block@[r0] == block@[0]);
                assert(same_sig(next, block@, r0, 0));
                assert(next[0][a] == 0);
                assert(block@[next[r0][a] as int] == block@[next[0][a] as int]);
            }
            assert(r.wf());
            assert forall|w: Seq<u8>| #[trigger] rc[run(rn, 1, w)] == classes[run(next, 1, w)] by {
                lemma_quotient_run(next, classes, block@, reps@, rn, rc, 1, w);
            }
            assert forall|u: int| 0 <= u < rc.len() implies #[trigger] has_class(classes, rc[u]) by {
                assert(classes[reps@[u] as int] == rc[u]);
            }
            assert forall|t1: int, t2: int| 0 <= t1 < t2 < k implies #[trigger] distinguishable(rn, rc, t1, t2) by {
                let p = reps@[t1] as int;
                let q = reps@[t2] as int;
                assert(block@[p] != block@[q]);
                assert(distinguishable(next, classes, p, q));
                let w = choose|w: Seq<u8>| classes[#[trigger] run(next, p, w)] != classes[run(next, q, w)];
                lemma_quotient_run(next, classes, block@, reps@, rn, rc, p, w);
                lemma_quotient_run(next, classes, block@, reps@, rn, rc, q, w);
                assert(rc[run(rn, t1, w)] != rc[run(rn, t2, w)]);
            }
            assert(block@[0] != block@[1]);
            assert(distinguishable(next, classes, 0, 1));
        }
        r
    }
}

impl DFA {
    /// The minimal automaton with the same behaviour: from the start, every
    /// string reaches a state of the class it reaches here; no two of its
    /// states can be told apart by any string, except the sink and the
    /// start where here they cannot either. Found by refining the partition
    /// of the states by class until it is stable (Moore's algorithm).
    pub fn minimize(&self) -> (r: Self)
        requires
            self.wf(),
        ensures
            r.wf(),
            r.spec_next().len() <= self.spec_next().len(),
            forall|w: Seq<u8>| #[trigger] r.spec_classes()[run(r.spec_next(), 1, w)] == self.spec_classes()[run(self.spec_next(), 1, w)],
            forall|t: int| 0 <= t < r.spec_classes().len() ==> #[trigger] has_class(self.spec_classes(), r.spec_classes()[t]),
            forall|t1: int, t2: int| 0 <= t1 < t2 < r.spec_next().len() && 2 <= t2 ==> #[trigger] distinguishable(r.spec_next(), r.spec_classes(), t1, t2),
            distinguishable(r.spec_next(), r.spec_classes(), 0, 1) == distinguishable(self.spec_next(), self.spec_classes(), 0, 1),
    {
        let ghost next = self.spec_next();
        let ghost classes = self.spec_classes();
        let (mut block, mut reps) = class_partition(self);
        loop
            invariant
                self.wf(),
                next == self.spec_next(),
                classes == self.spec_classes(),
                partition_ok(next, classes, block@, reps@),
                reps@.len() <= next.len(),
            ensures
                partition_ok(next, classes, block@, reps@),
                reps@.len() <= next.len(),
                stable(next, block@),
            decreases next.len() - reps@.len(),
        {
            let (nb, nr) = refine(self, &block);
            proof {
                lemma_refine(next, classes, block@, reps@, nb@, nr@);
            }
            let done = nr.len() == reps.len();
            block = nb;
            reps = nr;
            if done {
                break;
            }
        }
        quotient(self, &block, &reps)
    }
}

/// Some expression of `q` from `k` on matches `w` exactly where the first
/// match from `k` exists.
proof fn lemma_first_match_from_some(q: Seq<RegEx>, w: Seq<u8>, k: int)
    requires
        0 <= k,
    ensures
        first_match_from(q, w, k) is Some <==> exists|j: int| k <= j < q.len() && #[trigger] lang(q[j], w),
    decreases q.len() - k,
{
    if k < q.len() {
        lemma_first_match_from_some(q, w, k + 1);
        if !lang(q[k], w) {
            if exists|j: int| k <= j < q.len() && #[trigger] lang(q[j], w) {
                let j = choose|j: int| k <= j < q.len() && #[trigger] lang(q[j], w);
                assert(j != k);
            }
        }
    }
}

/// An automaton of expressions free of complements matches exactly the
/// strings that one of its expressions matches.
pub proof fn lemma_matches_some_expression(d: DFA, regexes: Seq<RegEx>, w: Seq<u8>)
    requires
        vec_not_free(regexes),
        forall|v: Seq<u8>| #[trigger] d.spec_classes()[run(d.spec_next(), 1, v)] == first_match(regexes, v),
    ensures
        d.spec_classes()[run(d.spec_next(), 1, w)] is Some <==> exists|k: int| 0 <= k < regexes.len() && #[trigger] lang(regexes[k], w),
{
    assert(d.spec_classes()[run(d.spec_next(), 1, w)] == first_match(regexes, w));
    lemma_first_match_from_some(regexes, w, 0);
}

} // verus!
