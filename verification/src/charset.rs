//! Sets of bytes, stored as sorted, disjoint, non-adjacent closed intervals.

use vstd::prelude::*;

verus! {

/// `x` lies in the closed interval `iv`.
pub open spec fn in_interval(iv: (u8, u8), x: u8) -> bool {
    iv.0 <= x && x <= iv.1
}

/// `x` lies in one of the intervals of `ivs`.
pub open spec fn ivs_contain(ivs: Seq<(u8, u8)>, x: u8) -> bool {
    exists|i: int| 0 <= i < ivs.len() && #[trigger] in_interval(ivs[i], x)
}

/// Every interval is non-empty, and intervals are sorted with a gap of at
/// least one byte between consecutive intervals.
pub open spec fn ivs_wf(ivs: Seq<(u8, u8)>) -> bool {
    &&& forall|i: int| 0 <= i < ivs.len() ==> (#[trigger] ivs[i]).0 <= ivs[i].1
    &&& forall|i: int, j: int|
        0 <= i < j < ivs.len() ==> (#[trigger] ivs[i]).1 + 1 < (#[trigger] ivs[j]).0
}

/// The set of bytes covered by a sequence of intervals.
pub open spec fn ivs_set(ivs: Seq<(u8, u8)>) -> Set<u8> {
    Set::new(|x: u8| ivs_contain(ivs, x))
}

/// A set of bytes.
#[derive(Debug)]
pub struct CharSet {
    intervals: Vec<(u8, u8)>,
}

impl View for CharSet {
    type V = Set<u8>;

    closed spec fn view(&self) -> Set<u8> {
        ivs_set(self.intervals@)
    }
}

/// Pushing an interval adds exactly its bytes.
pub proof fn lemma_ivs_push(s: Seq<(u8, u8)>, iv: (u8, u8), x: u8)
    ensures
        ivs_contain(s.push(iv), x) == (ivs_contain(s, x) || in_interval(iv, x)),
{
    if ivs_contain(s, x) {
        let i = choose|i: int| 0 <= i < s.len() && #[trigger] in_interval(s[i], x);
        assert(in_interval(s.push(iv)[i], x));
    }
    if in_interval(iv, x) {
        assert(in_interval(s.push(iv)[s.len() as int], x));
    }
    if ivs_contain(s.push(iv), x) {
        let i = choose|i: int| 0 <= i < s.len() + 1 && #[trigger] in_interval(s.push(iv)[i], x);
        if i < s.len() {
            assert(in_interval(s[i], x));
        }
    }
}

/// In well-formed intervals, bytes below the first start, above the last
/// end, or strictly between two consecutive intervals are not covered.
pub proof fn lemma_ivs_outside(ivs: Seq<(u8, u8)>, x: u8)
    requires
        ivs_wf(ivs),
    ensures
        ivs.len() > 0 && x < ivs[0].0 ==> !ivs_contain(ivs, x),
        ivs.len() > 0 && x > ivs[ivs.len() - 1].1 ==> !ivs_contain(ivs, x),
        forall|k: int|
            0 <= k < ivs.len() - 1 && ivs[k].1 < x && x < #[trigger] ivs[k + 1].0 ==> !ivs_contain(
                ivs,
                x,
            ),
{
    if ivs_contain(ivs, x) {
        let i = choose|i: int| 0 <= i < ivs.len() && #[trigger] in_interval(ivs[i], x);
        if i > 0 {
            assert(ivs[0].1 + 1 < ivs[i].0);
        }
        if i < ivs.len() - 1 {
            assert(ivs[i].1 + 1 < ivs[ivs.len() - 1].0);
        }
        assert forall|k: int|
            0 <= k < ivs.len() - 1 && ivs[k].1 < x && x < #[trigger] ivs[k + 1].0 implies false by {
            if i < k {
                assert(ivs[i].1 + 1 < ivs[k].0);
            } else if i > k + 1 {
                assert(ivs[k + 1].1 + 1 < ivs[i].0);
            }
        }
    }
}

/// Well-formed interval lists are unique: two that cover the same bytes
/// are equal.
pub proof fn lemma_ivs_unique(a: Seq<(u8, u8)>, b: Seq<(u8, u8)>)
    requires
        ivs_wf(a),
        ivs_wf(b),
        ivs_set(a) == ivs_set(b),
    ensures
        a == b,
    decreases a.len() + b.len(),
{
    if a.len() == 0 || b.len() == 0 {
        if a.len() > 0 {
            assert(in_interval(a[0], a[0].0));
            assert(ivs_set(a).contains(a[0].0));
        }
        if b.len() > 0 {
            assert(in_interval(b[0], b[0].0));
            assert(ivs_set(b).contains(b[0].0));
        }
        assert(a =~= b);
    } else {
        let (a0, a1) = a[0];
        let (b0, b1) = b[0];
        assert(in_interval(a[0], a0) && in_interval(b[0], b0));
        assert(ivs_set(a).contains(a0) && ivs_set(b).contains(b0));
        lemma_ivs_outside(a, b0);
        lemma_ivs_outside(b, a0);
        assert(a0 == b0);
        assert(in_interval(a[0], a1) && in_interval(b[0], b1));
        assert(ivs_set(a).contains(a1) && ivs_set(b).contains(b1));
        if b1 < a1 {
            let x = (b1 + 1) as u8;
            assert(in_interval(a[0], x));
            assert(ivs_set(a).contains(x));
            lemma_ivs_outside(b, x);
            if b.len() > 1 {
                assert(b[0].1 + 1 < b[1].0);
            }
            assert(!ivs_contain(b, x)) by {
                if ivs_contain(b, x) {
                    let i = choose|i: int| 0 <= i < b.len() && #[trigger] in_interval(b[i], x);
                    if i > 0 {
                        assert(b[0].1 + 1 < b[i].0);
                    }
                }
            }
        }
        if a1 < b1 {
            let x = (a1 + 1) as u8;
            assert(in_interval(b[0], x));
            assert(ivs_set(b).contains(x));
            assert(!ivs_contain(a, x)) by {
                if ivs_contain(a, x) {
                    let i = choose|i: int| 0 <= i < a.len() && #[trigger] in_interval(a[i], x);
                    if i > 0 {
                        assert(a[0].1 + 1 < a[i].0);
                    }
                }
            }
        }
        assert(a1 == b1);
        let ra = a.drop_first();
        let rb = b.drop_first();
        assert(ivs_wf(ra)) by {
            assert forall|i: int, j: int| 0 <= i < j < ra.len() implies (#[trigger] ra[i]).1 + 1 < (#[trigger] ra[j]).0 by {
                assert(ra[i] == a[i + 1] && ra[j] == a[j + 1]);
            }
        }
        assert(ivs_wf(rb)) by {
            assert forall|i: int, j: int| 0 <= i < j < rb.len() implies (#[trigger] rb[i]).1 + 1 < (#[trigger] rb[j]).0 by {
                assert(rb[i] == b[i + 1] && rb[j] == b[j + 1]);
            }
        }
        assert forall|x: u8| ivs_set(ra).contains(x) <==> ivs_set(rb).contains(x) by {
            if ivs_contain(ra, x) {
                let i = choose|i: int| 0 <= i < ra.len() && #[trigger] in_interval(ra[i], x);
                assert(in_interval(a[i + 1], x));
                assert(a[0].1 + 1 < a[i + 1].0);
                assert(ivs_set(a).contains(x));
                let k = choose|k: int| 0 <= k < b.len() && #[trigger] in_interval(b[k], x);
                assert(k != 0);
                assert(in_interval(rb[k - 1], x));
            }
            if ivs_contain(rb, x) {
                let i = choose|i: int| 0 <= i < rb.len() && #[trigger] in_interval(rb[i], x);
                assert(in_interval(b[i + 1], x));
                assert(b[0].1 + 1 < b[i + 1].0);
                assert(ivs_set(b).contains(x));
                let k = choose|k: int| 0 <= k < a.len() && #[trigger] in_interval(a[k], x);
                assert(k != 0);
                assert(in_interval(ra[k - 1], x));
            }
        }
        assert(ivs_set(ra) =~= ivs_set(rb));
        lemma_ivs_unique(ra, rb);
        assert(a =~= seq![a[0]] + ra);
        assert(b =~= seq![b[0]] + rb);
    }
}

impl CharSet {
    /// The representation invariant: sorted, non-empty, non-adjacent intervals.
    pub closed spec fn wf(&self) -> bool {
        ivs_wf(self.intervals@)
    }

    /// The intervals of the set, in increasing order.
    pub closed spec fn spec_intervals(&self) -> Seq<(u8, u8)> {
        self.intervals@
    }

    /// The intervals of a valid set are well formed and cover exactly its
    /// bytes; with `lemma_ivs_unique`, they are the one well-formed interval
    /// list of its bytes.
    pub proof fn lemma_intervals(&self)
        requires
            self.wf(),
        ensures
            ivs_wf(self.spec_intervals()),
            self@ == ivs_set(self.spec_intervals()),
            forall|ivs: Seq<(u8, u8)>| ivs_wf(ivs) && #[trigger] ivs_set(ivs) == self@ ==> ivs == self.spec_intervals(),
    {
        assert forall|ivs: Seq<(u8, u8)>| ivs_wf(ivs) && #[trigger] ivs_set(ivs) == self@ implies ivs == self.spec_intervals() by {
            lemma_ivs_unique(ivs, self.spec_intervals());
        }
    }

    /// The empty set.
    pub fn empty() -> (r: Self)
        ensures
            r.wf(),
            r@ == Set::<u8>::empty(),
    {
        let r = Self { intervals: Vec::new() };
        assert(r@ =~= Set::<u8>::empty());
        r
    }

    /// The set of all bytes.
    pub fn universe() -> (r: Self)
        ensures
            r.wf(),
            r@ == Set::<u8>::full(),
    {
        let mut v = Vec::new();
        v.push((0u8, 255u8));
        let r = Self { intervals: v };
        assert forall|x: u8| r@.contains(x) by {
            assert(in_interval(r.intervals@[0], x));
        }
        assert(r@ =~= Set::<u8>::full());
        r
    }

    /// The set holding `value` only.
    pub fn point(value: u8) -> (r: Self)
        ensures
            r.wf(),
            r@ == set![value],
    {
        let mut v = Vec::new();
        v.push((value, value));
        let r = Self { intervals: v };
        assert(in_interval(r.intervals@[0], value));
        assert(r@ =~= set![value]);
        r
    }

    /// The bytes between `from` and `to`, inclusive, in either order.
    pub fn range(from: u8, to: u8) -> (r: Self)
        ensures
            r.wf(),
            forall|x: u8|
                r@.contains(x) == (if from <= to {
                    from <= x <= to
                } else {
                    to <= x <= from
                }),
    {
        let mut v = Vec::new();
        if from <= to {
            v.push((from, to));
        } else {
            v.push((to, from));
        }
        let r = Self { intervals: v };
        assert forall|x: u8|
            r@.contains(x) == (if from <= to {
                from <= x <= to
            } else {
                to <= x <= from
            }) by {
            if in_interval(r.intervals@[0], x) {
                assert(ivs_contain(r.intervals@, x));
            }
        }
        r
    }

    /// The intervals of the set, in increasing order.
    pub fn intervals(&self) -> (r: &Vec<(u8, u8)>)
        ensures
            r@ == self.spec_intervals(),
    {
        &self.intervals
    }

    /// Whether the set holds no byte.
    pub fn is_empty(&self) -> (r: bool)
        requires
            self.wf(),
        ensures
            r == (self@ == Set::<u8>::empty()),
    {
        if self.intervals.len() == 0 {
            assert(self@ =~= Set::<u8>::empty());
            true
        } else {
            let iv = self.intervals[0];
            assert(in_interval(self.intervals@[0], iv.0));
            assert(self@.contains(iv.0));
            false
        }
    }

    /// Whether the set holds every byte.
    pub fn is_universe(&self) -> (r: bool)
        requires
            self.wf(),
        ensures
            r == (self@ == Set::<u8>::full()),
    {
        if self.intervals.len() > 0 {
            let interval = self.intervals[0];
            if interval.0 == 0u8 && interval.1 == 255u8 {
                assert forall|x: u8| self@.contains(x) by {
                    assert(in_interval(self.intervals@[0], x));
                }
                assert(self@ =~= Set::<u8>::full());
                true
            } else {
                proof {
                    lemma_ivs_outside(self.intervals@, 0u8);
                    lemma_ivs_outside(self.intervals@, 255u8);
                    if interval.0 != 0 {
                        assert(!self@.contains(0u8));
                    } else {
                        if self.intervals.len() > 1 {
                            assert(self.intervals@[0].1 + 1 < self.intervals@[1].0);
                            let g = (self.intervals@[0].1 + 1) as u8;
                            lemma_ivs_outside(self.intervals@, g);
                            assert(!self@.contains(g));
                        } else {
                            assert(!self@.contains(255u8));
                        }
                    }
                }
                false
            }
        } else {
            assert(!self@.contains(0u8));
            false
        }
    }

    /// The least byte of the set, if any.
    pub fn min(&self) -> (r: Option<u8>)
        requires
            self.wf(),
        ensures
            r is None <==> self@ == Set::<u8>::empty(),
            r matches Some(m) ==> self@.contains(m) && forall|x: u8| #[trigger]
                self@.contains(x) ==> m <= x,
    {
        if self.intervals.len() > 0 {
            let m = self.intervals[0].0;
            proof {
                assert(in_interval(self.intervals@[0], m));
                assert(self@.contains(m));
                assert(self@ != Set::<u8>::empty());
                assert forall|x: u8| #[trigger] self@.contains(x) implies m <= x by {
                    lemma_ivs_outside(self.intervals@, x);
                }
            }
            Some(m)
        } else {
            assert(self@ =~= Set::<u8>::empty());
            None
        }
    }

    /// Whether `x` belongs to the set (binary search over the intervals).
    pub fn contains(&self, x: u8) -> (r: bool)
        requires
            self.wf(),
        ensures
            r == self@.contains(x),
    {
        let mut size = self.intervals.len();
        if size == 0 {
            return false;
        }
        let mut base = 0usize;
        let ghost ivs = self.intervals@;
        while size > 1
            invariant
                ivs == self.intervals@,
                ivs.len() == self.intervals.len(),
                ivs_wf(ivs),
                size >= 1,
                base + size <= ivs.len(),
                forall|i: int| 0 <= i < base ==> (#[trigger] ivs[i]).1 < x,
                forall|i: int| base + size <= i < ivs.len() ==> x < (#[trigger] ivs[i]).0,
            decreases size,
        {
            let half = size / 2;
            let mid = base + half;
            let (start, end) = self.intervals[mid];
            if x < start {
                size -= half;
                assert forall|i: int| base + size <= i < ivs.len() implies x < (
                #[trigger] ivs[i]).0 by {
                    if i > mid {
                        assert(ivs[mid as int].1 + 1 < ivs[i].0);
                    }
                }
            } else if x > end {
                assert forall|i: int| 0 <= i < mid implies (#[trigger] ivs[i]).1 < x by {
                    assert(ivs[i].1 + 1 < ivs[mid as int].0);
                }
                size -= half;
                base = mid;
            } else {
                assert(in_interval(ivs[mid as int], x));
                return true;
            }
        }
        let (start, end) = self.intervals[base];
        let r = start <= x && x <= end;
        proof {
            if r {
                assert(in_interval(ivs[base as int], x));
            } else {
                if ivs_contain(ivs, x) {
                    let i = choose|i: int| 0 <= i < ivs.len() && #[trigger] in_interval(ivs[i], x);
                    assert(ivs[i].0 <= ivs[i].1);
                }
            }
        }
        r
    }
}


/// A covered byte above the end of interval `k` lies in a later interval.
pub proof fn lemma_ivs_after(ivs: Seq<(u8, u8)>, k: int, x: u8)
    requires
        ivs_wf(ivs),
        0 <= k < ivs.len(),
        ivs_contain(ivs, x),
        x > ivs[k].1,
    ensures
        k + 1 < ivs.len(),
        x >= ivs[k + 1].0,
{
    let p = choose|p: int| 0 <= p < ivs.len() && #[trigger] in_interval(ivs[p], x);
    if p < k {
        assert(ivs[p].1 + 1 < ivs[k].0);
    }
    if p > k + 1 {
        assert(ivs[k + 1].1 + 1 < ivs[p].0);
    }
}

/// A covered byte below the start of interval `k` lies in an earlier interval.
pub proof fn lemma_ivs_before(ivs: Seq<(u8, u8)>, k: int, x: u8)
    requires
        ivs_wf(ivs),
        0 <= k < ivs.len(),
        ivs_contain(ivs, x),
        x < ivs[k].0,
    ensures
        k > 0,
        x <= ivs[k - 1].1,
{
    let p = choose|p: int| 0 <= p < ivs.len() && #[trigger] in_interval(ivs[p], x);
    if p > k {
        assert(ivs[k].1 + 1 < ivs[p].0);
    }
    if p < k - 1 {
        assert(ivs[p].1 + 1 < ivs[k - 1].0);
    }
}

/// Well-formed interval sequences covering the same bytes are identical.
pub proof fn lemma_ivs_canonical(a: Seq<(u8, u8)>, b: Seq<(u8, u8)>)
    requires
        ivs_wf(a),
        ivs_wf(b),
        forall|x: u8| ivs_contain(a, x) == ivs_contain(b, x),
    ensures
        a == b,
    decreases a.len() + b.len(),
{
    if a.len() == 0 || b.len() == 0 {
        if a.len() > 0 {
            assert(in_interval(a[0], a[0].0));
            assert(ivs_contain(a, a[0].0));
        }
        if b.len() > 0 {
            assert(in_interval(b[0], b[0].0));
            assert(ivs_contain(b, b[0].0));
        }
        assert(a =~= b);
    } else {
        let a0 = a[0];
        let b0 = b[0];
        assert(in_interval(a[0], a0.0));
        assert(in_interval(b[0], b0.0));
        lemma_ivs_outside(a, b0.0);
        lemma_ivs_outside(b, a0.0);
        assert(a0.0 == b0.0);
        if a0.1 < b0.1 {
            let x = (a0.1 + 1) as u8;
            assert(in_interval(b[0], x));
            assert(ivs_contain(b, x));
            if ivs_contain(a, x) {
                lemma_ivs_after(a, 0, x);
            }
            assert(false);
        }
        if b0.1 < a0.1 {
            let x = (b0.1 + 1) as u8;
            assert(in_interval(a[0], x));
            assert(ivs_contain(a, x));
            if ivs_contain(b, x) {
                lemma_ivs_after(b, 0, x);
            }
            assert(false);
        }
        let ra = a.drop_first();
        let rb = b.drop_first();
        assert forall|x: u8| ivs_contain(ra, x) == ivs_contain(rb, x) by {
            if ivs_contain(ra, x) {
                let p = choose|p: int| 0 <= p < ra.len() && #[trigger] in_interval(ra[p], x);
                assert(in_interval(a[p + 1], x));
                assert(a[0].1 + 1 < a[p + 1].0);
                assert(ivs_contain(b, x));
                let q = choose|q: int| 0 <= q < b.len() && #[trigger] in_interval(b[q], x);
                assert(q != 0);
                assert(in_interval(rb[q - 1], x));
            }
            if ivs_contain(rb, x) {
                let p = choose|p: int| 0 <= p < rb.len() && #[trigger] in_interval(rb[p], x);
                assert(in_interval(b[p + 1], x));
                assert(b[0].1 + 1 < b[p + 1].0);
                assert(ivs_contain(a, x));
                let q = choose|q: int| 0 <= q < a.len() && #[trigger] in_interval(a[q], x);
                assert(q != 0);
                assert(in_interval(ra[q - 1], x));
            }
        }
        lemma_ivs_canonical(ra, rb);
        assert(a =~= b) by {
            assert forall|i: int| 0 <= i < a.len() implies a[i] == b[i] by {
                if i > 0 {
                    assert(a[i] == ra[i - 1]);
                }
            }
        }
    }
}

/// The larger of two interval starts.
pub open spec fn later_start(a: (u8, u8), b: (u8, u8)) -> u8 {
    if a.0 >= b.0 {
        a.0
    } else {
        b.0
    }
}

impl CharSet {
    /// Two well-formed sets with the same bytes have the same representation.
    pub proof fn lemma_canonical(a: &CharSet, b: &CharSet)
        requires
            a.wf(),
            b.wf(),
            a@ == b@,
        ensures
            a.spec_intervals() == b.spec_intervals(),
    {
        assert forall|x: u8| ivs_contain(a.intervals@, x) == ivs_contain(b.intervals@, x) by {
            assert(a@.contains(x) == ivs_contain(a.intervals@, x));
            assert(b@.contains(x) == ivs_contain(b.intervals@, x));
        }
        lemma_ivs_canonical(a.intervals@, b.intervals@);
    }

    /// The bytes not in the set.
    pub fn complement(&self) -> (r: Self)
        requires
            self.wf(),
        ensures
            r.wf(),
            r@ == self@.complement(),
    {
        let ghost ivs = self.intervals@;
        let n = self.intervals.len();
        let mut out: Vec<(u8, u8)> = Vec::new();
        if n == 0 {
            out.push((0u8, 255u8));
            let r = Self { intervals: out };
            assert forall|x: u8| r@.contains(x) == !self@.contains(x) by {
                assert(in_interval(r.intervals@[0], x));
            }
            assert(r@ =~= self@.complement());
            return r;
        }
        let low = self.intervals[0].0;
        let high = self.intervals[n - 1].1;
        if low > 0 {
            out.push((0u8, low - 1));
        }
        proof {
            assert forall|x: u8| x <= ivs[0].1 implies #[trigger] ivs_contain(out@, x) != ivs_contain(ivs, x) by {
                lemma_ivs_outside(ivs, x);
                if low > 0 {
                    lemma_ivs_push(Seq::empty(), (0u8, (low - 1) as u8), x);
                    assert(Seq::<(u8, u8)>::empty().push((0u8, (low - 1) as u8)) == out@);
                }
                if x >= low {
                    assert(in_interval(ivs[0], x));
                }
            }
            assert forall|x: u8| #[trigger] ivs_contain(out@, x) implies x < ivs[0].0 by {
                let p = choose|p: int| 0 <= p < out@.len() && #[trigger] in_interval(out@[p], x);
            }
        }
        let mut i = 0usize;
        while i + 1 < n
            invariant
                ivs == self.intervals@,
                n == ivs.len(),
                n > 0,
                i < n,
                ivs_wf(ivs),
                ivs_wf(out@),
                out@.len() > 0 ==> out@[out@.len() - 1].1 + 1 == ivs[i as int].0,
                forall|x: u8| x <= ivs[i as int].1 ==> #[trigger] ivs_contain(out@, x) != ivs_contain(ivs, x),
                forall|x: u8| #[trigger] ivs_contain(out@, x) ==> x < ivs[i as int].0,
            decreases n - i,
        {
            let a = self.intervals[i];
            let b = self.intervals[i + 1];
            assert(ivs[i as int].1 + 1 < ivs[i + 1].0);
            let g = (a.1 + 1, b.0 - 1);
            let ghost old_out = out@;
            out.push(g);
            proof {
                assert forall|x: u8| x <= ivs[i + 1].1 implies #[trigger] ivs_contain(out@, x) != ivs_contain(ivs, x) by {
                    lemma_ivs_push(old_out, g, x);
                    lemma_ivs_outside(ivs, x);
                    if x >= ivs[i + 1].0 {
                        assert(in_interval(ivs[i + 1], x));
                    }
                    if x > ivs[i as int].1 && x < ivs[i + 1].0 {
                        assert(ivs[(i + 1) - 1] == ivs[i as int]);
                    }
                }
                assert forall|x: u8| #[trigger] ivs_contain(out@, x) implies x < ivs[i + 1].0 by {
                    lemma_ivs_push(old_out, g, x);
                }
                assert forall|k: int, m: int| 0 <= k < m < out@.len() implies (#[trigger] out@[k]).1 + 1 < (#[trigger] out@[m]).0 by {
                    if m == out@.len() - 1 && k < m - 1 {
                        assert(old_out[k].1 + 1 < old_out[old_out.len() - 1].0);
                    }
                }
            }
            i += 1;
        }
        if high < 255 {
            let ghost old_out = out@;
            out.push((high + 1, 255u8));
            proof {
                assert forall|k: int, m: int| 0 <= k < m < out@.len() implies (#[trigger] out@[k]).1 + 1 < (#[trigger] out@[m]).0 by {
                    if m == out@.len() - 1 && k < m - 1 {
                        assert(old_out[k].1 + 1 < old_out[old_out.len() - 1].0);
                    }
                }
                assert forall|x: u8| #[trigger] ivs_contain(out@, x) != ivs_contain(ivs, x) by {
                    lemma_ivs_push(old_out, ((high + 1) as u8, 255u8), x);
                    lemma_ivs_outside(ivs, x);
                }
            }
        } else {
            proof {
                assert forall|x: u8| #[trigger] ivs_contain(out@, x) != ivs_contain(ivs, x) by {
                    assert(x <= ivs[n - 1].1);
                }
            }
        }
        let r = Self { intervals: out };
        assert forall|x: u8| r@.contains(x) == !self@.contains(x) by {
            assert(ivs_contain(out@, x) != ivs_contain(ivs, x));
        }
        assert(r@ =~= self@.complement());
        r
    }
}


impl CharSet {
    /// The bytes in both sets.
    pub fn intersection(&self, other: &Self) -> (r: Self)
        requires
            self.wf(),
            other.wf(),
        ensures
            r.wf(),
            r@ == self@.intersect(other@),
    {
        let ghost a_ivs = self.intervals@;
        let ghost b_ivs = other.intervals@;
        let na = self.intervals.len();
        let nb = other.intervals.len();
        let mut out: Vec<(u8, u8)> = Vec::new();
        if na == 0 || nb == 0 {
            let r = Self { intervals: out };
            assert forall|x: u8| !r@.contains(x) && !(self@.contains(x) && other@.contains(x)) by {
                if self@.contains(x) {
                    assert(ivs_contain(a_ivs, x));
                }
                if other@.contains(x) {
                    assert(ivs_contain(b_ivs, x));
                }
            }
            assert(r@ =~= self@.intersect(other@));
            return r;
        }
        let mut i = 0usize;
        let mut j = 0usize;
        proof {
            assert forall|x: u8| #[trigger] ivs_contain(out@, x) == (ivs_contain(a_ivs, x) && ivs_contain(b_ivs, x) && x < later_start(a_ivs[0], b_ivs[0])) by {
                if ivs_contain(a_ivs, x) && x < a_ivs[0].0 {
                    lemma_ivs_before(a_ivs, 0, x);
                }
                if ivs_contain(b_ivs, x) && x < b_ivs[0].0 {
                    lemma_ivs_before(b_ivs, 0, x);
                }
            }
        }
        loop
            invariant
                a_ivs == self.intervals@,
                b_ivs == other.intervals@,
                na == a_ivs.len(),
                nb == b_ivs.len(),
                i < na,
                j < nb,
                ivs_wf(a_ivs),
                ivs_wf(b_ivs),
                ivs_wf(out@),
                out@.len() > 0 ==> out@[out@.len() - 1].1 + 1 < later_start(a_ivs[i as int], b_ivs[j as int]),
                forall|x: u8| #[trigger] ivs_contain(out@, x) == (ivs_contain(a_ivs, x) && ivs_contain(b_ivs, x) && x < later_start(a_ivs[i as int], b_ivs[j as int])),
            decreases (na - i) + (nb - j),
        {
            let a = self.intervals[i];
            let b = other.intervals[j];
            let low = if a.0 >= b.0 { a.0 } else { b.0 };
            let high = if a.1 <= b.1 { a.1 } else { b.1 };
            let ghost old_out = out@;
            if low <= high {
                out.push((low, high));
                proof {
                    assert forall|k: int, m: int| 0 <= k < m < out@.len() implies (#[trigger] out@[k]).1 + 1 < (#[trigger] out@[m]).0 by {
                        if m == out@.len() - 1 && k < m - 1 {
                            assert(old_out[k].1 + 1 < old_out[old_out.len() - 1].0);
                        }
                    }
                }
            }
            proof {
                assert forall|x: u8| #[trigger] ivs_contain(out@, x) == (ivs_contain(a_ivs, x) && ivs_contain(b_ivs, x) && (x < low || (low <= x && x <= high))) by {
                    if low <= high {
                        lemma_ivs_push(old_out, (low, high), x);
                    }
                    if low <= x && x <= high {
                        assert(in_interval(a_ivs[i as int], x));
                        assert(in_interval(b_ivs[j as int], x));
                    }
                }
            }
            if a.1 < b.1 {
                i += 1;
                if i == na {
                    let r = Self { intervals: out };
                    proof {
                        assert forall|x: u8| r@.contains(x) == (self@.contains(x) && other@.contains(x)) by {
                            assert(ivs_contain(out@, x) == (ivs_contain(a_ivs, x) && ivs_contain(b_ivs, x) && (x < low || (low <= x && x <= high))));
                            if ivs_contain(a_ivs, x) && x > high {
                                lemma_ivs_after(a_ivs, (na - 1) as int, x);
                            }
                        }
                        assert(r@ =~= self@.intersect(other@));
                    }
                    return r;
                }
                proof {
                    assert(a_ivs[i - 1].1 + 1 < a_ivs[i as int].0);
                    assert forall|x: u8| #[trigger] ivs_contain(out@, x) == (ivs_contain(a_ivs, x) && ivs_contain(b_ivs, x) && x < later_start(a_ivs[i as int], b_ivs[j as int])) by {
                        assert(ivs_contain(out@, x) == (ivs_contain(a_ivs, x) && ivs_contain(b_ivs, x) && (x < low || (low <= x && x <= high))));
                        if ivs_contain(a_ivs, x) && x > high && x < a_ivs[i as int].0 {
                            lemma_ivs_after(a_ivs, i - 1, x);
                        }
                    }
                }
            } else {
                j += 1;
                if j == nb {
                    let r = Self { intervals: out };
                    proof {
                        assert forall|x: u8| r@.contains(x) == (self@.contains(x) && other@.contains(x)) by {
                            assert(ivs_contain(out@, x) == (ivs_contain(a_ivs, x) && ivs_contain(b_ivs, x) && (x < low || (low <= x && x <= high))));
                            if ivs_contain(b_ivs, x) && x > high {
                                lemma_ivs_after(b_ivs, (nb - 1) as int, x);
                            }
                        }
                        assert(r@ =~= self@.intersect(other@));
                    }
                    return r;
                }
                proof {
                    assert(b_ivs[j - 1].1 + 1 < b_ivs[j as int].0);
                    assert forall|x: u8| #[trigger] ivs_contain(out@, x) == (ivs_contain(a_ivs, x) && ivs_contain(b_ivs, x) && x < later_start(a_ivs[i as int], b_ivs[j as int])) by {
                        assert(ivs_contain(out@, x) == (ivs_contain(a_ivs, x) && ivs_contain(b_ivs, x) && (x < low || (low <= x && x <= high))));
                        if ivs_contain(b_ivs, x) && x > high && x < b_ivs[j as int].0 {
                            lemma_ivs_after(b_ivs, j - 1, x);
                        }
                    }
                }
            }
        }
    }
}


/// Every interval of `ivs` from index `k` on starts at or after `lo`.
pub open spec fn starts_from(ivs: Seq<(u8, u8)>, k: int, lo: u8) -> bool {
    k < ivs.len() ==> lo <= ivs[k].0
}

impl CharSet {
    /// The bytes in either set (merging the intervals by start, then
    /// coalescing overlapping or adjacent intervals).
    #[verifier::spinoff_prover]
    pub fn union(&self, other: &Self) -> (r: Self)
        requires
            self.wf(),
            other.wf(),
        ensures
            r.wf(),
            r@ == self@.union(other@),
    {
        let ghost a_ivs = self.intervals@;
        let ghost b_ivs = other.intervals@;
        let na = self.intervals.len();
        let nb = other.intervals.len();
        let mut out: Vec<(u8, u8)> = Vec::new();
        if na == 0 && nb == 0 {
            let r = Self { intervals: out };
            assert forall|x: u8| !r@.contains(x) && !self@.contains(x) && !other@.contains(x) by {
                if self@.contains(x) {
                    assert(ivs_contain(a_ivs, x));
                }
                if other@.contains(x) {
                    assert(ivs_contain(b_ivs, x));
                }
            }
            assert(r@ =~= self@.union(other@));
            return r;
        }
        let mut i = 0usize;
        let mut j = 0usize;
        let mut cur: (u8, u8);
        if j >= nb || (i < na && self.intervals[i].0 <= other.intervals[j].0) {
            cur = self.intervals[i];
            i += 1;
        } else {
            cur = other.intervals[j];
            j += 1;
        }
        proof {
            assert(a_ivs.take(0) =~= Seq::<(u8, u8)>::empty());
            assert(b_ivs.take(0) =~= Seq::<(u8, u8)>::empty());
            if i == 1 {
                assert(a_ivs.take(1) =~= Seq::<(u8, u8)>::empty().push(cur));
                if na > 1 {
                    assert(a_ivs[0].1 + 1 < a_ivs[1].0);
                }
            } else {
                assert(b_ivs.take(1) =~= Seq::<(u8, u8)>::empty().push(cur));
                if nb > 1 {
                    assert(b_ivs[0].1 + 1 < b_ivs[1].0);
                }
            }
            assert forall|x: u8| (ivs_contain(out@, x) || in_interval(cur, x)) == (#[trigger] ivs_contain(a_ivs.take(i as int), x) || ivs_contain(b_ivs.take(j as int), x)) by {
                lemma_ivs_push(Seq::<(u8, u8)>::empty(), cur, x);
            }
        }
        while i < na || j < nb
            invariant
                a_ivs == self.intervals@,
                b_ivs == other.intervals@,
                na == a_ivs.len(),
                nb == b_ivs.len(),
                i <= na,
                j <= nb,
                ivs_wf(a_ivs),
                ivs_wf(b_ivs),
                ivs_wf(out@),
                cur.0 <= cur.1,
                out@.len() > 0 ==> out@[out@.len() - 1].1 + 1 < cur.0,
                starts_from(a_ivs, i as int, cur.0),
                starts_from(b_ivs, j as int, cur.0),
                forall|x: u8| (ivs_contain(out@, x) || in_interval(cur, x)) == (#[trigger] ivs_contain(a_ivs.take(i as int), x) || ivs_contain(b_ivs.take(j as int), x)),
            decreases (na - i) + (nb - j),
        {
            let ghost old_i = i;
            let ghost old_j = j;
            let next: (u8, u8);
            if j >= nb || (i < na && self.intervals[i].0 <= other.intervals[j].0) {
                next = self.intervals[i];
                i += 1;
                proof {
                    assert(next == a_ivs[old_i as int]);
                    assert(cur.0 <= next.0);
                    assert(a_ivs.take(i as int) =~= a_ivs.take(old_i as int).push(next));
                    if i < na {
                        assert(a_ivs[old_i as int].1 + 1 < a_ivs[i as int].0);
                    }
                }
            } else {
                next = other.intervals[j];
                j += 1;
                proof {
                    assert(next == b_ivs[old_j as int]);
                    assert(cur.0 <= next.0);
                    assert(b_ivs.take(j as int) =~= b_ivs.take(old_j as int).push(next));
                    if j < nb {
                        assert(b_ivs[old_j as int].1 + 1 < b_ivs[j as int].0);
                    }
                }
            }
            assert(next.0 <= next.1);
            let ghost old_cur = cur;
            let ghost old_out = out@;
            if cur.1 >= next.0 || next.0 - cur.1 == 1 {
                if next.1 > cur.1 {
                    cur.1 = next.1;
                }
                proof {
                    assert forall|x: u8| (ivs_contain(out@, x) || in_interval(cur, x)) == (#[trigger] ivs_contain(a_ivs.take(i as int), x) || ivs_contain(b_ivs.take(j as int), x)) by {
                        assert((ivs_contain(old_out, x) || in_interval(old_cur, x)) == (ivs_contain(a_ivs.take(old_i as int), x) || ivs_contain(b_ivs.take(old_j as int), x)));
                        if i != old_i {
                            lemma_ivs_push(a_ivs.take(old_i as int), next, x);
                        } else {
                            lemma_ivs_push(b_ivs.take(old_j as int), next, x);
                        }
                    }
                }
            } else {
                out.push(cur);
                cur = next;
                proof {
                    assert forall|k: int, m: int| 0 <= k < m < out@.len() implies (#[trigger] out@[k]).1 + 1 < (#[trigger] out@[m]).0 by {
                        if m == out@.len() - 1 && k < m - 1 {
                            assert(old_out[k].1 + 1 < old_out[old_out.len() - 1].0);
                        }
                    }
                    assert forall|x: u8| (ivs_contain(out@, x) || in_interval(cur, x)) == (#[trigger] ivs_contain(a_ivs.take(i as int), x) || ivs_contain(b_ivs.take(j as int), x)) by {
                        assert((ivs_contain(old_out, x) || in_interval(old_cur, x)) == (ivs_contain(a_ivs.take(old_i as int), x) || ivs_contain(b_ivs.take(old_j as int), x)));
                        lemma_ivs_push(old_out, old_cur, x);
                        if i != old_i {
                            lemma_ivs_push(a_ivs.take(old_i as int), next, x);
                        } else {
                            lemma_ivs_push(b_ivs.take(old_j as int), next, x);
                        }
                    }
                }
            }
            assert(forall|x: u8| (ivs_contain(out@, x) || in_interval(cur, x)) == (#[trigger] ivs_contain(a_ivs.take(i as int), x) || ivs_contain(b_ivs.take(j as int), x)));
            assert(starts_from(a_ivs, i as int, cur.0));
            assert(starts_from(b_ivs, j as int, cur.0));
            assert(out@.len() > 0 ==> out@[out@.len() - 1].1 + 1 < cur.0);
            assert(ivs_wf(out@));
        }
        assert(i == na && j == nb);
        let ghost old_out = out@;
        out.push(cur);
        let r = Self { intervals: out };
        proof {
            assert forall|k: int, m: int| 0 <= k < m < out@.len() implies (#[trigger] out@[k]).1 + 1 < (#[trigger] out@[m]).0 by {
                if m == out@.len() - 1 && k < m - 1 {
                    assert(old_out[k].1 + 1 < old_out[old_out.len() - 1].0);
                }
            }
            assert(a_ivs.take(na as int) =~= a_ivs);
            assert(b_ivs.take(nb as int) =~= b_ivs);
            assert forall|x: u8| r@.contains(x) == (self@.contains(x) || other@.contains(x)) by {
                lemma_ivs_push(old_out, cur, x);
                assert((ivs_contain(old_out, x) || in_interval(cur, x)) == (ivs_contain(a_ivs.take(i as int), x) || ivs_contain(b_ivs.take(j as int), x)));
            }
            assert(r@ =~= self@.union(other@));
        }
        r
    }
}


/// Lexicographic order on interval sequences (the order of `Vec<(u8, u8)>`).
pub open spec fn ivs_less(a: Seq<(u8, u8)>, b: Seq<(u8, u8)>) -> bool
    decreases a.len(),
{
    if a.len() == 0 {
        b.len() > 0
    } else if b.len() == 0 {
        false
    } else if a[0] != b[0] {
        a[0].0 < b[0].0 || (a[0].0 == b[0].0 && a[0].1 < b[0].1)
    } else {
        ivs_less(a.drop_first(), b.drop_first())
    }
}

impl CharSet {
    /// An independent copy of the set.
    pub fn duplicate(&self) -> (r: Self)
        ensures
            r.spec_intervals() == self.spec_intervals(),
            r@ == self@,
            r.wf() == self.wf(),
    {
        let mut v: Vec<(u8, u8)> = Vec::new();
        let mut i = 0usize;
        while i < self.intervals.len()
            invariant
                i <= self.intervals.len(),
                v@ == self.intervals@.take(i as int),
            decreases self.intervals.len() - i,
        {
            v.push(self.intervals[i]);
            i += 1;
            assert(v@ =~= self.intervals@.take(i as int));
        }
        assert(v@ =~= self.intervals@);
        Self { intervals: v }
    }

    /// Whether both sets hold the same bytes.
    pub fn equals(&self, other: &Self) -> (r: bool)
        requires
            self.wf(),
            other.wf(),
        ensures
            r == (self@ == other@),
            r == (self.spec_intervals() == other.spec_intervals()),
    {
        let n = self.intervals.len();
        if n != other.intervals.len() {
            proof {
                if self@ == other@ {
                    Self::lemma_canonical(self, other);
                }
            }
            return false;
        }
        let mut i = 0usize;
        while i < n
            invariant
                self.wf(),
                other.wf(),
                n == self.intervals.len(),
                n == other.intervals.len(),
                i <= n,
                forall|k: int| 0 <= k < i ==> self.intervals@[k] == other.intervals@[k],
            decreases n - i,
        {
            let a = self.intervals[i];
            let b = other.intervals[i];
            if a.0 != b.0 || a.1 != b.1 {
                proof {
                    if self@ == other@ {
                        Self::lemma_canonical(self, other);
                        assert(self.intervals@[i as int] == other.intervals@[i as int]);
                    }
                }
                return false;
            }
            i += 1;
        }
        assert(self.intervals@ =~= other.intervals@);
        assert(self@ =~= other@);
        true
    }

    /// Three-way comparison of the interval sequences in lexicographic order:
    /// `-1` when `self` comes first, `0` when equal, `1` when `other` comes first.
    pub fn compare(&self, other: &Self) -> (r: i8)
        ensures
            -1 <= r <= 1,
            r == 0 <==> self.spec_intervals() == other.spec_intervals(),
            r == -1 <==> ivs_less(self.spec_intervals(), other.spec_intervals()),
            r == 1 <==> ivs_less(other.spec_intervals(), self.spec_intervals()),
    {
        let na = self.intervals.len();
        let nb = other.intervals.len();
        let mut i = 0usize;
        let ghost a = self.intervals@;
        let ghost b = other.intervals@;
        assert(a.skip(0) =~= a);
        assert(b.skip(0) =~= b);
        while i < na && i < nb
            invariant
                a == self.intervals@,
                b == other.intervals@,
                na == a.len(),
                nb == b.len(),
                i <= na,
                i <= nb,
                forall|k: int| 0 <= k < i ==> a[k] == b[k],
                ivs_less(a, b) == ivs_less(a.skip(i as int), b.skip(i as int)),
                ivs_less(b, a) == ivs_less(b.skip(i as int), a.skip(i as int)),
            decreases na - i,
        {
            let x = self.intervals[i];
            let y = other.intervals[i];
            assert(a.skip(i as int)[0] == x);
            assert(b.skip(i as int)[0] == y);
            if x.0 < y.0 || (x.0 == y.0 && x.1 < y.1) {
                return -1;
            }
            if y.0 < x.0 || (y.0 == x.0 && y.1 < x.1) {
                return 1;
            }
            assert(a.skip(i as int).drop_first() =~= a.skip(i + 1));
            assert(b.skip(i as int).drop_first() =~= b.skip(i + 1));
            i += 1;
        }
        if na < nb {
            assert(a.skip(i as int).len() == 0);
            -1
        } else if nb < na {
            assert(b.skip(i as int).len() == 0);
            1
        } else {
            assert(a =~= b);
            assert(a.skip(i as int).len() == 0);
            0
        }
    }

    /// An iterator over the bytes of the set, in increasing order.
    pub fn chars(&self) -> (r: Chars<'_>)
        requires
            self.wf(),
        ensures
            r.wf(),
            r.set() == self@,
            r.position() == 0,
    {
        Chars { set: self, index: 0, pos: 0 }
    }
}

/// Iterates over the bytes of a `CharSet` in increasing order.
pub struct Chars<'a> {
    set: &'a CharSet,
    index: usize,
    pos: u16,
}

impl<'a> Chars<'a> {
    /// The iterator's invariant.
    pub closed spec fn wf(&self) -> bool {
        &&& self.set.wf()
        &&& self.pos <= 256
        &&& self.index <= self.set.intervals@.len()
        &&& forall|i: int| 0 <= i < self.index ==> (#[trigger] self.set.intervals@[i]).1 < self.pos
    }

    /// The set being iterated.
    pub closed spec fn set(&self) -> Set<u8> {
        self.set@
    }

    /// The least byte that may still be produced.
    pub closed spec fn position(&self) -> int {
        self.pos as int
    }

    /// The next byte of the set at or above the current position.
    pub fn next(&mut self) -> (r: Option<u8>)
        requires
            old(self).wf(),
        ensures
            final(self).wf(),
            final(self).set() == old(self).set(),
            match r {
                Some(x) => {
                    &&& old(self).set().contains(x)
                    &&& old(self).position() <= x
                    &&& forall|y: u8| #[trigger]
                        old(self).set().contains(y) && old(self).position() <= y ==> x <= y
                    &&& final(self).position() == x + 1
                },
                None => forall|y: u8| #[trigger]
                    old(self).set().contains(y) ==> y < old(self).position(),
            },
    {
        let ghost ivs = self.set.intervals@;
        let n = self.set.intervals.len();
        while self.index < n && (self.set.intervals[self.index].1 as u16) < self.pos
            invariant
                ivs == self.set.intervals@,
                n == ivs.len(),
                self.set == old(self).set,
                self.pos == old(self).pos,
                self.wf(),
            decreases n - self.index,
        {
            self.index = self.index + 1;
        }
        if self.index == n {
            proof {
                assert forall|y: u8| #[trigger] old(self).set().contains(y) implies y < old(self).position() by {
                    let p = choose|p: int| 0 <= p < ivs.len() && #[trigger] in_interval(ivs[p], y);
                }
            }
            return None;
        }
        let iv = self.set.intervals[self.index];
        let x: u8 = if (iv.0 as u16) < self.pos { self.pos as u8 } else { iv.0 };
        proof {
            assert(in_interval(ivs[self.index as int], x));
            assert(ivs_contain(ivs, x));
            assert forall|y: u8| #[trigger]
                old(self).set().contains(y) && old(self).position() <= y implies x <= y by {
                let p = choose|p: int| 0 <= p < ivs.len() && #[trigger] in_interval(ivs[p], y);
                if p > self.index {
                    assert(ivs[self.index as int].1 + 1 < ivs[p].0);
                }
            }
        }
        self.pos = x as u16 + 1;
        proof {
            assert forall|i: int| 0 <= i < self.index implies (#[trigger] self.set.intervals@[i]).1 < self.pos by {
            }
        }
        Some(x)
    }
}


impl CharSet {
    /// Sets with the same intervals hold the same bytes and are equally valid.
    pub proof fn lemma_same_intervals(a: &CharSet, b: &CharSet)
        requires
            a.spec_intervals() == b.spec_intervals(),
        ensures
            a@ == b@,
            a.wf() == b.wf(),
    {
    }
}

} // verus!
