//! Regular expressions over bytes, built by smart constructors that
//! simplify as they go (units and zeros dropped, nested operators
//! flattened, set operands merged), with Brzozowski derivatives. Each
//! constructor states the language of its result and, for the simplifying
//! cases, the shape of the result.

use vstd::prelude::*;
use vstd::string::StringSliceAdditionalSpecFns;
use crate::charset::{CharSet, ivs_less};

verus! {

/// The top-level operator of a regular expression.
pub enum Operator {
    /// Matches nothing.
    Void,
    /// Matches the empty string only.
    Epsilon,
    /// Matches one byte of a set (`RegEx::set` builds none for the empty set).
    Class(CharSet),
    /// Concatenation of at least two expressions.
    Cat(Vec<RegEx>),
    /// Zero or more repetitions.
    Star(RegEx),
    /// Union of at least two expressions.
    Or(Vec<RegEx>),
    /// Intersection of at least two expressions.
    And(Vec<RegEx>),
    /// Complement.
    Not(RegEx),
}

/// A regular expression.
pub struct RegEx {
    pub root: Box<Operator>,
}

/// The strings matched by `r`.
pub open spec fn lang(r: RegEx, w: Seq<u8>) -> bool
    decreases r, w.len(), w.len() + 1,
{
    match *r.root {
        Operator::Void => false,
        Operator::Epsilon => w.len() == 0,
        Operator::Class(cs) => w.len() == 1 && cs@.contains(w[0]),
        Operator::Cat(v) => lang_seq(v@, w),
        Operator::Star(_) => w.len() == 0 || star_split(r, w, w.len() as int),
        Operator::Or(v) => lang_any(v@, w),
        Operator::And(v) => lang_all(v@, w),
        Operator::Not(c) => !lang(c, w),
    }
}

/// For a starred `r`, some `k` in `1..=j` splits `w` into a non-empty prefix
/// matched by the operand and a rest matched by `r` again.
pub open spec fn star_split(r: RegEx, w: Seq<u8>, j: int) -> bool
    decreases r, w.len(), j,
{
    match *r.root {
        Operator::Star(c) => if j < 1 || j > w.len() {
            false
        } else {
            (lang(c, w.take(j)) && lang(r, w.skip(j))) || (j > 1 && star_split(r, w, j - 1))
        },
        _ => false,
    }
}

/// The strings matched by the concatenation of the expressions in `s`.
pub open spec fn lang_seq(s: Seq<RegEx>, w: Seq<u8>) -> bool
    decreases s, w.len(), w.len() + 1,
{
    if s.len() == 0 {
        w.len() == 0
    } else {
        cat_split(s, w, w.len() as int)
    }
}

/// Some `k` in `0..=j` splits `w` into a prefix matched by `s[0]` and a rest
/// matched by the concatenation of the other expressions.
pub open spec fn cat_split(s: Seq<RegEx>, w: Seq<u8>, j: int) -> bool
    decreases s, w.len(), j,
{
    if s.len() == 0 || j < 0 || j > w.len() {
        false
    } else {
        (lang(s[0], w.take(j)) && lang_seq(s.drop_first(), w.skip(j))) || (j > 0 && cat_split(s, w, j - 1))
    }
}

/// Some expression of `s` matches `w`.
pub open spec fn lang_any(s: Seq<RegEx>, w: Seq<u8>) -> bool
    decreases s, w.len(), w.len() + 1,
{
    s.len() > 0 && (lang(s[0], w) || lang_any(s.drop_first(), w))
}

/// Every expression of `s` matches `w`.
pub open spec fn lang_all(s: Seq<RegEx>, w: Seq<u8>) -> bool
    decreases s, w.len(), w.len() + 1,
{
    s.len() == 0 || (lang(s[0], w) && lang_all(s.drop_first(), w))
}

/// `w` splits into a string matched by `r` followed by one matched by `s`.
pub open spec fn cat_lang(r: RegEx, s: RegEx, w: Seq<u8>) -> bool {
    exists|k: int| 0 <= k <= w.len() && #[trigger] lang(r, w.take(k)) && lang(s, w.skip(k))
}

/// `w` splits into zero or more non-empty strings each matched by `r`.
pub open spec fn star_lang(r: RegEx, w: Seq<u8>) -> bool
    decreases w.len(),
{
    w.len() == 0 || exists|k: int|
        1 <= k <= w.len() && #[trigger] lang(r, w.take(k)) && star_lang(r, w.skip(k))
}

/// Structural validity: sets are well formed; concatenations,
/// unions and intersections have at least two operands.
pub open spec fn wf(r: RegEx) -> bool
    decreases r, 0nat,
{
    match *r.root {
        Operator::Void => true,
        Operator::Epsilon => true,
        Operator::Class(cs) => cs.wf(),
        Operator::Cat(v) => v@.len() >= 2 && all_wf(v@),
        Operator::Star(c) => wf(c),
        Operator::Or(v) => v@.len() >= 2 && all_wf(v@),
        Operator::And(v) => v@.len() >= 2 && all_wf(v@),
        Operator::Not(c) => wf(c),
    }
}

/// Every expression of `s` is valid.
pub open spec fn all_wf(s: Seq<RegEx>) -> bool
    decreases s, 0nat,
{
    s.len() == 0 || (wf(s[0]) && all_wf(s.drop_first()))
}

/// `r` holds no complement operator.
pub open spec fn not_free(r: RegEx) -> bool
    decreases r, 0nat,
{
    match *r.root {
        Operator::Cat(v) => all_not_free(v@),
        Operator::Star(c) => not_free(c),
        Operator::Or(v) => all_not_free(v@),
        Operator::And(v) => all_not_free(v@),
        Operator::Not(c) => false,
        _ => true,
    }
}

/// No expression of `s` holds a complement operator.
pub open spec fn all_not_free(s: Seq<RegEx>) -> bool
    decreases s, 0nat,
{
    s.len() == 0 || (not_free(s[0]) && all_not_free(s.drop_first()))
}

/// Two expressions match the same strings.
pub open spec fn equivalent(r: RegEx, s: RegEx) -> bool {
    forall|w: Seq<u8>| #[trigger] lang(r, w) == lang(s, w)
}

/// `lang_any` is existential quantification over the sequence.
pub proof fn lemma_lang_any(s: Seq<RegEx>, w: Seq<u8>)
    ensures
        lang_any(s, w) == exists|i: int| 0 <= i < s.len() && #[trigger] lang(s[i], w),
    decreases s.len(),
{
    if s.len() > 0 {
        lemma_lang_any(s.drop_first(), w);
        assert(lang_any(s, w) == (lang(s[0], w) || lang_any(s.drop_first(), w)));
        if lang(s[0], w) {
            assert(exists|i: int| 0 <= i < s.len() && #[trigger] lang(s[i], w));
        }
        if lang_any(s.drop_first(), w) {
            let i = choose|i: int| 0 <= i < s.drop_first().len() && #[trigger] lang(s.drop_first()[i], w);
            assert(lang(s[i + 1], w));
        }
        if exists|i: int| 0 <= i < s.len() && #[trigger] lang(s[i], w) {
            let i = choose|i: int| 0 <= i < s.len() && #[trigger] lang(s[i], w);
            if i > 0 {
                assert(lang(s.drop_first()[i - 1], w));
            }
        }
    }
}

/// `lang_all` is universal quantification over the sequence.
pub proof fn lemma_lang_all(s: Seq<RegEx>, w: Seq<u8>)
    ensures
        lang_all(s, w) == forall|i: int| 0 <= i < s.len() ==> #[trigger] lang(s[i], w),
    decreases s.len(),
{
    if s.len() > 0 {
        lemma_lang_all(s.drop_first(), w);
        assert(lang_all(s, w) == (lang(s[0], w) && lang_all(s.drop_first(), w)));
        if forall|i: int| 0 <= i < s.len() ==> #[trigger] lang(s[i], w) {
            assert forall|i: int| 0 <= i < s.drop_first().len() implies #[trigger] lang(s.drop_first()[i], w) by {
                assert(lang(s[i + 1], w));
            }
        }
        if lang_all(s, w) {
            assert forall|i: int| 0 <= i < s.len() implies #[trigger] lang(s[i], w) by {
                if i > 0 {
                    assert(lang(s.drop_first()[i - 1], w));
                }
            }
        }
    }
}

/// `all_wf` is universal quantification over the sequence.
pub proof fn lemma_all_wf(s: Seq<RegEx>)
    ensures
        all_wf(s) == forall|i: int| 0 <= i < s.len() ==> #[trigger] wf(s[i]),
    decreases s.len(),
{
    if s.len() > 0 {
        lemma_all_wf(s.drop_first());
        assert(all_wf(s) == (wf(s[0]) && all_wf(s.drop_first())));
        if forall|i: int| 0 <= i < s.len() ==> #[trigger] wf(s[i]) {
            assert forall|i: int| 0 <= i < s.drop_first().len() implies #[trigger] wf(s.drop_first()[i]) by {
                assert(wf(s[i + 1]));
            }
        }
        if all_wf(s) {
            assert forall|i: int| 0 <= i < s.len() implies #[trigger] wf(s[i]) by {
                if i > 0 {
                    assert(wf(s.drop_first()[i - 1]));
                }
            }
        }
    }
}

/// `all_not_free` is universal quantification over the sequence.
pub proof fn lemma_all_not_free(s: Seq<RegEx>)
    ensures
        all_not_free(s) == forall|i: int| 0 <= i < s.len() ==> #[trigger] not_free(s[i]),
    decreases s.len(),
{
    if s.len() > 0 {
        lemma_all_not_free(s.drop_first());
        assert(all_not_free(s) == (not_free(s[0]) && all_not_free(s.drop_first())));
        if forall|i: int| 0 <= i < s.len() ==> #[trigger] not_free(s[i]) {
            assert forall|i: int| 0 <= i < s.drop_first().len() implies #[trigger] not_free(s.drop_first()[i]) by {
                assert(not_free(s[i + 1]));
            }
        }
        if all_not_free(s) {
            assert forall|i: int| 0 <= i < s.len() implies #[trigger] not_free(s[i]) by {
                if i > 0 {
                    assert(not_free(s.drop_first()[i - 1]));
                }
            }
        }
    }
}

/// `cat_split` is existential quantification over split points up to `j`.
pub proof fn lemma_cat_split(s: Seq<RegEx>, w: Seq<u8>, j: int)
    requires
        s.len() > 0,
        0 <= j <= w.len(),
    ensures
        cat_split(s, w, j) == exists|k: int|
            0 <= k <= j && #[trigger] lang(s[0], w.take(k)) && lang_seq(s.drop_first(), w.skip(k)),
    decreases j,
{
    if j > 0 {
        lemma_cat_split(s, w, j - 1);
    }
    assert(cat_split(s, w, j) == ((lang(s[0], w.take(j)) && lang_seq(s.drop_first(), w.skip(j))) || (j > 0 && cat_split(s, w, j - 1))));
    if lang(s[0], w.take(j)) && lang_seq(s.drop_first(), w.skip(j)) {
        assert(exists|k: int| 0 <= k <= j && #[trigger] lang(s[0], w.take(k)) && lang_seq(s.drop_first(), w.skip(k)));
    }
    if exists|k: int| 0 <= k <= j && #[trigger] lang(s[0], w.take(k)) && lang_seq(s.drop_first(), w.skip(k)) {
        let k = choose|k: int| 0 <= k <= j && #[trigger] lang(s[0], w.take(k)) && lang_seq(s.drop_first(), w.skip(k));
        if k < j {
            assert(lang(s[0], w.take(k)) && lang_seq(s.drop_first(), w.skip(k)));
        }
    }
}

/// `lang_seq` on a non-empty sequence is existential quantification over split points.
pub proof fn lemma_lang_seq(s: Seq<RegEx>, w: Seq<u8>)
    requires
        s.len() > 0,
    ensures
        lang_seq(s, w) == exists|k: int|
            0 <= k <= w.len() && #[trigger] lang(s[0], w.take(k)) && lang_seq(s.drop_first(), w.skip(k)),
{
    lemma_cat_split(s, w, w.len() as int);
}

/// Introduction rule for `lang_seq`: a split point witnesses the concatenation.
pub proof fn lemma_lang_seq_intro(s: Seq<RegEx>, w: Seq<u8>, k: int)
    requires
        s.len() > 0,
        0 <= k <= w.len(),
        lang(s[0], w.take(k)),
        lang_seq(s.drop_first(), w.skip(k)),
    ensures
        lang_seq(s, w),
{
    lemma_lang_seq(s, w);
}

/// Elimination rule for `lang_seq` on a non-empty sequence.
pub proof fn lemma_lang_seq_elim(s: Seq<RegEx>, w: Seq<u8>) -> (k: int)
    requires
        s.len() > 0,
        lang_seq(s, w),
    ensures
        0 <= k <= w.len(),
        lang(s[0], w.take(k)),
        lang_seq(s.drop_first(), w.skip(k)),
{
    lemma_lang_seq(s, w);
    choose|k: int| 0 <= k <= w.len() && #[trigger] lang(s[0], w.take(k)) && lang_seq(s.drop_first(), w.skip(k))
}

/// `star_split` is existential quantification over non-empty prefixes up to `j`.
pub proof fn lemma_star_split(r: RegEx, c: RegEx, w: Seq<u8>, j: int)
    requires
        *r.root == Operator::Star(c),
        1 <= j <= w.len(),
    ensures
        star_split(r, w, j) == exists|k: int| 1 <= k <= j && #[trigger] lang(c, w.take(k)) && lang(r, w.skip(k)),
    decreases j,
{
    if j > 1 {
        lemma_star_split(r, c, w, j - 1);
    }
    assert(star_split(r, w, j) == ((lang(c, w.take(j)) && lang(r, w.skip(j))) || (j > 1 && star_split(r, w, j - 1))));
    if lang(c, w.take(j)) && lang(r, w.skip(j)) {
        assert(exists|k: int| 1 <= k <= j && #[trigger] lang(c, w.take(k)) && lang(r, w.skip(k)));
    }
    if exists|k: int| 1 <= k <= j && #[trigger] lang(c, w.take(k)) && lang(r, w.skip(k)) {
        let k = choose|k: int| 1 <= k <= j && #[trigger] lang(c, w.take(k)) && lang(r, w.skip(k));
        if k < j {
            assert(lang(c, w.take(k)) && lang(r, w.skip(k)));
        }
    }
}

/// A starred expression matches exactly the strings of `star_lang` of its operand.
pub proof fn lemma_star(r: RegEx, c: RegEx, w: Seq<u8>)
    requires
        *r.root == Operator::Star(c),
    ensures
        lang(r, w) == star_lang(c, w),
    decreases w.len(),
{
    if w.len() > 0 {
        lemma_star_split(r, c, w, w.len() as int);
        if lang(r, w) {
            let k = choose|k: int| 1 <= k <= w.len() && #[trigger] lang(c, w.take(k)) && lang(r, w.skip(k));
            lemma_star(r, c, w.skip(k));
        }
        if star_lang(c, w) {
            let k = choose|k: int| 1 <= k <= w.len() && #[trigger] lang(c, w.take(k)) && star_lang(c, w.skip(k));
            lemma_star(r, c, w.skip(k));
            assert(lang(c, w.take(k)) && lang(r, w.skip(k)));
        }
    }
}

/// The empty string matched by `r`, computed structurally.
pub open spec fn nullable(r: RegEx) -> bool
    decreases r, 0nat,
{
    match *r.root {
        Operator::Void => false,
        Operator::Epsilon => true,
        Operator::Class(_) => false,
        Operator::Cat(v) => nullable_all(v@),
        Operator::Star(_) => true,
        Operator::Or(v) => nullable_any(v@),
        Operator::And(v) => nullable_all(v@),
        Operator::Not(c) => !nullable(c),
    }
}

/// Every expression of `s` is nullable.
pub open spec fn nullable_all(s: Seq<RegEx>) -> bool
    decreases s, 0nat,
{
    s.len() == 0 || (nullable(s[0]) && nullable_all(s.drop_first()))
}

/// Some expression of `s` is nullable.
pub open spec fn nullable_any(s: Seq<RegEx>) -> bool
    decreases s, 0nat,
{
    s.len() > 0 && (nullable(s[0]) || nullable_any(s.drop_first()))
}

/// `nullable_all` and `nullable_any` are quantifications over the sequence.
pub proof fn lemma_nullable_quant(s: Seq<RegEx>)
    ensures
        nullable_all(s) == forall|i: int| 0 <= i < s.len() ==> #[trigger] nullable(s[i]),
        nullable_any(s) == exists|i: int| 0 <= i < s.len() && #[trigger] nullable(s[i]),
    decreases s.len(),
{
    if s.len() > 0 {
        lemma_nullable_quant(s.drop_first());
        assert(nullable_all(s) == (nullable(s[0]) && nullable_all(s.drop_first())));
        assert(nullable_any(s) == (nullable(s[0]) || nullable_any(s.drop_first())));
        if nullable(s[0]) {
            assert(exists|i: int| 0 <= i < s.len() && #[trigger] nullable(s[i]));
        }
        if nullable_any(s.drop_first()) {
            let i = choose|i: int| 0 <= i < s.drop_first().len() && #[trigger] nullable(s.drop_first()[i]);
            assert(nullable(s[i + 1]));
        }
        if exists|i: int| 0 <= i < s.len() && #[trigger] nullable(s[i]) {
            let i = choose|i: int| 0 <= i < s.len() && #[trigger] nullable(s[i]);
            if i > 0 {
                assert(nullable(s.drop_first()[i - 1]));
            }
        }
        if forall|i: int| 0 <= i < s.len() ==> #[trigger] nullable(s[i]) {
            assert(nullable(s[0]));
            assert forall|i: int| 0 <= i < s.drop_first().len() implies #[trigger] nullable(s.drop_first()[i]) by {
                assert(nullable(s[i + 1]));
            }
        }
        if nullable_all(s) {
            assert forall|i: int| 0 <= i < s.len() implies #[trigger] nullable(s[i]) by {
                if i > 0 {
                    assert(nullable(s.drop_first()[i - 1]));
                }
            }
        }
    }
}

/// The structural nullability test agrees with the language.
pub proof fn lemma_nullable(r: RegEx)
    ensures
        nullable(r) == lang(r, Seq::empty()),
    decreases r, 0nat,
{
    match *r.root {
        Operator::Cat(v) => {
            lemma_nullable_seq(v@);
        },
        Operator::Or(v) => {
            lemma_nullable_seq(v@);
        },
        Operator::And(v) => {
            lemma_nullable_seq(v@);
        },
        Operator::Not(c) => {
            lemma_nullable(c);
        },
        _ => {},
    }
}

/// Nullability of sequences agrees with the languages of their elements.
pub proof fn lemma_nullable_seq(s: Seq<RegEx>)
    ensures
        nullable_all(s) == lang_seq(s, Seq::empty()),
        nullable_all(s) == lang_all(s, Seq::empty()),
        nullable_any(s) == lang_any(s, Seq::empty()),
    decreases s, 0nat,
{
    let e = Seq::<u8>::empty();
    if s.len() > 0 {
        lemma_nullable(s[0]);
        lemma_nullable_seq(s.drop_first());
        assert(e.take(0) =~= e);
        assert(e.skip(0) =~= e);
        lemma_lang_seq(s, e);
    }
}

/// Structural equality (sets compared by their intervals).
pub open spec fn same(a: RegEx, b: RegEx) -> bool
    decreases a, 0nat,
{
    match (*a.root, *b.root) {
        (Operator::Void, Operator::Void) => true,
        (Operator::Epsilon, Operator::Epsilon) => true,
        (Operator::Class(x), Operator::Class(y)) => x.spec_intervals() == y.spec_intervals(),
        (Operator::Cat(v), Operator::Cat(u)) => same_seq(v@, u@),
        (Operator::Star(c), Operator::Star(d)) => same(c, d),
        (Operator::Or(v), Operator::Or(u)) => same_seq(v@, u@),
        (Operator::And(v), Operator::And(u)) => same_seq(v@, u@),
        (Operator::Not(c), Operator::Not(d)) => same(c, d),
        _ => false,
    }
}

/// Element-wise structural equality of sequences.
pub open spec fn same_seq(s: Seq<RegEx>, t: Seq<RegEx>) -> bool
    decreases s, 0nat,
{
    s.len() == t.len() && (s.len() == 0 || (same(s[0], t[0]) && same_seq(s.drop_first(), t.drop_first())))
}

/// `same_seq` is element-wise `same`.
pub proof fn lemma_same_seq_quant(s: Seq<RegEx>, t: Seq<RegEx>)
    ensures
        same_seq(s, t) == (s.len() == t.len() && forall|i: int| 0 <= i < s.len() ==> #[trigger] same(s[i], t[i])),
    decreases s.len(),
{
    if s.len() > 0 && s.len() == t.len() {
        lemma_same_seq_quant(s.drop_first(), t.drop_first());
        assert(same_seq(s, t) == (same(s[0], t[0]) && same_seq(s.drop_first(), t.drop_first())));
        if forall|i: int| 0 <= i < s.len() ==> #[trigger] same(s[i], t[i]) {
            assert(same(s[0], t[0]));
            assert forall|i: int| 0 <= i < s.drop_first().len() implies #[trigger] same(s.drop_first()[i], t.drop_first()[i]) by {
                assert(same(s[i + 1], t[i + 1]));
            }
        }
        if same_seq(s, t) {
            assert forall|i: int| 0 <= i < s.len() implies #[trigger] same(s[i], t[i]) by {
                if i > 0 {
                    assert(same(s.drop_first()[i - 1], t.drop_first()[i - 1]));
                }
            }
        }
    }
}

/// Concatenation respects element-wise equivalence.
pub proof fn lemma_lang_seq_congr(s: Seq<RegEx>, t: Seq<RegEx>, w: Seq<u8>)
    requires
        s.len() == t.len(),
        forall|i: int| 0 <= i < s.len() ==> #[trigger] equivalent(s[i], t[i]),
    ensures
        lang_seq(s, w) == lang_seq(t, w),
    decreases s.len(),
{
    if s.len() > 0 {
        lemma_lang_seq(s, w);
        lemma_lang_seq(t, w);
        assert(equivalent(s[0], t[0]));
        assert forall|i: int| 0 <= i < s.drop_first().len() implies #[trigger] equivalent(s.drop_first()[i], t.drop_first()[i]) by {
            assert(equivalent(s[i + 1], t[i + 1]));
        }
        if lang_seq(s, w) {
            let k = choose|k: int| 0 <= k <= w.len() && #[trigger] lang(s[0], w.take(k)) && lang_seq(s.drop_first(), w.skip(k));
            lemma_lang_seq_congr(s.drop_first(), t.drop_first(), w.skip(k));
            assert(lang(t[0], w.take(k)));
        }
        if lang_seq(t, w) {
            let k = choose|k: int| 0 <= k <= w.len() && #[trigger] lang(t[0], w.take(k)) && lang_seq(t.drop_first(), w.skip(k));
            lemma_lang_seq_congr(s.drop_first(), t.drop_first(), w.skip(k));
            assert(lang(s[0], w.take(k)));
        }
    }
}

/// Repetition respects equivalence.
pub proof fn lemma_star_lang_congr(c: RegEx, d: RegEx, w: Seq<u8>)
    requires
        equivalent(c, d),
    ensures
        star_lang(c, w) == star_lang(d, w),
    decreases w.len(),
{
    if w.len() > 0 {
        if star_lang(c, w) {
            let k = choose|k: int| 1 <= k <= w.len() && #[trigger] lang(c, w.take(k)) && star_lang(c, w.skip(k));
            lemma_star_lang_congr(c, d, w.skip(k));
            assert(lang(d, w.take(k)));
        }
        if star_lang(d, w) {
            let k = choose|k: int| 1 <= k <= w.len() && #[trigger] lang(d, w.take(k)) && star_lang(d, w.skip(k));
            lemma_star_lang_congr(c, d, w.skip(k));
            assert(lang(c, w.take(k)));
        }
    }
}

/// Structurally equal expressions are equivalent, equally valid and
/// equally free of complements.
pub proof fn lemma_same(a: RegEx, b: RegEx)
    requires
        same(a, b),
    ensures
        equivalent(a, b),
        wf(a) == wf(b),
        not_free(a) == not_free(b),
        nullable(a) == nullable(b),
    decreases a, 0nat,
{
    match (*a.root, *b.root) {
        (Operator::Class(x), Operator::Class(y)) => {
            CharSet::lemma_same_intervals(&x, &y);
        },
        (Operator::Cat(v), Operator::Cat(u)) => {
            lemma_same_seq(v@, u@);
            assert forall|w: Seq<u8>| #[trigger] lang(a, w) == lang(b, w) by {
                lemma_lang_seq_congr(v@, u@, w);
            }
        },
        (Operator::Star(c), Operator::Star(d)) => {
            lemma_same(c, d);
            assert forall|w: Seq<u8>| #[trigger] lang(a, w) == lang(b, w) by {
                lemma_star(a, c, w);
                lemma_star(b, d, w);
                lemma_star_lang_congr(c, d, w);
            }
        },
        (Operator::Or(v), Operator::Or(u)) => {
            lemma_same_seq(v@, u@);
            assert forall|w: Seq<u8>| #[trigger] lang(a, w) == lang(b, w) by {
                lemma_lang_any(v@, w);
                lemma_lang_any(u@, w);
                if lang(a, w) {
                    let i = choose|i: int| 0 <= i < v@.len() && #[trigger] lang(v@[i], w);
                    assert(equivalent(v@[i], u@[i]));
                    assert(lang(u@[i], w));
                }
                if lang(b, w) {
                    let i = choose|i: int| 0 <= i < u@.len() && #[trigger] lang(u@[i], w);
                    assert(equivalent(v@[i], u@[i]));
                    assert(lang(v@[i], w));
                }
            }
        },
        (Operator::And(v), Operator::And(u)) => {
            lemma_same_seq(v@, u@);
            assert forall|w: Seq<u8>| #[trigger] lang(a, w) == lang(b, w) by {
                lemma_lang_all(v@, w);
                lemma_lang_all(u@, w);
                if lang(a, w) {
                    assert forall|i: int| 0 <= i < u@.len() implies #[trigger] lang(u@[i], w) by {
                        assert(equivalent(v@[i], u@[i]));
                        assert(lang(v@[i], w));
                    }
                }
                if lang(b, w) {
                    assert forall|i: int| 0 <= i < v@.len() implies #[trigger] lang(v@[i], w) by {
                        assert(equivalent(v@[i], u@[i]));
                        assert(lang(u@[i], w));
                    }
                }
            }
        },
        (Operator::Not(c), Operator::Not(d)) => {
            lemma_same(c, d);
            assert forall|w: Seq<u8>| #[trigger] lang(a, w) == lang(b, w) by {
                assert(lang(c, w) == lang(d, w));
            }
        },
        _ => {},
    }
}

/// Element-wise structural equality gives element-wise equivalence, and
/// preserves sequence validity, freedom from complements and nullability.
pub proof fn lemma_same_seq(s: Seq<RegEx>, t: Seq<RegEx>)
    requires
        same_seq(s, t),
    ensures
        s.len() == t.len(),
        forall|i: int| 0 <= i < s.len() ==> #[trigger] equivalent(s[i], t[i]),
        all_wf(s) == all_wf(t),
        all_not_free(s) == all_not_free(t),
        nullable_all(s) == nullable_all(t),
        nullable_any(s) == nullable_any(t),
    decreases s, 0nat,
{
    if s.len() > 0 {
        lemma_same(s[0], t[0]);
        lemma_same_seq(s.drop_first(), t.drop_first());
        assert forall|i: int| 0 <= i < s.len() implies #[trigger] equivalent(s[i], t[i]) by {
            if i > 0 {
                assert(equivalent(s.drop_first()[i - 1], t.drop_first()[i - 1]));
            }
        }
    }
}

/// Structural equality is symmetric and transitive.
pub proof fn lemma_same_equiv(a: RegEx, b: RegEx, c: RegEx)
    ensures
        same(a, b) ==> same(b, a),
        same(a, b) && same(b, c) ==> same(a, c),
    decreases a, 0nat,
{
    match (*a.root, *b.root, *c.root) {
        (Operator::Cat(x), Operator::Cat(y), Operator::Cat(z)) => lemma_same_seq_equiv(x@, y@, z@),
        (Operator::Or(x), Operator::Or(y), Operator::Or(z)) => lemma_same_seq_equiv(x@, y@, z@),
        (Operator::And(x), Operator::And(y), Operator::And(z)) => lemma_same_seq_equiv(x@, y@, z@),
        (Operator::Cat(x), Operator::Cat(y), _) => lemma_same_seq_equiv(x@, y@, y@),
        (Operator::Or(x), Operator::Or(y), _) => lemma_same_seq_equiv(x@, y@, y@),
        (Operator::And(x), Operator::And(y), _) => lemma_same_seq_equiv(x@, y@, y@),
        (Operator::Star(x), Operator::Star(y), Operator::Star(z)) => lemma_same_equiv(x, y, z),
        (Operator::Not(x), Operator::Not(y), Operator::Not(z)) => lemma_same_equiv(x, y, z),
        (Operator::Star(x), Operator::Star(y), _) => lemma_same_equiv(x, y, y),
        (Operator::Not(x), Operator::Not(y), _) => lemma_same_equiv(x, y, y),
        _ => {},
    }
}

/// Element-wise structural equality is symmetric and transitive.
pub proof fn lemma_same_seq_equiv(s: Seq<RegEx>, t: Seq<RegEx>, u: Seq<RegEx>)
    ensures
        same_seq(s, t) ==> same_seq(t, s),
        same_seq(s, t) && same_seq(t, u) ==> same_seq(s, u),
    decreases s, 0nat,
{
    if s.len() > 0 && t.len() > 0 {
        if u.len() > 0 {
            lemma_same_equiv(s[0], t[0], u[0]);
            lemma_same_seq_equiv(s.drop_first(), t.drop_first(), u.drop_first());
        } else {
            lemma_same_equiv(s[0], t[0], t[0]);
            lemma_same_seq_equiv(s.drop_first(), t.drop_first(), t.drop_first());
        }
    }
}

/// The operands of `x` as a concatenation, the empty string counting as
/// none.
pub open spec fn cat_norm(x: RegEx) -> Seq<RegEx> {
    match *x.root {
        Operator::Epsilon => Seq::empty(),
        Operator::Cat(v) => v@,
        _ => seq![x],
    }
}

/// A concatenation has at least two operands.
pub open spec fn cat_ok(x: RegEx) -> bool {
    *x.root is Cat ==> (*x.root)->Cat_0@.len() >= 2
}

proof fn lemma_same_seq_append(a: Seq<RegEx>, b: Seq<RegEx>, c: Seq<RegEx>, d: Seq<RegEx>)
    requires
        same_seq(a, c),
        same_seq(b, d),
    ensures
        same_seq(a + b, c + d),
{
    lemma_same_seq_quant(a, c);
    lemma_same_seq_quant(b, d);
    assert forall|i: int| 0 <= i < (a + b).len() implies #[trigger] same((a + b)[i], (c + d)[i]) by {
        if i < a.len() {
            assert((a + b)[i] == a[i] && (c + d)[i] == c[i]);
        } else {
            assert((a + b)[i] == b[i - a.len()] && (c + d)[i] == d[i - a.len()]);
        }
    }
    lemma_same_seq_quant(a + b, c + d);
}

proof fn lemma_same_norm(x: RegEx, y: RegEx)
    requires
        same(x, y),
    ensures
        same_seq(cat_norm(x), cat_norm(y)),
        (*x.root is Void) == (*y.root is Void),
        cat_ok(x) == cat_ok(y),
{
    match (*x.root, *y.root) {
        (Operator::Cat(v), Operator::Cat(u)) => {
            lemma_same_seq_quant(v@, u@);
        },
        (Operator::Epsilon, Operator::Epsilon) => {},
        _ => {
            assert(same_seq(seq![x], seq![y]) == (same(x, y) && same_seq(seq![x].drop_first(), seq![y].drop_first())));
            assert(seq![x].drop_first().len() == 0);
        },
    }
}

proof fn lemma_cat_post_norm(a: RegEx, b: RegEx, x: RegEx)
    requires
        cat_post(a, b, x),
        cat_ok(a),
        cat_ok(b),
    ensures
        (*x.root is Void) == (*a.root is Void || *b.root is Void),
        !(*x.root is Void) ==> same_seq(cat_norm(x), cat_norm(a) + cat_norm(b)),
        cat_ok(x),
{
    if *b.root is Epsilon {
        lemma_same_norm(x, a);
        assert(cat_norm(a) + cat_norm(b) =~= cat_norm(a));
    } else if *a.root is Epsilon {
        lemma_same_norm(x, b);
        assert(cat_norm(a) + cat_norm(b) =~= cat_norm(b));
    } else if *a.root is Void || *b.root is Void {
    } else {
        assert(cat_operands(a) == cat_norm(a));
        assert(cat_operands(b) == cat_norm(b));
        lemma_same_seq_quant((*x.root)->Cat_0@, cat_operands(a) + cat_operands(b));
    }
}

proof fn lemma_norm_determines(x: RegEx, y: RegEx)
    requires
        !(*x.root is Void),
        !(*y.root is Void),
        cat_ok(x),
        cat_ok(y),
        same_seq(cat_norm(x), cat_norm(y)),
    ensures
        same(x, y),
{
    lemma_same_seq_quant(cat_norm(x), cat_norm(y));
    match (*x.root, *y.root) {
        (Operator::Cat(v), Operator::Cat(u)) => {},
        (Operator::Cat(v), _) => {},
        (_, Operator::Cat(u)) => {},
        (Operator::Epsilon, _) => {},
        (_, Operator::Epsilon) => {},
        _ => {
            assert(same(cat_norm(x)[0], cat_norm(y)[0]));
        },
    }
}

/// Law: concatenation is associative on trees. Where `rs` is what `concat`
/// builds from `r` and `s`, `rs_t` from `rs` and `t`, `st` from `s` and
/// `t`, and `r_st` from `r` and `st`, then `rs_t` and `r_st` are the same
/// tree.
pub proof fn lemma_concat_assoc(r: RegEx, s: RegEx, t: RegEx, rs: RegEx, rs_t: RegEx, st: RegEx, r_st: RegEx)
    requires
        wf(r),
        wf(s),
        wf(t),
        cat_post(r, s, rs),
        cat_post(rs, t, rs_t),
        cat_post(s, t, st),
        cat_post(r, st, r_st),
    ensures
        same(rs_t, r_st),
{
    lemma_cat_post_norm(r, s, rs);
    lemma_cat_post_norm(rs, t, rs_t);
    lemma_cat_post_norm(s, t, st);
    lemma_cat_post_norm(r, st, r_st);
    if !(*rs_t.root is Void) {
        let nr = cat_norm(r);
        let ns = cat_norm(s);
        let nt = cat_norm(t);
        lemma_same_seq_equiv(nr, nr, nr);
        lemma_same_seq_equiv(nt, nt, nt);
        lemma_same_seq_refl(nr);
        lemma_same_seq_refl(nt);
        lemma_same_seq_append(cat_norm(rs), nt, nr + ns, nt);
        lemma_same_seq_append(nr, cat_norm(st), nr, ns + nt);
        assert((nr + ns) + nt =~= nr + (ns + nt));
        lemma_same_seq_equiv(cat_norm(rs_t), cat_norm(rs) + nt, (nr + ns) + nt);
        lemma_same_seq_equiv(cat_norm(r_st), nr + cat_norm(st), nr + (ns + nt));
        lemma_same_seq_equiv(cat_norm(r_st), nr + (ns + nt), nr + (ns + nt));
        lemma_same_seq_equiv(cat_norm(rs_t), nr + (ns + nt), cat_norm(r_st));
        lemma_norm_determines(rs_t, r_st);
    }
}

/// Structural equality is reflexive.
pub proof fn lemma_same_refl(a: RegEx)
    ensures
        same(a, a),
    decreases a, 1nat,
{
    match *a.root {
        Operator::Cat(v) => lemma_same_seq_refl(v@),
        Operator::Or(v) => lemma_same_seq_refl(v@),
        Operator::And(v) => lemma_same_seq_refl(v@),
        Operator::Star(c) => lemma_same_refl(c),
        Operator::Not(c) => lemma_same_refl(c),
        _ => {},
    }
}

/// Element-wise structural equality is reflexive.
pub proof fn lemma_same_seq_refl(s: Seq<RegEx>)
    ensures
        same_seq(s, s),
    decreases s, 1nat,
{
    if s.len() > 0 {
        lemma_same_refl(s[0]);
        lemma_same_seq_refl(s.drop_first());
    }
}

impl RegEx {
    fn new(node: Operator) -> (r: RegEx)
        ensures
            *r.root == node,
    {
        RegEx { root: Box::new(node) }
    }

    /// The expression matching nothing.
    pub fn none() -> (r: Self)
        ensures
            wf(r),
            not_free(r),
            *r.root is Void,
            forall|w: Seq<u8>| !lang(r, w),
    {
        Self::new(Operator::Void)
    }

    /// The expression matching the empty string only.
    pub fn empty() -> (r: Self)
        ensures
            wf(r),
            not_free(r),
            *r.root is Epsilon,
            forall|w: Seq<u8>| lang(r, w) == (w.len() == 0),
    {
        Self::new(Operator::Epsilon)
    }

    /// The expression matching one byte of `a` (nothing when `a` is empty).
    pub fn set(a: CharSet) -> (r: Self)
        requires
            a.wf(),
        ensures
            wf(r),
            not_free(r),
            forall|w: Seq<u8>| #[trigger] lang(r, w) == (w.len() == 1 && a@.contains(w[0])),
            a@ == Set::<u8>::empty() ==> *r.root is Void,
            a@ != Set::<u8>::empty() ==> *r.root == Operator::Class(a),
    {
        if a.is_empty() {
            Self::new(Operator::Void)
        } else {
            Self::new(Operator::Class(a))
        }
    }

    /// The top-level operator.
    pub fn operator(&self) -> (r: &Operator)
        ensures
            *r == *self.root,
    {
        &self.root
    }

    /// Whether the empty string is matched.
    pub fn is_nullable(&self) -> (r: bool)
        ensures
            r == nullable(*self),
            r == lang(*self, Seq::empty()),
        decreases *self,
    {
        proof {
            lemma_nullable(*self);
            match &*self.root {
                Operator::Cat(v) => lemma_nullable_quant(v@),
                Operator::Or(v) => lemma_nullable_quant(v@),
                Operator::And(v) => lemma_nullable_quant(v@),
                _ => {},
            }
        }
        match &*self.root {
            Operator::Void => false,
            Operator::Epsilon => true,
            Operator::Class(_) => false,
            Operator::Cat(v) => {
                let mut i = 0usize;
                while i < v.len()
                    invariant
                        *self.root == Operator::Cat(*v),
                        i <= v@.len(),
                        nullable(*self) == (forall|k: int| 0 <= k < v@.len() ==> #[trigger] nullable(v@[k])),
                        lang(*self, Seq::empty()) == nullable(*self),
                        forall|k: int| 0 <= k < i ==> #[trigger] nullable(v@[k]),
                    decreases v@.len() - i,
                {
                    proof {
                        assert(decreases_to!(*v => v@[i as int]));
                    }
                    if !v[i].is_nullable() {
                        return false;
                    }
                    i += 1;
                }
                true
            },
            Operator::Star(_) => true,
            Operator::Or(v) => {
                let mut i = 0usize;
                while i < v.len()
                    invariant
                        *self.root == Operator::Or(*v),
                        i <= v@.len(),
                        nullable(*self) == (exists|k: int| 0 <= k < v@.len() && #[trigger] nullable(v@[k])),
                        lang(*self, Seq::empty()) == nullable(*self),
                        forall|k: int| 0 <= k < i ==> !#[trigger] nullable(v@[k]),
                    decreases v@.len() - i,
                {
                    proof {
                        assert(decreases_to!(*v => v@[i as int]));
                    }
                    if v[i].is_nullable() {
                        return true;
                    }
                    i += 1;
                }
                false
            },
            Operator::And(v) => {
                let mut i = 0usize;
                while i < v.len()
                    invariant
                        *self.root == Operator::And(*v),
                        i <= v@.len(),
                        nullable(*self) == (forall|k: int| 0 <= k < v@.len() ==> #[trigger] nullable(v@[k])),
                        lang(*self, Seq::empty()) == nullable(*self),
                        forall|k: int| 0 <= k < i ==> #[trigger] nullable(v@[k]),
                    decreases v@.len() - i,
                {
                    proof {
                        assert(decreases_to!(*v => v@[i as int]));
                    }
                    if !v[i].is_nullable() {
                        return false;
                    }
                    i += 1;
                }
                true
            },
            Operator::Not(c) => !c.is_nullable(),
        }
    }
}




/// A copy of a vector of expressions, element by element.
fn duplicate_vec(v: &Vec<RegEx>) -> (r: Vec<RegEx>)
    ensures
        same_seq(r@, v@),
    decreases v, 1nat,
{
    let mut out: Vec<RegEx> = Vec::new();
    let mut i = 0usize;
    while i < v.len()
        invariant
            i <= v@.len(),
            out@.len() == i,
            forall|k: int| 0 <= k < i ==> #[trigger] same(out@[k], v@[k]),
        decreases v@.len() - i,
    {
        proof {
            assert(decreases_to!(*v => v@[i as int]));
        }
        let c = v[i].duplicate();
        out.push(c);
        i += 1;
    }
    proof {
        lemma_same_seq_quant(out@, v@);
    }
    out
}

impl RegEx {
    /// An independent, structurally equal copy.
    pub fn duplicate(&self) -> (r: Self)
        ensures
            same(r, *self),
        decreases *self, 0nat,
    {
        let node = match &*self.root {
            Operator::Void => Operator::Void,
            Operator::Epsilon => Operator::Epsilon,
            Operator::Class(cs) => Operator::Class(cs.duplicate()),
            Operator::Cat(v) => Operator::Cat(duplicate_vec(v)),
            Operator::Star(c) => Operator::Star(c.duplicate()),
            Operator::Or(v) => Operator::Or(duplicate_vec(v)),
            Operator::And(v) => Operator::And(duplicate_vec(v)),
            Operator::Not(c) => Operator::Not(c.duplicate()),
        };
        RegEx::new(node)
    }
}


/// `w` splits into a string matched by the concatenation `a` and one matched by `b`.
pub open spec fn seq_cat_lang(a: Seq<RegEx>, b: Seq<RegEx>, w: Seq<u8>) -> bool {
    exists|k: int| 0 <= k <= w.len() && #[trigger] lang_seq(a, w.take(k)) && lang_seq(b, w.skip(k))
}

/// Concatenating sequences of expressions concatenates their languages.
pub proof fn lemma_lang_seq_append(a: Seq<RegEx>, b: Seq<RegEx>, w: Seq<u8>)
    ensures
        lang_seq(a + b, w) == seq_cat_lang(a, b, w),
    decreases a.len(),
{
    if a.len() == 0 {
        assert(a + b =~= b);
        assert(w.take(0).len() == 0);
        assert(w.skip(0) =~= w);
        if lang_seq(b, w) {
            assert(lang_seq(a, w.take(0)) && lang_seq(b, w.skip(0)));
        }
        if seq_cat_lang(a, b, w) {
            let k = choose|k: int| 0 <= k <= w.len() && #[trigger] lang_seq(a, w.take(k)) && lang_seq(b, w.skip(k));
            assert(w.take(k).len() == 0);
            assert(k == 0);
        }
    } else {
        let x = a[0];
        let a2 = a.drop_first();
        assert((a + b)[0] == x);
        assert((a + b).drop_first() =~= a2 + b);
        lemma_lang_seq(a + b, w);
        if lang_seq(a + b, w) {
            let j = choose|j: int| 0 <= j <= w.len() && #[trigger] lang((a + b)[0], w.take(j)) && lang_seq((a + b).drop_first(), w.skip(j));
            lemma_lang_seq_append(a2, b, w.skip(j));
            let m = choose|m: int| 0 <= m <= w.skip(j).len() && #[trigger] lang_seq(a2, w.skip(j).take(m)) && lang_seq(b, w.skip(j).skip(m));
            let k = j + m;
            assert(w.take(k).take(j) =~= w.take(j));
            assert(w.take(k).skip(j) =~= w.skip(j).take(m));
            assert(w.skip(j).skip(m) =~= w.skip(k));
            lemma_lang_seq_intro(a, w.take(k), j);
            assert(lang_seq(a, w.take(k)) && lang_seq(b, w.skip(k)));
        }
        if seq_cat_lang(a, b, w) {
            let k = choose|k: int| 0 <= k <= w.len() && #[trigger] lang_seq(a, w.take(k)) && lang_seq(b, w.skip(k));
            let j = lemma_lang_seq_elim(a, w.take(k));
            let m = k - j;
            assert(w.take(k).take(j) =~= w.take(j));
            assert(w.take(k).skip(j) =~= w.skip(j).take(m));
            assert(w.skip(j).skip(m) =~= w.skip(k));
            lemma_lang_seq_append(a2, b, w.skip(j));
            assert(lang_seq(a2, w.skip(j).take(m)) && lang_seq(b, w.skip(j).skip(m)));
            lemma_lang_seq_intro(a + b, w, j);
        }
    }
}

/// A one-element concatenation matches what its element matches.
pub proof fn lemma_lang_seq_single(x: RegEx, w: Seq<u8>)
    ensures
        lang_seq(seq![x], w) == lang(x, w),
{
    let s = seq![x];
    lemma_lang_seq(s, w);
    assert(s.drop_first() =~= Seq::<RegEx>::empty());
    assert(w.take(w.len() as int) =~= w);
    if lang(x, w) {
        assert(w.skip(w.len() as int).len() == 0);
        lemma_lang_seq_intro(s, w, w.len() as int);
    }
    if lang_seq(s, w) {
        let k = lemma_lang_seq_elim(s, w);
        assert(w.skip(k).len() == 0);
        assert(k == w.len());
    }
}

/// Appends structurally equal copies of the elements of `v` to `out`.
fn push_copies(out: &mut Vec<RegEx>, v: &Vec<RegEx>)
    ensures
        final(out)@.len() == old(out)@.len() + v@.len(),
        forall|k: int| 0 <= k < old(out)@.len() ==> #[trigger] final(out)@[k] == old(out)@[k],
        forall|k: int| 0 <= k < v@.len() ==> #[trigger] same(final(out)@[old(out)@.len() + k], v@[k]),
{
    let ghost n = out@.len();
    let mut i = 0usize;
    while i < v.len()
        invariant
            i <= v@.len(),
            out@.len() == n + i,
            n == old(out)@.len(),
            forall|k: int| 0 <= k < n ==> #[trigger] out@[k] == old(out)@[k],
            forall|k: int| 0 <= k < i ==> #[trigger] same(out@[n + k], v@[k]),
        decreases v@.len() - i,
    {
        let c = v[i].duplicate();
        out.push(c);
        i += 1;
    }
}

/// Validity and complement-freedom of a sequence are those of its elements.
pub proof fn lemma_seq_props(s: Seq<RegEx>)
    ensures
        all_wf(s) == forall|i: int| 0 <= i < s.len() ==> #[trigger] wf(s[i]),
        all_not_free(s) == forall|i: int| 0 <= i < s.len() ==> #[trigger] not_free(s[i]),
{
    lemma_all_wf(s);
    lemma_all_not_free(s);
}

/// The operands of `r` as a concatenation: those of a `Cat`, else `r` alone.
pub open spec fn cat_operands(r: RegEx) -> Seq<RegEx> {
    match *r.root {
        Operator::Cat(v) => v@,
        _ => seq![r],
    }
}

/// The tree that `concat` builds from `a` and `b`: the empty string is a
/// unit and the empty language a zero; otherwise a `Cat` of the operands of
/// `a` followed by those of `b`.
pub open spec fn cat_post(a: RegEx, b: RegEx, r: RegEx) -> bool {
    &&& *b.root is Epsilon ==> same(r, a)
    &&& *a.root is Epsilon ==> same(r, b)
    &&& *a.root is Void || *b.root is Void ==> *r.root is Void
    &&& !(*a.root is Void || *b.root is Void || *a.root is Epsilon || *b.root is Epsilon) ==> {
        &&& *r.root is Cat
        &&& same_seq((*r.root)->Cat_0@, cat_operands(a) + cat_operands(b))
    }
}

/// What is known of the tree that `or` builds from `a` and `b`: the empty
/// language is a unit, and two sets merge into their union.
pub open spec fn or_post(a: RegEx, b: RegEx, r: RegEx) -> bool {
    &&& *b.root is Void ==> same(r, a)
    &&& *a.root is Void ==> same(r, b)
    &&& *a.root is Class && *b.root is Class ==> ({
        let u = (*a.root)->Class_0@.union((*b.root)->Class_0@);
        if u =~= Set::<u8>::empty() { *r.root is Void } else { *r.root is Class && (*r.root)->Class_0@ == u }
    })
    &&& !(*a.root is Void || *b.root is Void || (*a.root is Class && *b.root is Class)) ==> (*r.root is Or || *r.root is Class)
    &&& forall|w: Seq<u8>| #[trigger] lang(r, w) == (lang(a, w) || lang(b, w))
}

/// What is known of the tree that `and` builds from `a` and `b`: the empty
/// language is a zero, the empty string gives the empty string or nothing,
/// and two sets meet in their intersection.
pub open spec fn and_post(a: RegEx, b: RegEx, r: RegEx) -> bool {
    &&& *a.root is Void || *b.root is Void ==> *r.root is Void
    &&& *a.root is Epsilon || *b.root is Epsilon ==> (*r.root is Epsilon || *r.root is Void)
    &&& *b.root is Epsilon && !(*a.root is Void) ==> (*r.root is Epsilon <==> nullable(a)) && (*r.root is Void <==> !nullable(a))
    &&& *a.root is Epsilon && !(*b.root is Void) ==> (*r.root is Epsilon <==> nullable(b)) && (*r.root is Void <==> !nullable(b))
    &&& *a.root is Class && *b.root is Class ==> ({
        let u = (*a.root)->Class_0@.intersect((*b.root)->Class_0@);
        if u =~= Set::<u8>::empty() { *r.root is Void } else { *r.root is Class && (*r.root)->Class_0@ == u }
    })
    &&& !(*a.root is Void || *b.root is Void || *a.root is Epsilon || *b.root is Epsilon || (*a.root is Class && *b.root is Class))
        ==> (*r.root is And || *r.root is Class)
    &&& forall|w: Seq<u8>| #[trigger] lang(r, w) == (lang(a, w) && lang(b, w))
}

/// The tree that `not` builds from `a`: all bytes for the empty language,
/// the complement set for a set, the operand of a complement, and otherwise
/// a complement node.
pub open spec fn not_post(a: RegEx, r: RegEx) -> bool {
    &&& *a.root is Void ==> *r.root is Class && (*r.root)->Class_0@ == Set::<u8>::full()
    &&& *a.root is Class ==> ({
        let u = (*a.root)->Class_0@.complement();
        if u =~= Set::<u8>::empty() { *r.root is Void } else { *r.root is Class && (*r.root)->Class_0@ == u }
    })
    &&& *a.root is Not ==> same(r, (*a.root)->Not_0)
    &&& !(*a.root is Void || *a.root is Class || *a.root is Not) ==> *r.root is Not && same((*r.root)->Not_0, a)
}

/// `t` is the concatenation of the operands of `s` after `i`: the last one
/// itself where only one is left, a `Cat` of them otherwise.
pub open spec fn tail_from(s: Seq<RegEx>, i: int, t: RegEx) -> bool {
    if i + 2 == s.len() {
        same(t, s[i + 1])
    } else {
        *t.root is Cat && same_seq((*t.root)->Cat_0@, s.skip(i + 1))
    }
}

/// The tree that `deriv` builds for `x` and byte `a`, node by node: nothing
/// for the empty language and the empty string; the empty string or nothing
/// for a set, as it holds `a` or not; for a star, the derivative of its
/// operand followed by the star; for a complement, the complement of the
/// derivative of its operand; for concatenations, unions and
/// intersections, see `deriv_cat_post`, `deriv_or_post`, `deriv_and_post`.
pub open spec fn deriv_post(x: RegEx, a: u8, r: RegEx) -> bool
    decreases x, 0int,
{
    match *x.root {
        Operator::Void => *r.root is Void,
        Operator::Epsilon => *r.root is Void,
        Operator::Class(cs) => if cs@.contains(a) { *r.root is Epsilon } else { *r.root is Void },
        Operator::Cat(v) => deriv_cat_post(v@, 0, a, r),
        Operator::Star(c) => exists|d: RegEx| #![trigger cat_post(d, x, r)] deriv_post(c, a, d) && cat_post(d, x, r),
        Operator::Or(v) => deriv_or_post(v@, 0, a, r),
        Operator::And(v) => deriv_and_post(v@, 0, a, r),
        Operator::Not(c) => exists|d: RegEx| #![trigger not_post(d, r)] deriv_post(c, a, d) && not_post(d, r),
    }
}

/// The derivative of the concatenation of `s` from `i` on: the derivative
/// of its first operand followed by the rest (see `tail_from`), united with
/// the derivative of the rest where the first operand matches the empty
/// string, and with nothing otherwise.
pub open spec fn deriv_cat_post(s: Seq<RegEx>, i: int, a: u8, r: RegEx) -> bool
    decreases s, s.len() - i,
{
    if i < 0 || i + 2 > s.len() {
        false
    } else {
        exists|dh: RegEx, t: RegEx, left: RegEx, right: RegEx| #![trigger cat_post(dh, t, left), or_post(left, right, r)] {
            &&& deriv_post(s[i], a, dh)
            &&& tail_from(s, i, t)
            &&& cat_post(dh, t, left)
            &&& if nullable(s[i]) {
                if i + 2 == s.len() { deriv_post(s[i + 1], a, right) } else { deriv_cat_post(s, i + 1, a, right) }
            } else {
                *right.root is Void
            }
            &&& or_post(left, right, r)
        }
    }
}

/// The derivative of the union of `s` from `i` on: the union of the
/// derivative of its first operand with that of the rest.
pub open spec fn deriv_or_post(s: Seq<RegEx>, i: int, a: u8, r: RegEx) -> bool
    decreases s, s.len() - i,
{
    if i < 0 || i + 2 > s.len() {
        false
    } else {
        exists|dh: RegEx, rest: RegEx| #![trigger or_post(dh, rest, r)] {
            &&& deriv_post(s[i], a, dh)
            &&& if i + 2 == s.len() { deriv_post(s[i + 1], a, rest) } else { deriv_or_post(s, i + 1, a, rest) }
            &&& or_post(dh, rest, r)
        }
    }
}

/// The derivative of the intersection of `s` from `i` on: the intersection
/// of the derivative of its first operand with that of the rest.
pub open spec fn deriv_and_post(s: Seq<RegEx>, i: int, a: u8, r: RegEx) -> bool
    decreases s, s.len() - i,
{
    if i < 0 || i + 2 > s.len() {
        false
    } else {
        exists|dh: RegEx, rest: RegEx| #![trigger and_post(dh, rest, r)] {
            &&& deriv_post(s[i], a, dh)
            &&& if i + 2 == s.len() { deriv_post(s[i + 1], a, rest) } else { deriv_and_post(s, i + 1, a, rest) }
            &&& and_post(dh, rest, r)
        }
    }
}


/// Introduces `deriv_cat_post` from its parts.
proof fn lemma_deriv_cat_post_intro(s: Seq<RegEx>, i: int, a: u8, r: RegEx, dh: RegEx, t: RegEx, left: RegEx, right: RegEx)
    requires
        0 <= i && i + 2 <= s.len(),
        deriv_post(s[i], a, dh),
        tail_from(s, i, t),
        cat_post(dh, t, left),
        if nullable(s[i]) {
            if i + 2 == s.len() { deriv_post(s[i + 1], a, right) } else { deriv_cat_post(s, i + 1, a, right) }
        } else {
            *right.root is Void
        },
        or_post(left, right, r),
    ensures
        deriv_cat_post(s, i, a, r),
{
}

/// Introduces `deriv_or_post` from its parts.
proof fn lemma_deriv_or_post_intro(s: Seq<RegEx>, i: int, a: u8, r: RegEx, dh: RegEx, rest: RegEx)
    requires
        0 <= i && i + 2 <= s.len(),
        deriv_post(s[i], a, dh),
        if i + 2 == s.len() { deriv_post(s[i + 1], a, rest) } else { deriv_or_post(s, i + 1, a, rest) },
        or_post(dh, rest, r),
    ensures
        deriv_or_post(s, i, a, r),
{
    assert(exists|dh2: RegEx, rest2: RegEx| #![trigger or_post(dh2, rest2, r)] {
            &&& deriv_post(s[i], a, dh2)
            &&& if i + 2 == s.len() { deriv_post(s[i + 1], a, rest2) } else { deriv_or_post(s, i + 1, a, rest2) }
            &&& or_post(dh2, rest2, r)
        });
}

/// Introduces `deriv_and_post` from its parts.
proof fn lemma_deriv_and_post_intro(s: Seq<RegEx>, i: int, a: u8, r: RegEx, dh: RegEx, rest: RegEx)
    requires
        0 <= i && i + 2 <= s.len(),
        deriv_post(s[i], a, dh),
        if i + 2 == s.len() { deriv_post(s[i + 1], a, rest) } else { deriv_and_post(s, i + 1, a, rest) },
        and_post(dh, rest, r),
    ensures
        deriv_and_post(s, i, a, r),
{
}

/// `ds` are derivatives by `a`, as `deriv` builds them, of the expressions
/// of `s` from `i` on.
pub open spec fn derivs_from(s: Seq<RegEx>, i: int, a: u8, ds: Seq<RegEx>) -> bool {
    &&& ds.len() == s.len() - i
    &&& forall|j: int| 0 <= j < ds.len() ==> #[trigger] deriv_post(s[i + j], a, ds[j])
}

proof fn lemma_deriv_and_from_lang(s: Seq<RegEx>, i: int, a: u8, r: RegEx)
    requires
        deriv_and_post(s, i, a, r),
    ensures
        exists|ds: Seq<RegEx>| #[trigger] derivs_from(s, i, a, ds)
            && forall|w: Seq<u8>| #[trigger] lang(r, w) == (forall|j: int| 0 <= j < ds.len() ==> #[trigger] lang(ds[j], w)),
    decreases s.len() - i,
{
    let (dh, rest) = choose|dh: RegEx, rest: RegEx| #![trigger and_post(dh, rest, r)] {
        &&& deriv_post(s[i], a, dh)
        &&& if i + 2 == s.len() { deriv_post(s[i + 1], a, rest) } else { deriv_and_post(s, i + 1, a, rest) }
        &&& and_post(dh, rest, r)
    };
    if i + 2 == s.len() {
        let ds = seq![dh, rest];
        assert(derivs_from(s, i, a, ds));
        assert forall|w: Seq<u8>| #[trigger] lang(r, w) == (forall|j: int| 0 <= j < ds.len() ==> #[trigger] lang(ds[j], w)) by {
            if lang(dh, w) && lang(rest, w) {
                assert forall|j: int| 0 <= j < ds.len() implies #[trigger] lang(ds[j], w) by {}
            }
            if forall|j: int| 0 <= j < ds.len() ==> #[trigger] lang(ds[j], w) {
                assert(lang(ds[0], w) && lang(ds[1], w));
            }
        }
    } else {
        lemma_deriv_and_from_lang(s, i + 1, a, rest);
        let ds0 = choose|ds: Seq<RegEx>| #[trigger] derivs_from(s, i + 1, a, ds)
            && forall|w: Seq<u8>| #[trigger] lang(rest, w) == (forall|j: int| 0 <= j < ds.len() ==> #[trigger] lang(ds[j], w));
        let ds = seq![dh] + ds0;
        assert forall|j: int| 0 <= j < ds.len() implies #[trigger] deriv_post(s[i + j], a, ds[j]) by {
            if j > 0 {
                assert(ds[j] == ds0[j - 1]);
                assert(deriv_post(s[i + 1 + (j - 1)], a, ds0[j - 1]));
            }
        }
        assert(derivs_from(s, i, a, ds));
        assert forall|w: Seq<u8>| #[trigger] lang(r, w) == (forall|j: int| 0 <= j < ds.len() ==> #[trigger] lang(ds[j], w)) by {
            if lang(dh, w) && lang(rest, w) {
                assert forall|j: int| 0 <= j < ds.len() implies #[trigger] lang(ds[j], w) by {
                    if j > 0 {
                        assert(ds[j] == ds0[j - 1]);
                        assert(lang(ds0[j - 1], w));
                    }
                }
            }
            if forall|j: int| 0 <= j < ds.len() ==> #[trigger] lang(ds[j], w) {
                assert(lang(ds[0], w));
                assert forall|j: int| 0 <= j < ds0.len() implies #[trigger] lang(ds0[j], w) by {
                    assert(ds[j + 1] == ds0[j]);
                    assert(lang(ds[j + 1], w));
                }
            }
        }
    }
}

proof fn lemma_deriv_or_from_lang(s: Seq<RegEx>, i: int, a: u8, r: RegEx)
    requires
        deriv_or_post(s, i, a, r),
    ensures
        exists|ds: Seq<RegEx>| #[trigger] derivs_from(s, i, a, ds)
            && forall|w: Seq<u8>| #[trigger] lang(r, w) == (exists|j: int| 0 <= j < ds.len() && #[trigger] lang(ds[j], w)),
    decreases s.len() - i,
{
    let (dh, rest) = choose|dh: RegEx, rest: RegEx| #![trigger or_post(dh, rest, r)] {
        &&& deriv_post(s[i], a, dh)
        &&& if i + 2 == s.len() { deriv_post(s[i + 1], a, rest) } else { deriv_or_post(s, i + 1, a, rest) }
        &&& or_post(dh, rest, r)
    };
    if i + 2 == s.len() {
        let ds = seq![dh, rest];
        assert(derivs_from(s, i, a, ds));
        assert forall|w: Seq<u8>| #[trigger] lang(r, w) == (exists|j: int| 0 <= j < ds.len() && #[trigger] lang(ds[j], w)) by {
            if lang(dh, w) { assert(lang(ds[0], w)); }
            if lang(rest, w) { assert(lang(ds[1], w)); }
        }
    } else {
        lemma_deriv_or_from_lang(s, i + 1, a, rest);
        let ds0 = choose|ds: Seq<RegEx>| #[trigger] derivs_from(s, i + 1, a, ds)
            && forall|w: Seq<u8>| #[trigger] lang(rest, w) == (exists|j: int| 0 <= j < ds.len() && #[trigger] lang(ds[j], w));
        let ds = seq![dh] + ds0;
        assert forall|j: int| 0 <= j < ds.len() implies #[trigger] deriv_post(s[i + j], a, ds[j]) by {
            if j > 0 {
                assert(ds[j] == ds0[j - 1]);
                assert(deriv_post(s[i + 1 + (j - 1)], a, ds0[j - 1]));
            }
        }
        assert(derivs_from(s, i, a, ds));
        assert forall|w: Seq<u8>| #[trigger] lang(r, w) == (exists|j: int| 0 <= j < ds.len() && #[trigger] lang(ds[j], w)) by {
            if lang(dh, w) { assert(lang(ds[0], w)); }
            if lang(rest, w) {
                let j = choose|j: int| 0 <= j < ds0.len() && #[trigger] lang(ds0[j], w);
                assert(ds[j + 1] == ds0[j]);
                assert(lang(ds[j + 1], w));
            }
            if exists|j: int| 0 <= j < ds.len() && #[trigger] lang(ds[j], w) {
                let j = choose|j: int| 0 <= j < ds.len() && #[trigger] lang(ds[j], w);
                if j > 0 {
                    assert(ds[j] == ds0[j - 1]);
                    assert(lang(ds0[j - 1], w));
                }
            }
        }
    }
}

/// Law, complements included: the derivative of an intersection matches
/// exactly the strings that the derivatives of all its operands match, and
/// that of a union the strings that the derivative of one of its operands
/// matches.
pub proof fn lemma_deriv_of_intersection_and_union(x: RegEx, a: u8, r: RegEx)
    requires
        deriv_post(x, a, r),
    ensures
        *x.root is And ==> exists|ds: Seq<RegEx>| #[trigger] derivs_from((*x.root)->And_0@, 0, a, ds)
            && forall|w: Seq<u8>| #[trigger] lang(r, w) == (forall|j: int| 0 <= j < ds.len() ==> #[trigger] lang(ds[j], w)),
        *x.root is Or ==> exists|ds: Seq<RegEx>| #[trigger] derivs_from((*x.root)->Or_0@, 0, a, ds)
            && forall|w: Seq<u8>| #[trigger] lang(r, w) == (exists|j: int| 0 <= j < ds.len() && #[trigger] lang(ds[j], w)),
{
    match *x.root {
        Operator::And(v) => lemma_deriv_and_from_lang(v@, 0, a, r),
        Operator::Or(v) => lemma_deriv_or_from_lang(v@, 0, a, r),
        _ => {},
    }
}

/// The tree that `star` builds from `a`.
pub open spec fn star_post(a: RegEx, r: RegEx) -> bool {
    &&& *a.root is Void || *a.root is Epsilon ==> *r.root is Epsilon
    &&& *a.root is Star ==> same(r, a)
    &&& !(*a.root is Void || *a.root is Epsilon || *a.root is Star) ==> *r.root is Star && same((*r.root)->Star_0, a)
}

impl RegEx {
    /// Concatenation: the strings made of one matched by `self` followed by
    /// one matched by `other`.
    pub fn concat(&self, other: &Self) -> (r: Self)
        requires
            wf(*self),
            wf(*other),
        ensures
            wf(r),
            not_free(*self) && not_free(*other) ==> not_free(r),
            forall|w: Seq<u8>| #[trigger] lang(r, w) == cat_lang(*self, *other, w),
            *other.root is Epsilon ==> same(r, *self),
            *self.root is Epsilon ==> same(r, *other),
            *self.root is Void || *other.root is Void ==> *r.root is Void,
            !(*self.root is Void || *other.root is Void || *self.root is Epsilon || *other.root is Epsilon) ==> {
                &&& *r.root is Cat
                &&& same_seq((*r.root)->Cat_0@, cat_operands(*self) + cat_operands(*other))
            },
            cat_post(*self, *other, r),
    {
        let ghost me = *self;
        let ghost ot = *other;
        match (&*self.root, &*other.root) {
            (_, Operator::Epsilon) => {
                let r = self.duplicate();
                proof {
                    lemma_same(r, me);
                    assert forall|w: Seq<u8>| #[trigger] lang(r, w) == cat_lang(me, ot, w) by {
                        assert(w.take(w.len() as int) =~= w);
                        if lang(me, w) {
                            assert(w.skip(w.len() as int).len() == 0);
                            assert(lang(me, w.take(w.len() as int)) && lang(ot, w.skip(w.len() as int)));
                        }
                        if cat_lang(me, ot, w) {
                            let k = choose|k: int| 0 <= k <= w.len() && #[trigger] lang(me, w.take(k)) && lang(ot, w.skip(k));
                            assert(k == w.len());
                        }
                    }
                }
                return r;
            },
            (Operator::Epsilon, _) => {
                let r = other.duplicate();
                proof {
                    lemma_same(r, ot);
                    assert forall|w: Seq<u8>| #[trigger] lang(r, w) == cat_lang(me, ot, w) by {
                        assert(w.skip(0) =~= w);
                        if lang(ot, w) {
                            assert(w.take(0).len() == 0);
                            assert(lang(me, w.take(0)) && lang(ot, w.skip(0)));
                        }
                        if cat_lang(me, ot, w) {
                            let k = choose|k: int| 0 <= k <= w.len() && #[trigger] lang(me, w.take(k)) && lang(ot, w.skip(k));
                            assert(w.take(k).len() == 0);
                            assert(k == 0);
                        }
                    }
                }
                return r;
            },
            (_, Operator::Void) => {
                return RegEx::new(Operator::Void);
            },
            (Operator::Void, _) => {
                return RegEx::new(Operator::Void);
            },
            _ => {},
        }
        let mut out: Vec<RegEx> = Vec::new();
        let ghost left: Seq<RegEx>;
        let ghost right: Seq<RegEx>;
        match &*self.root {
            Operator::Cat(a) => {
                push_copies(&mut out, a);
                proof {
                    left = a@;
                }
            },
            _ => {
                out.push(self.duplicate());
                proof {
                    left = seq![me];
                }
            },
        }
        let ghost nl = out@.len();
        let ghost out1 = out@;
        proof {
            assert(nl == left.len());
            assert forall|k: int| 0 <= k < nl implies #[trigger] same(out1[k], left[k]) by {
                match *me.root {
                    Operator::Cat(a) => {
                        assert(out1[0 + k] == out1[k]);
                    },
                    _ => {},
                }
            }
        }
        match &*other.root {
            Operator::Cat(b) => {
                push_copies(&mut out, b);
                proof {
                    right = b@;
                }
            },
            _ => {
                out.push(other.duplicate());
                proof {
                    right = seq![ot];
                }
            },
        }
        let r = RegEx::new(Operator::Cat(out));
        proof {
            assert(nl == left.len());
            assert(out@.len() == left.len() + right.len());
            assert forall|k: int| 0 <= k < out@.len() implies #[trigger] same(out@[k], (left + right)[k]) by {
                if k >= nl {
                    assert(out@[nl + (k - nl)] == out@[k]);
                    assert((left + right)[k] == right[k - nl]);
                    match *ot.root {
                        Operator::Cat(b) => {
                            assert(same(out@[nl + (k - nl)], right[k - nl]));
                        },
                        _ => {},
                    }
                } else {
                    assert(out@[k] == out1[k]);
                    assert(same(out1[k], left[k]));
                    assert((left + right)[k] == left[k]);
                }
            }
            lemma_same_seq_quant(out@, left + right);
            lemma_same_seq(out@, left + right);
            lemma_seq_props(out@);
            lemma_seq_props(left + right);
            lemma_seq_props(left);
            lemma_seq_props(right);
            match *me.root {
                Operator::Cat(a) => {},
                _ => {
                    assert(left[0] == me);
                },
            }
            match *ot.root {
                Operator::Cat(b) => {},
                _ => {
                    assert(right[0] == ot);
                },
            }
            assert forall|i: int| 0 <= i < (left + right).len() implies #[trigger] wf((left + right)[i]) by {
                if i < left.len() {
                    assert((left + right)[i] == left[i]);
                } else {
                    assert((left + right)[i] == right[i - left.len()]);
                }
            }
            if not_free(me) && not_free(ot) {
                assert forall|i: int| 0 <= i < (left + right).len() implies #[trigger] not_free((left + right)[i]) by {
                    if i < left.len() {
                        assert((left + right)[i] == left[i]);
                    } else {
                        assert((left + right)[i] == right[i - left.len()]);
                    }
                }
            }
            assert forall|w: Seq<u8>| #[trigger] lang(r, w) == cat_lang(me, ot, w) by {
                lemma_lang_seq_congr(out@, left + right, w);
                lemma_lang_seq_append(left, right, w);
                assert forall|u: Seq<u8>| lang_seq(left, u) == lang(me, u) by {
                    match *me.root {
                        Operator::Cat(a) => {},
                        _ => {
                            lemma_lang_seq_single(me, u);
                        },
                    }
                }
                assert forall|u: Seq<u8>| lang_seq(right, u) == lang(ot, u) by {
                    match *ot.root {
                        Operator::Cat(b) => {},
                        _ => {
                            lemma_lang_seq_single(ot, u);
                        },
                    }
                }
                if cat_lang(me, ot, w) {
                    let k = choose|k: int| 0 <= k <= w.len() && #[trigger] lang(me, w.take(k)) && lang(ot, w.skip(k));
                    assert(lang_seq(left, w.take(k)) && lang_seq(right, w.skip(k)));
                }
                if seq_cat_lang(left, right, w) {
                    let k = choose|k: int| 0 <= k <= w.len() && #[trigger] lang_seq(left, w.take(k)) && lang_seq(right, w.skip(k));
                    assert(lang(me, w.take(k)) && lang(ot, w.skip(k)));
                }
            }
        }
        r
    }
}


/// Repetition is closed under concatenation.
pub proof fn lemma_star_lang_concat(c: RegEx, u: Seq<u8>, v: Seq<u8>)
    requires
        star_lang(c, u),
        star_lang(c, v),
    ensures
        star_lang(c, u + v),
    decreases u.len(),
{
    if u.len() == 0 {
        assert(u + v =~= v);
    } else {
        let k = choose|k: int| 1 <= k <= u.len() && #[trigger] lang(c, u.take(k)) && star_lang(c, u.skip(k));
        lemma_star_lang_concat(c, u.skip(k), v);
        assert((u + v).take(k) =~= u.take(k));
        assert((u + v).skip(k) =~= u.skip(k) + v);
        assert(lang(c, (u + v).take(k)) && star_lang(c, (u + v).skip(k)));
    }
}

/// Repeating a repetition adds nothing.
pub proof fn lemma_star_idempotent(s: RegEx, c: RegEx, w: Seq<u8>)
    requires
        *s.root == Operator::Star(c),
    ensures
        star_lang(s, w) == star_lang(c, w),
    decreases w.len(),
{
    if w.len() > 0 {
        if star_lang(c, w) {
            lemma_star(s, c, w);
            assert(w.take(w.len() as int) =~= w);
            assert(w.skip(w.len() as int).len() == 0);
            assert(lang(s, w.take(w.len() as int)) && star_lang(s, w.skip(w.len() as int)));
        }
        if star_lang(s, w) {
            let k = choose|k: int| 1 <= k <= w.len() && #[trigger] lang(s, w.take(k)) && star_lang(s, w.skip(k));
            lemma_star(s, c, w.take(k));
            lemma_star_idempotent(s, c, w.skip(k));
            lemma_star_lang_concat(c, w.take(k), w.skip(k));
            assert(w.take(k) + w.skip(k) =~= w);
        }
    }
}

impl RegEx {
    /// Zero or more repetitions.
    pub fn star(&self) -> (r: Self)
        requires
            wf(*self),
        ensures
            wf(r),
            not_free(*self) ==> not_free(r),
            forall|w: Seq<u8>| #[trigger] lang(r, w) == star_lang(*self, w),
            *self.root is Void || *self.root is Epsilon ==> *r.root is Epsilon,
            *self.root is Star ==> same(r, *self),
            !(*self.root is Void || *self.root is Epsilon || *self.root is Star) ==> *r.root is Star && same((*r.root)->Star_0, *self),
            star_post(*self, r),
    {
        let ghost me = *self;
        match &*self.root {
            Operator::Void | Operator::Epsilon => {
                let r = RegEx::new(Operator::Epsilon);
                proof {
                    assert forall|w: Seq<u8>| #[trigger] lang(r, w) == star_lang(me, w) by {
                        if w.len() > 0 && star_lang(me, w) {
                            let k = choose|k: int| 1 <= k <= w.len() && #[trigger] lang(me, w.take(k)) && star_lang(me, w.skip(k));
                            assert(w.take(k).len() == k);
                        }
                    }
                }
                r
            },
            Operator::Star(c) => {
                let r = self.duplicate();
                proof {
                    lemma_same(r, me);
                    assert forall|w: Seq<u8>| #[trigger] lang(r, w) == star_lang(me, w) by {
                        lemma_star(me, *c, w);
                        lemma_star_idempotent(me, *c, w);
                    }
                }
                r
            },
            _ => {
                let d = self.duplicate();
                let ghost dd = d;
                let r = RegEx::new(Operator::Star(d));
                proof {
                    lemma_same(dd, me);
                    assert forall|w: Seq<u8>| #[trigger] lang(r, w) == star_lang(me, w) by {
                        lemma_star(r, dd, w);
                        lemma_star_lang_congr(dd, me, w);
                    }
                }
                r
            },
        }
    }
}


/// The position of an operator in the order of variants.
spec fn op_rank(op: Operator) -> int {
    match op {
        Operator::Void => 0,
        Operator::Epsilon => 1,
        Operator::Class(_) => 2,
        Operator::Cat(_) => 3,
        Operator::Star(_) => 4,
        Operator::Or(_) => 5,
        Operator::And(_) => 6,
        Operator::Not(_) => 7,
    }
}

/// The order of sets: by their intervals, lexicographically.
spec fn set_order(x: CharSet, y: CharSet) -> int {
    if x.spec_intervals() == y.spec_intervals() {
        0
    } else if ivs_less(x.spec_intervals(), y.spec_intervals()) {
        -1
    } else {
        1
    }
}

/// The order of expressions: by operator, next by operands; `-1` where `a`
/// comes first, `0` where they are structurally equal, `1` otherwise.
spec fn expr_order(a: RegEx, b: RegEx) -> int
    decreases a, 0nat,
{
    let ra = op_rank(*a.root);
    let rb = op_rank(*b.root);
    if ra < rb {
        -1
    } else if ra > rb {
        1
    } else {
        match (*a.root, *b.root) {
            (Operator::Class(x), Operator::Class(y)) => set_order(x, y),
            (Operator::Cat(v), Operator::Cat(u)) => vec_order(v, u, 0),
            (Operator::Star(c), Operator::Star(d)) => expr_order(c, d),
            (Operator::Or(v), Operator::Or(u)) => vec_order(v, u, 0),
            (Operator::And(v), Operator::And(u)) => vec_order(v, u, 0),
            (Operator::Not(c), Operator::Not(d)) => expr_order(c, d),
            _ => 0,
        }
    }
}

/// The lexicographic order of the expressions of `a` and `b` from index `i` on.
spec fn vec_order(a: Vec<RegEx>, b: Vec<RegEx>, i: int) -> int
    decreases a, (a@.len() - i) as nat,
{
    if 0 <= i < a@.len() && i < b@.len() {
        proof {
            assert(decreases_to!(a => a@[i]));
        }
        let c = expr_order(a@[i], b@[i]);
        if c != 0 {
            c
        } else {
            vec_order(a, b, i + 1)
        }
    } else if a@.len() < b@.len() {
        -1
    } else if a@.len() > b@.len() {
        1
    } else {
        0
    }
}

/// The position of an operator in the order of variants.
fn variant_rank(op: &Operator) -> (r: u8)
    ensures
        r == op_rank(*op),
{
    match op {
        Operator::Void => 0,
        Operator::Epsilon => 1,
        Operator::Class(_) => 2,
        Operator::Cat(_) => 3,
        Operator::Star(_) => 4,
        Operator::Or(_) => 5,
        Operator::And(_) => 6,
        Operator::Not(_) => 7,
    }
}

/// Lexicographic three-way comparison of two vectors of expressions.
fn compare_vec(a: &Vec<RegEx>, b: &Vec<RegEx>) -> (r: i8)
    ensures
        r == vec_order(*a, *b, 0),
    decreases a, 1nat,
{
    let mut i = 0usize;
    while i < a.len() && i < b.len()
        invariant
            i <= a@.len(),
            vec_order(*a, *b, 0) == vec_order(*a, *b, i as int),
        decreases a@.len() - i,
    {
        proof {
            assert(decreases_to!(*a => a@[i as int]));
        }
        let c = a[i].compare(&b[i]);
        if c != 0 {
            return c;
        }
        i += 1;
    }
    if a.len() < b.len() {
        -1
    } else if a.len() > b.len() {
        1
    } else {
        0
    }
}

impl RegEx {
    /// Three-way comparison in the order that keeps the operands of unions
    /// and intersections sorted: by operator, next by operands.
    fn compare(&self, other: &Self) -> (r: i8)
        ensures
            r == expr_order(*self, *other),
        decreases *self, 0nat,
    {
        let ra = variant_rank(&self.root);
        let rb = variant_rank(&other.root);
        if ra < rb {
            return -1;
        }
        if ra > rb {
            return 1;
        }
        match (&*self.root, &*other.root) {
            (Operator::Class(x), Operator::Class(y)) => x.compare(y),
            (Operator::Cat(v), Operator::Cat(u)) => compare_vec(v, u),
            (Operator::Star(c), Operator::Star(d)) => c.compare(d),
            (Operator::Or(v), Operator::Or(u)) => compare_vec(v, u),
            (Operator::And(v), Operator::And(u)) => compare_vec(v, u),
            (Operator::Not(c), Operator::Not(d)) => c.compare(d),
            _ => 0,
        }
    }
}

/// Merges two vectors sorted by `compare` into one holding exactly their elements.
fn merge(a: Vec<RegEx>, b: Vec<RegEx>) -> (r: Vec<RegEx>)
    ensures
        r@.len() == a@.len() + b@.len(),
        forall|x: RegEx| #[trigger] r@.contains(x) == (a@.contains(x) || b@.contains(x)),
{
    let ghost a0 = a@;
    let ghost b0 = b@;
    let mut a = a;
    let mut b = b;
    let mut out: Vec<RegEx> = Vec::new();
    while a.len() > 0 || b.len() > 0
        invariant
            out@.len() + a@.len() + b@.len() == a0.len() + b0.len(),
            forall|x: RegEx| #![trigger out@.contains(x)] #![trigger a@.contains(x)] #![trigger b@.contains(x)] #![trigger a0.contains(x)] #![trigger b0.contains(x)] (out@.contains(x) || a@.contains(x) || b@.contains(x)) == (a0.contains(x) || b0.contains(x)),
        decreases a@.len() + b@.len(),
    {
        let take_a = if b.len() == 0 {
            true
        } else if a.len() == 0 {
            false
        } else {
            a[0].compare(&b[0]) <= 0
        };
        let ghost old_out = out@;
        let ghost old_a = a@;
        let ghost old_b = b@;
        if take_a {
            let x = a.remove(0);
            out.push(x);
            proof {
                assert forall|y: RegEx| #![trigger out@.contains(y)] #![trigger a@.contains(y)] #![trigger b@.contains(y)] (out@.contains(y) || a@.contains(y) || b@.contains(y)) == (old_out.contains(y) || old_a.contains(y) || old_b.contains(y)) by {
                    assert(old_a =~= seq![x] + a@);
                    if old_a.contains(y) {
                        let i = choose|i: int| 0 <= i < old_a.len() && old_a[i] == y;
                        if i > 0 {
                            assert(a@[i - 1] == y);
                        }
                    }
                    if a@.contains(y) {
                        let i = choose|i: int| 0 <= i < a@.len() && a@[i] == y;
                        assert(old_a[i + 1] == y);
                    }
                    if out@.contains(y) {
                        let i = choose|i: int| 0 <= i < out@.len() && out@[i] == y;
                        if i < old_out.len() {
                            assert(old_out[i] == y);
                        }
                    }
                    if old_out.contains(y) {
                        let i = choose|i: int| 0 <= i < old_out.len() && old_out[i] == y;
                        assert(out@[i] == y);
                    }
                    assert(out@[old_out.len() as int] == x);
                }
            }
        } else {
            let x = b.remove(0);
            out.push(x);
            proof {
                assert forall|y: RegEx| #![trigger out@.contains(y)] #![trigger a@.contains(y)] #![trigger b@.contains(y)] (out@.contains(y) || a@.contains(y) || b@.contains(y)) == (old_out.contains(y) || old_a.contains(y) || old_b.contains(y)) by {
                    assert(old_b =~= seq![x] + b@);
                    if old_b.contains(y) {
                        let i = choose|i: int| 0 <= i < old_b.len() && old_b[i] == y;
                        if i > 0 {
                            assert(b@[i - 1] == y);
                        }
                    }
                    if b@.contains(y) {
                        let i = choose|i: int| 0 <= i < b@.len() && b@[i] == y;
                        assert(old_b[i + 1] == y);
                    }
                    if out@.contains(y) {
                        let i = choose|i: int| 0 <= i < out@.len() && out@[i] == y;
                        if i < old_out.len() {
                            assert(old_out[i] == y);
                        }
                    }
                    if old_out.contains(y) {
                        let i = choose|i: int| 0 <= i < old_out.len() && old_out[i] == y;
                        assert(out@[i] == y);
                    }
                    assert(out@[old_out.len() as int] == x);
                }
            }
        }
    }
    proof {
        assert forall|x: RegEx| #[trigger] out@.contains(x) == (a0.contains(x) || b0.contains(x)) by {
            assert(!a@.contains(x) && !b@.contains(x));
        }
    }
    out
}


/// A single byte of an optional set (no set matches nothing).
pub open spec fn opt_class_lang(acc: Option<CharSet>, w: Seq<u8>) -> bool {
    match acc {
        Option::Some(cs) => w.len() == 1 && cs@.contains(w[0]),
        Option::None => false,
    }
}

/// A single byte of an optional set (no set matches everything).
pub open spec fn opt_class_lang_all(acc: Option<CharSet>, w: Seq<u8>) -> bool {
    match acc {
        Option::Some(cs) => w.len() == 1 && cs@.contains(w[0]),
        Option::None => true,
    }
}

/// Pushing onto a sequence extends `lang_any`, `lang_all`, validity and
/// complement-freedom by the new element.
pub proof fn lemma_seq_push(s: Seq<RegEx>, x: RegEx, w: Seq<u8>)
    ensures
        lang_any(s.push(x), w) == (lang_any(s, w) || lang(x, w)),
        lang_all(s.push(x), w) == (lang_all(s, w) && lang(x, w)),
        all_wf(s.push(x)) == (all_wf(s) && wf(x)),
        all_not_free(s.push(x)) == (all_not_free(s) && not_free(x)),
{
    let t = s.push(x);
    lemma_lang_any(s, w);
    lemma_lang_any(t, w);
    lemma_lang_all(s, w);
    lemma_lang_all(t, w);
    lemma_seq_props(s);
    lemma_seq_props(t);
    assert(t[s.len() as int] == x);
    assert forall|i: int| 0 <= i < s.len() implies #[trigger] t[i] == s[i] by {}
    if lang_any(t, w) {
        let i = choose|i: int| 0 <= i < t.len() && #[trigger] lang(t[i], w);
        if i < s.len() {
            assert(lang(s[i], w));
        }
    }
    if lang_any(s, w) {
        let i = choose|i: int| 0 <= i < s.len() && #[trigger] lang(s[i], w);
        assert(lang(t[i], w));
    }
    if lang_all(s, w) && lang(x, w) {
        assert forall|i: int| 0 <= i < t.len() implies #[trigger] lang(t[i], w) by {
            if i < s.len() {
                assert(lang(s[i], w));
            }
        }
    }
    if lang_all(t, w) {
        assert forall|i: int| 0 <= i < s.len() implies #[trigger] lang(s[i], w) by {
            assert(lang(t[i], w));
        }
        assert(lang(t[s.len() as int], w));
    }
    if all_wf(s) && wf(x) {
        assert forall|i: int| 0 <= i < t.len() implies #[trigger] wf(t[i]) by {
            if i < s.len() {
                assert(wf(s[i]));
            }
        }
    }
    if all_wf(t) {
        assert forall|i: int| 0 <= i < s.len() implies #[trigger] wf(s[i]) by {
            assert(wf(t[i]));
        }
        assert(wf(t[s.len() as int]));
    }
    if all_not_free(s) && not_free(x) {
        assert forall|i: int| 0 <= i < t.len() implies #[trigger] not_free(t[i]) by {
            if i < s.len() {
                assert(not_free(s[i]));
            }
        }
    }
    if all_not_free(t) {
        assert forall|i: int| 0 <= i < s.len() implies #[trigger] not_free(s[i]) by {
            assert(not_free(t[i]));
        }
        assert(not_free(t[s.len() as int]));
    }
}

/// Sequences with the same elements have the same union and intersection
/// languages, validity and complement-freedom.
pub proof fn lemma_same_members(s: Seq<RegEx>, t: Seq<RegEx>, w: Seq<u8>)
    requires
        forall|x: RegEx| #[trigger] s.contains(x) == t.contains(x),
    ensures
        lang_any(s, w) == lang_any(t, w),
        lang_all(s, w) == lang_all(t, w),
        all_wf(s) == all_wf(t),
        all_not_free(s) == all_not_free(t),
{
    lemma_lang_any(s, w);
    lemma_lang_any(t, w);
    lemma_lang_all(s, w);
    lemma_lang_all(t, w);
    lemma_seq_props(s);
    lemma_seq_props(t);
    assert forall|i: int| 0 <= i < s.len() implies exists|j: int| 0 <= j < t.len() && t[j] == #[trigger] s[i] by {
        assert(s.contains(s[i]));
        assert(t.contains(s[i]));
    }
    assert forall|i: int| 0 <= i < t.len() implies exists|j: int| 0 <= j < s.len() && s[j] == #[trigger] t[i] by {
        assert(t.contains(t[i]));
        assert(s.contains(t[i]));
    }
    if lang_any(s, w) {
        let i = choose|i: int| 0 <= i < s.len() && #[trigger] lang(s[i], w);
        let j = choose|j: int| 0 <= j < t.len() && t[j] == s[i];
        assert(lang(t[j], w));
    }
    if lang_any(t, w) {
        let i = choose|i: int| 0 <= i < t.len() && #[trigger] lang(t[i], w);
        let j = choose|j: int| 0 <= j < s.len() && s[j] == t[i];
        assert(lang(s[j], w));
    }
    if lang_all(s, w) {
        assert forall|i: int| 0 <= i < t.len() implies #[trigger] lang(t[i], w) by {
            let j = choose|j: int| 0 <= j < s.len() && s[j] == t[i];
            assert(lang(s[j], w));
        }
    }
    if lang_all(t, w) {
        assert forall|i: int| 0 <= i < s.len() implies #[trigger] lang(s[i], w) by {
            let j = choose|j: int| 0 <= j < t.len() && t[j] == s[i];
            assert(lang(t[j], w));
        }
    }
    if all_wf(s) {
        assert forall|i: int| 0 <= i < t.len() implies #[trigger] wf(t[i]) by {
            let j = choose|j: int| 0 <= j < s.len() && s[j] == t[i];
            assert(wf(s[j]));
        }
    }
    if all_wf(t) {
        assert forall|i: int| 0 <= i < s.len() implies #[trigger] wf(s[i]) by {
            let j = choose|j: int| 0 <= j < t.len() && t[j] == s[i];
            assert(wf(t[j]));
        }
    }
    if all_not_free(s) {
        assert forall|i: int| 0 <= i < t.len() implies #[trigger] not_free(t[i]) by {
            let j = choose|j: int| 0 <= j < s.len() && s[j] == t[i];
            assert(not_free(s[j]));
        }
    }
    if all_not_free(t) {
        assert forall|i: int| 0 <= i < s.len() implies #[trigger] not_free(s[i]) by {
            let j = choose|j: int| 0 <= j < t.len() && t[j] == s[i];
            assert(not_free(t[j]));
        }
    }
}


/// `x` is a set operand.
spec fn is_class(x: RegEx) -> bool {
    *x.root is Class
}

/// The bytes of a set operand.
spec fn class_set(x: RegEx) -> Set<u8> {
    match *x.root {
        Operator::Class(cs) => cs@,
        _ => Set::empty(),
    }
}

/// Some expression of `s` is a set operand.
spec fn has_class(s: Seq<RegEx>) -> bool {
    exists|i: int| 0 <= i < s.len() && #[trigger] is_class(s[i])
}

/// Byte `b` is in the union (`unite`) or the intersection of the set
/// operands of `s`.
spec fn in_merged_class(s: Seq<RegEx>, unite: bool, b: u8) -> bool {
    if unite {
        exists|i: int| 0 <= i < s.len() && #[trigger] is_class(s[i]) && class_set(s[i]).contains(b)
    } else {
        forall|i: int| 0 <= i < s.len() && #[trigger] is_class(s[i]) ==> class_set(s[i]).contains(b)
    }
}

/// The number of expressions of `s` that are not set operands.
spec fn count_others(s: Seq<RegEx>) -> nat
    decreases s.len(),
{
    if s.len() == 0 {
        0
    } else {
        count_others(s.drop_last()) + if is_class(s.last()) { 0nat } else { 1nat }
    }
}

/// Combines the set operands of a union (`unite`) or an intersection into
/// one set operand, inserted in order among the other operands.
fn merged_sets(res: Vec<RegEx>, unite: bool) -> (r: Vec<RegEx>)
    requires
        all_wf(res@),
    ensures
        all_wf(r@),
        all_not_free(res@) ==> all_not_free(r@),
        r@.len() <= res@.len(),
        res@.len() > 0 ==> r@.len() > 0,
        unite ==> forall|w: Seq<u8>| #[trigger] lang_any(r@, w) == lang_any(res@, w),
        !unite ==> forall|w: Seq<u8>| #[trigger] lang_all(r@, w) == lang_all(res@, w),
        forall|x: RegEx| !is_class(x) ==> (#[trigger] r@.contains(x) == res@.contains(x)),
        has_class(r@) == has_class(res@),
        forall|i: int, b: u8| 0 <= i < r@.len() && #[trigger] is_class(r@[i]) ==> (#[trigger] class_set(r@[i]).contains(b) == in_merged_class(res@, unite, b)),
        r@.len() == count_others(res@) + if has_class(res@) { 1nat } else { 0nat },
{
    let ghost res0 = res@;
    let ghost mut done: Seq<RegEx> = Seq::empty();
    let mut res = res;
    let mut refs: Vec<RegEx> = Vec::new();
    let mut acc: Option<CharSet> = Option::None;
    while res.len() > 0
        invariant
            all_wf(res@),
            all_wf(refs@),
            all_not_free(res0) ==> all_not_free(res@) && all_not_free(refs@),
            acc matches Option::Some(cs) ==> cs.wf(),
            refs@.len() + res@.len() + (if acc is Some { 1int } else { 0int }) <= res0.len(),
            res0.len() > 0 ==> refs@.len() + res@.len() + (if acc is Some { 1int } else { 0int }) > 0,
            unite ==> forall|w: Seq<u8>| #[trigger] lang_any(res0, w) == (lang_any(refs@, w) || opt_class_lang(acc, w) || lang_any(res@, w)),
            !unite ==> forall|w: Seq<u8>| #[trigger] lang_all(res0, w) == (lang_all(refs@, w) && opt_class_lang_all(acc, w) && lang_all(res@, w)),
            res0 == done + res@,
            forall|y: RegEx| !is_class(y) ==> (#[trigger] refs@.contains(y) == done.contains(y)),
            forall|i: int| 0 <= i < refs@.len() ==> !#[trigger] is_class(refs@[i]),
            refs@.len() == count_others(done),
            (acc is Some) == has_class(done),
            acc matches Option::Some(cs) ==> forall|b: u8| #[trigger] cs@.contains(b) == in_merged_class(done, unite, b),
        decreases res@.len(),
    {
        let ghost old_res = res@;
        let ghost old_done = done;
        let ghost old_refs = refs@;
        let ghost old_acc = acc;
        let x = res.remove(0);
        proof {
            assert(old_res[0] == x);
            assert(res@ =~= old_res.drop_first());
            done = done.push(x);
            assert(res0 =~= done + res@);
            assert(done.drop_last() =~= old_done);
            assert(done.last() == x);
            assert forall|y: RegEx| #[trigger] done.contains(y) == (old_done.contains(y) || y == x) by {
                if done.contains(y) {
                    let i = choose|i: int| 0 <= i < done.len() && done[i] == y;
                    if i < old_done.len() {
                        assert(old_done[i] == y);
                    }
                }
                if old_done.contains(y) {
                    let i = choose|i: int| 0 <= i < old_done.len() && old_done[i] == y;
                    assert(done[i] == y);
                }
                assert(done[old_done.len() as int] == x);
            }
            assert(has_class(done) == (has_class(old_done) || is_class(x))) by {
                if has_class(done) {
                    let i = choose|i: int| 0 <= i < done.len() && #[trigger] is_class(done[i]);
                    if i < old_done.len() {
                        assert(old_done[i] == done[i]);
                    }
                }
                if has_class(old_done) {
                    let i = choose|i: int| 0 <= i < old_done.len() && #[trigger] is_class(old_done[i]);
                    assert(done[i] == old_done[i]);
                }
                assert(done[old_done.len() as int] == x);
            }
            assert forall|b: u8| #[trigger] in_merged_class(done, unite, b) == (in_merged_class(old_done, unite, b) && (!unite ==> (is_class(x) ==> class_set(x).contains(b))) || (unite && is_class(x) && class_set(x).contains(b))) by {
                assert(done[old_done.len() as int] == x);
                assert forall|i: int| 0 <= i < old_done.len() implies #[trigger] done[i] == old_done[i] by {}
                if unite {
                    if in_merged_class(done, unite, b) {
                        let i = choose|i: int| 0 <= i < done.len() && #[trigger] is_class(done[i]) && class_set(done[i]).contains(b);
                        if i < old_done.len() {
                            assert(is_class(old_done[i]));
                        }
                    }
                    if in_merged_class(old_done, unite, b) {
                        let i = choose|i: int| 0 <= i < old_done.len() && #[trigger] is_class(old_done[i]) && class_set(old_done[i]).contains(b);
                        assert(is_class(done[i]));
                    }
                } else {
                    if in_merged_class(done, unite, b) {
                        assert forall|i: int| 0 <= i < old_done.len() && #[trigger] is_class(old_done[i]) implies class_set(old_done[i]).contains(b) by {
                            assert(is_class(done[i]));
                        }
                    }
                    if in_merged_class(old_done, unite, b) && (is_class(x) ==> class_set(x).contains(b)) {
                        assert forall|i: int| 0 <= i < done.len() && #[trigger] is_class(done[i]) implies class_set(done[i]).contains(b) by {
                            if i < old_done.len() {
                                assert(is_class(old_done[i]));
                            }
                        }
                    }
                }
            }
            assert(all_wf(old_res) == (wf(old_res[0]) && all_wf(old_res.drop_first())));
            assert(all_not_free(old_res) == (not_free(old_res[0]) && all_not_free(old_res.drop_first())));
        }
        let is_class = match &*x.root {
            Operator::Class(_) => true,
            _ => false,
        };
        if is_class {
            match &*x.root {
                Operator::Class(cs) => {
                    let next = match acc {
                        Option::None => cs.duplicate(),
                        Option::Some(a) => if unite {
                            a.union(cs)
                        } else {
                            a.intersection(cs)
                        },
                    };
                    acc = Option::Some(next);
                    proof {
                        assert forall|w: Seq<u8>| #[trigger] lang(x, w) == (w.len() == 1 && cs@.contains(w[0])) by {}
                        if unite {
                            assert forall|w: Seq<u8>| #[trigger] lang_any(res0, w) == (lang_any(refs@, w) || opt_class_lang(acc, w) || lang_any(res@, w)) by {
                                assert(lang_any(old_res, w) == (lang(old_res[0], w) || lang_any(old_res.drop_first(), w)));
                            }
                        } else {
                            assert forall|w: Seq<u8>| #[trigger] lang_all(res0, w) == (lang_all(refs@, w) && opt_class_lang_all(acc, w) && lang_all(res@, w)) by {
                                assert(lang_all(old_res, w) == (lang(old_res[0], w) && lang_all(old_res.drop_first(), w)));
                            }
                        }
                    }
                },
                _ => {},
            }
        } else {
            refs.push(x);
            proof {
                assert forall|y: RegEx| #[trigger] refs@.contains(y) == (old_refs.contains(y) || y == x) by {
                    if refs@.contains(y) {
                        let i = choose|i: int| 0 <= i < refs@.len() && refs@[i] == y;
                        if i < old_refs.len() {
                            assert(old_refs[i] == y);
                        }
                    }
                    if old_refs.contains(y) {
                        let i = choose|i: int| 0 <= i < old_refs.len() && old_refs[i] == y;
                        assert(refs@[i] == y);
                    }
                    assert(refs@[old_refs.len() as int] == x);
                }
                assert forall|w: Seq<u8>| #[trigger] lang_any(refs@, w) == (lang_any(old_refs, w) || lang(x, w)) by {
                    lemma_seq_push(old_refs, x, w);
                }
                assert forall|w: Seq<u8>| #[trigger] lang_all(refs@, w) == (lang_all(old_refs, w) && lang(x, w)) by {
                    lemma_seq_push(old_refs, x, w);
                }
                lemma_seq_push(old_refs, x, Seq::empty());
                if unite {
                    assert forall|w: Seq<u8>| #[trigger] lang_any(res0, w) == (lang_any(refs@, w) || opt_class_lang(acc, w) || lang_any(res@, w)) by {
                        assert(lang_any(old_res, w) == (lang(old_res[0], w) || lang_any(old_res.drop_first(), w)));
                    }
                } else {
                    assert forall|w: Seq<u8>| #[trigger] lang_all(res0, w) == (lang_all(refs@, w) && opt_class_lang_all(acc, w) && lang_all(res@, w)) by {
                        assert(lang_all(old_res, w) == (lang(old_res[0], w) && lang_all(old_res.drop_first(), w)));
                    }
                }
            }
        }
    }
    match acc {
        Option::None => {
            proof {
                assert(res0 =~= done);
                if has_class(refs@) {
                    let i = choose|i: int| 0 <= i < refs@.len() && #[trigger] is_class(refs@[i]);
                }
                assert forall|w: Seq<u8>| #[trigger] lang_any(refs@, w) == (lang_any(refs@, w) || opt_class_lang(acc, w) || lang_any(res@, w)) by {}
            }
            refs
        },
        Option::Some(cs) => {
            let ghost gcs = cs;
            let node = RegEx::new(Operator::Class(cs));
            let ghost gnode = node;
            let mut single: Vec<RegEx> = Vec::new();
            single.push(node);
            let ghost grefs = refs@;
            let ghost gsingle = single@;
            let r = merge(refs, single);
            proof {
                assert forall|w: Seq<u8>| #[trigger] lang(gnode, w) == opt_class_lang(acc, w) by {}
                assert forall|x: RegEx| #[trigger] r@.contains(x) == grefs.push(gnode).contains(x) by {
                    assert(gsingle =~= seq![gnode]);
                    if grefs.push(gnode).contains(x) {
                        let i = choose|i: int| 0 <= i < grefs.push(gnode).len() && grefs.push(gnode)[i] == x;
                        if i < grefs.len() {
                            assert(grefs[i] == x);
                        } else {
                            assert(gsingle[0] == x);
                        }
                    }
                    if grefs.contains(x) {
                        let i = choose|i: int| 0 <= i < grefs.len() && grefs[i] == x;
                        assert(grefs.push(gnode)[i] == x);
                    }
                    if gsingle.contains(x) {
                        assert(grefs.push(gnode)[grefs.len() as int] == x);
                    }
                }
                lemma_same_members(r@, grefs.push(gnode), Seq::empty());
                lemma_seq_push(grefs, gnode, Seq::empty());
                assert forall|w: Seq<u8>| #[trigger] lang_any(r@, w) == lang_any(grefs.push(gnode), w) by {
                    lemma_same_members(r@, grefs.push(gnode), w);
                }
                assert forall|w: Seq<u8>| #[trigger] lang_all(r@, w) == lang_all(grefs.push(gnode), w) by {
                    lemma_same_members(r@, grefs.push(gnode), w);
                }
                assert forall|w: Seq<u8>| #[trigger] lang_any(grefs.push(gnode), w) == (lang_any(grefs, w) || lang(gnode, w)) by {
                    lemma_seq_push(grefs, gnode, w);
                }
                assert forall|w: Seq<u8>| #[trigger] lang_all(grefs.push(gnode), w) == (lang_all(grefs, w) && lang(gnode, w)) by {
                    lemma_seq_push(grefs, gnode, w);
                }
                assert(res0 =~= done);
                assert(grefs.push(gnode)[grefs.len() as int] == gnode);
                assert(r@.contains(gnode));
                let k = choose|k: int| 0 <= k < r@.len() && r@[k] == gnode;
                assert(is_class(r@[k]));
                assert forall|i: int, b: u8| 0 <= i < r@.len() && #[trigger] is_class(r@[i]) implies (#[trigger] class_set(r@[i]).contains(b) == in_merged_class(res0, unite, b)) by {
                    assert(r@.contains(r@[i]));
                    if grefs.contains(r@[i]) {
                        let j = choose|j: int| 0 <= j < grefs.len() && grefs[j] == r@[i];
                        assert(!is_class(grefs[j]));
                    }
                    assert(r@[i] == gnode);
                    assert(class_set(gnode) == gcs@);
                }
            }
            r
        },
    }
}


/// Copies of the operands of `r` as a union: its operands when `r` is a
/// union, `r` itself otherwise.
fn union_operands(r: &RegEx) -> (v: Vec<RegEx>)
    requires
        wf(*r),
    ensures
        v@.len() >= 1,
        all_wf(v@),
        not_free(*r) ==> all_not_free(v@),
        forall|w: Seq<u8>| #[trigger] lang_any(v@, w) == lang(*r, w),
{
    match &*r.root {
        Operator::Or(a) => {
            let v = duplicate_vec(a);
            proof {
                lemma_same_seq(v@, a@);
                assert forall|w: Seq<u8>| #[trigger] lang_any(v@, w) == lang(*r, w) by {
                    lemma_lang_any(v@, w);
                    lemma_lang_any(a@, w);
                    if lang_any(v@, w) {
                        let i = choose|i: int| 0 <= i < v@.len() && #[trigger] lang(v@[i], w);
                        assert(equivalent(v@[i], a@[i]));
                        assert(lang(a@[i], w));
                    }
                    if lang_any(a@, w) {
                        let i = choose|i: int| 0 <= i < a@.len() && #[trigger] lang(a@[i], w);
                        assert(equivalent(v@[i], a@[i]));
                        assert(lang(v@[i], w));
                    }
                }
            }
            v
        },
        _ => {
            let c = r.duplicate();
            let ghost gc = c;
            let mut v: Vec<RegEx> = Vec::new();
            v.push(c);
            proof {
                lemma_same(gc, *r);
                assert(v@ =~= Seq::<RegEx>::empty().push(gc));
                lemma_seq_push(Seq::<RegEx>::empty(), gc, Seq::empty());
                assert forall|w: Seq<u8>| #[trigger] lang_any(v@, w) == lang(*r, w) by {
                    lemma_seq_push(Seq::<RegEx>::empty(), gc, w);
                }
            }
            v
        },
    }
}

/// Copies of the operands of `r` as an intersection: its operands when `r`
/// is an intersection, `r` itself otherwise.
fn intersection_operands(r: &RegEx) -> (v: Vec<RegEx>)
    requires
        wf(*r),
    ensures
        v@.len() >= 1,
        all_wf(v@),
        not_free(*r) ==> all_not_free(v@),
        forall|w: Seq<u8>| #[trigger] lang_all(v@, w) == lang(*r, w),
{
    match &*r.root {
        Operator::And(a) => {
            let v = duplicate_vec(a);
            proof {
                lemma_same_seq(v@, a@);
                assert forall|w: Seq<u8>| #[trigger] lang_all(v@, w) == lang(*r, w) by {
                    lemma_lang_all(v@, w);
                    lemma_lang_all(a@, w);
                    if lang_all(v@, w) {
                        assert forall|i: int| 0 <= i < a@.len() implies #[trigger] lang(a@[i], w) by {
                            assert(equivalent(v@[i], a@[i]));
                            assert(lang(v@[i], w));
                        }
                    }
                    if lang_all(a@, w) {
                        assert forall|i: int| 0 <= i < v@.len() implies #[trigger] lang(v@[i], w) by {
                            assert(equivalent(v@[i], a@[i]));
                            assert(lang(a@[i], w));
                        }
                    }
                }
            }
            v
        },
        _ => {
            let c = r.duplicate();
            let ghost gc = c;
            let mut v: Vec<RegEx> = Vec::new();
            v.push(c);
            proof {
                lemma_same(gc, *r);
                assert(v@ =~= Seq::<RegEx>::empty().push(gc));
                lemma_seq_push(Seq::<RegEx>::empty(), gc, Seq::empty());
                assert forall|w: Seq<u8>| #[trigger] lang_all(v@, w) == lang(*r, w) by {
                    lemma_seq_push(Seq::<RegEx>::empty(), gc, w);
                }
            }
            v
        },
    }
}

/// The union of the expressions of two operand vectors, in canonical form.
proof fn lemma_count_others_no_class(s: Seq<RegEx>)
    requires
        !has_class(s),
    ensures
        count_others(s) == s.len(),
    decreases s.len(),
{
    if s.len() > 0 {
        assert(!is_class(s[s.len() - 1]));
        assert forall|i: int| 0 <= i < s.drop_last().len() implies !is_class(#[trigger] s.drop_last()[i]) by {
            assert(s.drop_last()[i] == s[i]);
        }
        lemma_count_others_no_class(s.drop_last());
    }
}

fn or_aux(v1: Vec<RegEx>, v2: Vec<RegEx>) -> (r: RegEx)
    requires
        all_wf(v1@),
        all_wf(v2@),
        v1@.len() >= 1,
        v2@.len() >= 1,
    ensures
        *r.root is Or || *r.root is Class,
        wf(r),
        all_not_free(v1@) && all_not_free(v2@) ==> not_free(r),
        forall|w: Seq<u8>| #[trigger] lang(r, w) == (lang_any(v1@, w) || lang_any(v2@, w)),
{
    let ghost g1 = v1@;
    let ghost g2 = v2@;
    let merged = merge(v1, v2);
    let ghost gm = merged@;
    proof {
        assert forall|x: RegEx| #[trigger] gm.contains(x) == (g1 + g2).contains(x) by {
            if (g1 + g2).contains(x) {
                let i = choose|i: int| 0 <= i < (g1 + g2).len() && (g1 + g2)[i] == x;
                if i < g1.len() {
                    assert(g1[i] == x);
                } else {
                    assert(g2[i - g1.len()] == x);
                }
            }
            if g1.contains(x) {
                let i = choose|i: int| 0 <= i < g1.len() && g1[i] == x;
                assert((g1 + g2)[i] == x);
            }
            if g2.contains(x) {
                let i = choose|i: int| 0 <= i < g2.len() && g2[i] == x;
                assert((g1 + g2)[g1.len() + i] == x);
            }
        }
        lemma_seq_props(g1);
        lemma_seq_props(g2);
        lemma_seq_props(g1 + g2);
        assert forall|i: int| 0 <= i < (g1 + g2).len() implies #[trigger] wf((g1 + g2)[i]) by {
            if i < g1.len() {
                assert((g1 + g2)[i] == g1[i]);
            } else {
                assert((g1 + g2)[i] == g2[i - g1.len()]);
            }
        }
        if all_not_free(g1) && all_not_free(g2) {
            assert forall|i: int| 0 <= i < (g1 + g2).len() implies #[trigger] not_free((g1 + g2)[i]) by {
                if i < g1.len() {
                    assert((g1 + g2)[i] == g1[i]);
                } else {
                    assert((g1 + g2)[i] == g2[i - g1.len()]);
                }
            }
        }
        lemma_same_members(gm, g1 + g2, Seq::empty());
    }
    let mut refs = merged_sets(merged, true);
    let ghost gr = refs@;
    proof {
        if !has_class(gm) {
            lemma_count_others_no_class(gm);
        }
        if gr.len() == 1 {
            assert(has_class(gr));
            let i = choose|i: int| 0 <= i < gr.len() && #[trigger] is_class(gr[i]);
            assert(i == 0);
        }
    }
    proof {
        assert forall|w: Seq<u8>| #[trigger] lang_any(gr, w) == (lang_any(g1, w) || lang_any(g2, w)) by {
            lemma_same_members(gm, g1 + g2, w);
            lemma_lang_any(g1, w);
            lemma_lang_any(g2, w);
            lemma_lang_any(g1 + g2, w);
            if lang_any(g1 + g2, w) {
                let i = choose|i: int| 0 <= i < (g1 + g2).len() && #[trigger] lang((g1 + g2)[i], w);
                if i < g1.len() {
                    assert(lang(g1[i], w));
                } else {
                    assert(lang(g2[i - g1.len()], w));
                }
            }
            if lang_any(g1, w) {
                let i = choose|i: int| 0 <= i < g1.len() && #[trigger] lang(g1[i], w);
                assert(lang((g1 + g2)[i], w));
            }
            if lang_any(g2, w) {
                let i = choose|i: int| 0 <= i < g2.len() && #[trigger] lang(g2[i], w);
                assert(lang((g1 + g2)[g1.len() + i], w));
            }
        }
    }
    if refs.len() == 0 {
        let r = RegEx::new(Operator::Void);
        proof {
            assert forall|w: Seq<u8>| #[trigger] lang(r, w) == (lang_any(g1, w) || lang_any(g2, w)) by {
                assert(!lang_any(gr, w));
            }
        }
        r
    } else if refs.len() == 1 {
        let r = refs.pop().unwrap();
        proof {
            assert(gr[0] == r);
            assert(all_wf(gr) == (wf(gr[0]) && all_wf(gr.drop_first())));
            assert(all_not_free(gr) == (not_free(gr[0]) && all_not_free(gr.drop_first())));
            assert forall|w: Seq<u8>| #[trigger] lang(r, w) == (lang_any(g1, w) || lang_any(g2, w)) by {
                assert(lang_any(gr, w) == (lang(gr[0], w) || lang_any(gr.drop_first(), w)));
                assert(!lang_any(gr.drop_first(), w));
            }
        }
        r
    } else {
        let r = RegEx::new(Operator::Or(refs));
        proof {
            assert forall|w: Seq<u8>| #[trigger] lang(r, w) == (lang_any(g1, w) || lang_any(g2, w)) by {
                assert(lang(r, w) == lang_any(gr, w));
            }
        }
        r
    }
}

/// The intersection of the expressions of two operand vectors, in canonical form.
fn and_aux(v1: Vec<RegEx>, v2: Vec<RegEx>) -> (r: RegEx)
    requires
        all_wf(v1@),
        all_wf(v2@),
        v1@.len() >= 1,
        v2@.len() >= 1,
    ensures
        *r.root is And || *r.root is Class,
        wf(r),
        all_not_free(v1@) && all_not_free(v2@) ==> not_free(r),
        forall|w: Seq<u8>| #[trigger] lang(r, w) == (lang_all(v1@, w) && lang_all(v2@, w)),
{
    let ghost g1 = v1@;
    let ghost g2 = v2@;
    let merged = merge(v1, v2);
    let ghost gm = merged@;
    proof {
        assert forall|x: RegEx| #[trigger] gm.contains(x) == (g1 + g2).contains(x) by {
            if (g1 + g2).contains(x) {
                let i = choose|i: int| 0 <= i < (g1 + g2).len() && (g1 + g2)[i] == x;
                if i < g1.len() {
                    assert(g1[i] == x);
                } else {
                    assert(g2[i - g1.len()] == x);
                }
            }
            if g1.contains(x) {
                let i = choose|i: int| 0 <= i < g1.len() && g1[i] == x;
                assert((g1 + g2)[i] == x);
            }
            if g2.contains(x) {
                let i = choose|i: int| 0 <= i < g2.len() && g2[i] == x;
                assert((g1 + g2)[g1.len() + i] == x);
            }
        }
        lemma_seq_props(g1);
        lemma_seq_props(g2);
        lemma_seq_props(g1 + g2);
        assert forall|i: int| 0 <= i < (g1 + g2).len() implies #[trigger] wf((g1 + g2)[i]) by {
            if i < g1.len() {
                assert((g1 + g2)[i] == g1[i]);
            } else {
                assert((g1 + g2)[i] == g2[i - g1.len()]);
            }
        }
        if all_not_free(g1) && all_not_free(g2) {
            assert forall|i: int| 0 <= i < (g1 + g2).len() implies #[trigger] not_free((g1 + g2)[i]) by {
                if i < g1.len() {
                    assert((g1 + g2)[i] == g1[i]);
                } else {
                    assert((g1 + g2)[i] == g2[i - g1.len()]);
                }
            }
        }
        lemma_same_members(gm, g1 + g2, Seq::empty());
    }
    let mut refs = merged_sets(merged, false);
    let ghost gr = refs@;
    proof {
        if !has_class(gm) {
            lemma_count_others_no_class(gm);
        }
        if gr.len() == 1 {
            assert(has_class(gr));
            let i = choose|i: int| 0 <= i < gr.len() && #[trigger] is_class(gr[i]);
            assert(i == 0);
        }
    }
    proof {
        assert forall|w: Seq<u8>| #[trigger] lang_all(gr, w) == (lang_all(g1, w) && lang_all(g2, w)) by {
            lemma_same_members(gm, g1 + g2, w);
            lemma_lang_all(g1, w);
            lemma_lang_all(g2, w);
            lemma_lang_all(g1 + g2, w);
            if lang_all(g1, w) && lang_all(g2, w) {
                assert forall|i: int| 0 <= i < (g1 + g2).len() implies #[trigger] lang((g1 + g2)[i], w) by {
                    if i < g1.len() {
                        assert(lang(g1[i], w));
                    } else {
                        assert(lang(g2[i - g1.len()], w));
                    }
                }
            }
            if lang_all(g1 + g2, w) {
                assert forall|i: int| 0 <= i < g1.len() implies #[trigger] lang(g1[i], w) by {
                    assert(lang((g1 + g2)[i], w));
                }
                assert forall|i: int| 0 <= i < g2.len() implies #[trigger] lang(g2[i], w) by {
                    assert(lang((g1 + g2)[g1.len() + i], w));
                }
            }
        }
    }
    if refs.len() == 1 {
        let r = refs.pop().unwrap();
        proof {
            assert(gr[0] == r);
            assert(all_wf(gr) == (wf(gr[0]) && all_wf(gr.drop_first())));
            assert(all_not_free(gr) == (not_free(gr[0]) && all_not_free(gr.drop_first())));
            assert forall|w: Seq<u8>| #[trigger] lang(r, w) == (lang_all(g1, w) && lang_all(g2, w)) by {
                assert(lang_all(gr, w) == (lang(gr[0], w) && lang_all(gr.drop_first(), w)));
                assert(gr.drop_first().len() == 0);
            }
        }
        r
    } else {
        let r = RegEx::new(Operator::And(refs));
        proof {
            assert forall|w: Seq<u8>| #[trigger] lang(r, w) == (lang_all(g1, w) && lang_all(g2, w)) by {
                assert(lang(r, w) == lang_all(gr, w));
            }
        }
        r
    }
}

impl RegEx {
    /// Union: the strings matched by either expression.
    pub fn or(&self, other: &Self) -> (r: Self)
        requires
            wf(*self),
            wf(*other),
        ensures
            wf(r),
            not_free(*self) && not_free(*other) ==> not_free(r),
            forall|w: Seq<u8>| #[trigger] lang(r, w) == (lang(*self, w) || lang(*other, w)),
            *other.root is Void ==> same(r, *self),
            *self.root is Void ==> same(r, *other),
            *self.root is Class && *other.root is Class ==> ({
                let u = (*self.root)->Class_0@.union((*other.root)->Class_0@);
                if u =~= Set::<u8>::empty() { *r.root is Void } else { *r.root is Class && (*r.root)->Class_0@ == u }
            }),
            or_post(*self, *other, r),
    {
        let ghost me = *self;
        let ghost ot = *other;
        match (&*self.root, &*other.root) {
            (_, Operator::Void) => {
                let r = self.duplicate();
                proof {
                    lemma_same(r, me);
                }
                r
            },
            (Operator::Void, _) => {
                let r = other.duplicate();
                proof {
                    lemma_same(r, ot);
                }
                r
            },
            (Operator::Class(x), Operator::Class(y)) => {
                let u = x.union(y);
                let r = RegEx::set(u);
                proof {
                    if !(x@.union(y@) =~= Set::<u8>::empty()) {
                        assert(u@ != Set::<u8>::empty());
                    }
                }
                r
            },
            _ => {
                let v1 = union_operands(self);
                let v2 = union_operands(other);
                or_aux(v1, v2)
            },
        }
    }

    /// Intersection: the strings matched by both expressions.
    pub fn and(&self, other: &Self) -> (r: Self)
        requires
            wf(*self),
            wf(*other),
        ensures
            wf(r),
            not_free(*self) && not_free(*other) ==> not_free(r),
            forall|w: Seq<u8>| #[trigger] lang(r, w) == (lang(*self, w) && lang(*other, w)),
            *self.root is Void || *other.root is Void ==> *r.root is Void,
            *self.root is Epsilon || *other.root is Epsilon ==> (*r.root is Epsilon || *r.root is Void),
            *self.root is Class && *other.root is Class ==> ({
                let u = (*self.root)->Class_0@.intersect((*other.root)->Class_0@);
                if u =~= Set::<u8>::empty() { *r.root is Void } else { *r.root is Class && (*r.root)->Class_0@ == u }
            }),
            and_post(*self, *other, r),
    {
        let ghost me = *self;
        let ghost ot = *other;
        match (&*self.root, &*other.root) {
            (_, Operator::Void) => RegEx::new(Operator::Void),
            (Operator::Void, _) => RegEx::new(Operator::Void),
            (_, Operator::Epsilon) => {
                if self.is_nullable() {
                    let r = RegEx::new(Operator::Epsilon);
                    proof {
                        assert forall|w: Seq<u8>| #[trigger] lang(r, w) == (lang(me, w) && lang(ot, w)) by {
                            if w.len() == 0 {
                                assert(w =~= Seq::<u8>::empty());
                            }
                        }
                    }
                    r
                } else {
                    let r = RegEx::new(Operator::Void);
                    proof {
                        assert forall|w: Seq<u8>| #[trigger] lang(r, w) == (lang(me, w) && lang(ot, w)) by {
                            if w.len() == 0 {
                                assert(w =~= Seq::<u8>::empty());
                            }
                        }
                    }
                    r
                }
            },
            (Operator::Epsilon, _) => {
                if other.is_nullable() {
                    let r = RegEx::new(Operator::Epsilon);
                    proof {
                        assert forall|w: Seq<u8>| #[trigger] lang(r, w) == (lang(me, w) && lang(ot, w)) by {
                            if w.len() == 0 {
                                assert(w =~= Seq::<u8>::empty());
                            }
                        }
                    }
                    r
                } else {
                    let r = RegEx::new(Operator::Void);
                    proof {
                        assert forall|w: Seq<u8>| #[trigger] lang(r, w) == (lang(me, w) && lang(ot, w)) by {
                            if w.len() == 0 {
                                assert(w =~= Seq::<u8>::empty());
                            }
                        }
                    }
                    r
                }
            },
            (Operator::Class(x), Operator::Class(y)) => {
                let u = x.intersection(y);
                let r = RegEx::set(u);
                proof {
                    if !(x@.intersect(y@) =~= Set::<u8>::empty()) {
                        assert(u@ != Set::<u8>::empty());
                    }
                }
                r
            },
            _ => {
                let v1 = intersection_operands(self);
                let v2 = intersection_operands(other);
                and_aux(v1, v2)
            },
        }
    }
}


/// What the complement constructor matches: single bytes when `r` matches
/// nothing, the single bytes outside a set, and otherwise the complement.
pub open spec fn not_lang(r: RegEx, w: Seq<u8>) -> bool {
    match *r.root {
        Operator::Void => w.len() == 1,
        Operator::Class(cs) => w.len() == 1 && !cs@.contains(w[0]),
        _ => !lang(r, w),
    }
}

/// `w` splits into a string matched by `r` followed by repetitions of `r`.
pub open spec fn plus_lang(r: RegEx, w: Seq<u8>) -> bool {
    exists|k: int| 0 <= k <= w.len() && #[trigger] lang(r, w.take(k)) && star_lang(r, w.skip(k))
}

/// Concatenating an expression with its repetition gives `plus_lang`.
proof fn lemma_plus(me: RegEx, s: RegEx, r: RegEx)
    requires
        forall|u: Seq<u8>| #[trigger] lang(s, u) == star_lang(me, u),
        forall|w: Seq<u8>| #[trigger] lang(r, w) == cat_lang(me, s, w),
    ensures
        forall|w: Seq<u8>| #[trigger] lang(r, w) == plus_lang(me, w),
{
    assert forall|w: Seq<u8>| #[trigger] lang(r, w) == plus_lang(me, w) by {
        if cat_lang(me, s, w) {
            let k = choose|k: int| 0 <= k <= w.len() && #[trigger] lang(me, w.take(k)) && lang(s, w.skip(k));
            assert(star_lang(me, w.skip(k)));
        }
        if plus_lang(me, w) {
            let k = choose|k: int| 0 <= k <= w.len() && #[trigger] lang(me, w.take(k)) && star_lang(me, w.skip(k));
            assert(lang(s, w.skip(k)));
        }
    }
}

impl RegEx {
    /// Complement. A set is complemented within the single bytes, and the
    /// empty expression becomes the set of all bytes; any other expression
    /// is complemented within all strings.
    pub fn not(&self) -> (r: Self)
        requires
            wf(*self),
        ensures
            wf(r),
            forall|w: Seq<u8>| #[trigger] lang(r, w) == not_lang(*self, w),
            *self.root is Void ==> *r.root is Class && (*r.root)->Class_0@ == Set::<u8>::full(),
            *self.root is Class ==> ({
                let u = (*self.root)->Class_0@.complement();
                if u =~= Set::<u8>::empty() { *r.root is Void } else { *r.root is Class && (*r.root)->Class_0@ == u }
            }),
            *self.root is Not ==> same(r, (*self.root)->Not_0),
            !(*self.root is Void || *self.root is Class || *self.root is Not) ==> *r.root is Not && same((*r.root)->Not_0, *self),
            not_post(*self, r),
    {
        let ghost me = *self;
        match &*self.root {
            Operator::Void => {
                let u = CharSet::universe();
                proof {
                    assert(u@.contains(0u8));
                }
                RegEx::set(u)
            },
            Operator::Class(cs) => {
                let u = cs.complement();
                let r = RegEx::set(u);
                proof {
                    if !(cs@.complement() =~= Set::<u8>::empty()) {
                        assert(u@ != Set::<u8>::empty());
                    }
                }
                r
            },
            Operator::Not(a) => {
                let r = a.duplicate();
                proof {
                    lemma_same(r, *a);
                }
                r
            },
            _ => {
                let d = self.duplicate();
                let ghost gd = d;
                let r = RegEx::new(Operator::Not(d));
                proof {
                    lemma_same(gd, me);
                    assert forall|w: Seq<u8>| #[trigger] lang(r, w) == not_lang(me, w) by {
                        assert(lang(r, w) == !lang(gd, w));
                    }
                }
                r
            },
        }
    }

    /// Zero or one occurrence.
    pub fn opt(&self) -> (r: Self)
        requires
            wf(*self),
        ensures
            wf(r),
            not_free(*self) ==> not_free(r),
            forall|w: Seq<u8>| #[trigger] lang(r, w) == (lang(*self, w) || w.len() == 0),
            exists|e: RegEx| #![trigger or_post(*self, e, r)] *e.root is Epsilon && or_post(*self, e, r),
    {
        let e = RegEx::empty();
        let ghost ge = e;
        let r = self.or(&e);
        assert(*ge.root is Epsilon && or_post(*self, ge, r));
        r
    }

    /// One or more repetitions.
    pub fn plus(&self) -> (r: Self)
        requires
            wf(*self),
        ensures
            wf(r),
            not_free(*self) ==> not_free(r),
            forall|w: Seq<u8>| #[trigger] lang(r, w) == plus_lang(*self, w),
            exists|t: RegEx| #![trigger cat_post(*self, t, r)] star_post(*self, t) && cat_post(*self, t, r),
    {
        let s = self.star();
        let ghost gs = s;
        let r = self.concat(&s);
        proof {
            lemma_plus(*self, gs, r);
            assert(star_post(*self, gs) && cat_post(*self, gs, r));
        }
        r
    }

    /// Difference: the strings of `self` in the complement of `other`.
    pub fn diff(&self, other: &Self) -> (r: Self)
        requires
            wf(*self),
            wf(*other),
        ensures
            wf(r),
            forall|w: Seq<u8>| #[trigger] lang(r, w) == (lang(*self, w) && not_lang(*other, w)),
            exists|n: RegEx| #![trigger and_post(*self, n, r)] not_post(*other, n) && and_post(*self, n, r),
    {
        let n = other.not();
        let ghost gn = n;
        let r = self.and(&n);
        proof {
            assert(not_post(*other, gn) && and_post(*self, gn, r));
            assert forall|w: Seq<u8>| #[trigger] lang(r, w) == (lang(*self, w) && not_lang(*other, w)) by {
                assert(lang(gn, w) == not_lang(*other, w));
            }
        }
        r
    }
}

/// Copies of the elements of `v` from index `start` on.
fn copy_from(v: &Vec<RegEx>, start: usize) -> (r: Vec<RegEx>)
    requires
        start <= v@.len(),
    ensures
        same_seq(r@, v@.skip(start as int)),
{
    let mut out: Vec<RegEx> = Vec::new();
    let mut i = start;
    while i < v.len()
        invariant
            start <= i <= v@.len(),
            out@.len() == i - start,
            forall|k: int| 0 <= k < out@.len() ==> #[trigger] same(out@[k], v@[start + k]),
        decreases v@.len() - i,
    {
        let c = v[i].duplicate();
        out.push(c);
        i += 1;
    }
    proof {
        assert forall|k: int| 0 <= k < out@.len() implies #[trigger] same(out@[k], v@.skip(start as int)[k]) by {
            assert(v@.skip(start as int)[k] == v@[start + k]);
        }
        lemma_same_seq_quant(out@, v@.skip(start as int));
    }
    out
}

/// The tail of a sequence from `i` is its element at `i` followed by the tail from `i + 1`.
pub proof fn lemma_skip_split(s: Seq<RegEx>, i: int)
    requires
        0 <= i < s.len(),
    ensures
        s.skip(i)[0] == s[i],
        s.skip(i).drop_first() == s.skip(i + 1),
        s.skip(i).len() == s.len() - i,
        i + 1 == s.len() ==> s.skip(i) == seq![s[i]],
        all_wf(s) ==> all_wf(s.skip(i)) && wf(s[i]),
        all_not_free(s) ==> all_not_free(s.skip(i)) && not_free(s[i]),
{
    assert(s.skip(i).drop_first() =~= s.skip(i + 1));
    if i + 1 == s.len() {
        assert(s.skip(i) =~= seq![s[i]]);
    }
    lemma_seq_props(s);
    lemma_seq_props(s.skip(i));
    if all_wf(s) {
        assert forall|k: int| 0 <= k < s.skip(i).len() implies #[trigger] wf(s.skip(i)[k]) by {
            assert(s.skip(i)[k] == s[i + k]);
        }
    }
    if all_not_free(s) {
        assert forall|k: int| 0 <= k < s.skip(i).len() implies #[trigger] not_free(s.skip(i)[k]) by {
            assert(s.skip(i)[k] == s[i + k]);
        }
    }
}

/// Prefixing a byte before splitting.
pub proof fn lemma_cons_split(a: u8, w: Seq<u8>, k: int)
    requires
        1 <= k <= w.len() + 1,
    ensures
        (seq![a] + w).take(k) == seq![a] + w.take(k - 1),
        (seq![a] + w).skip(k) == w.skip(k - 1),
{
    assert((seq![a] + w).take(k) =~= seq![a] + w.take(k - 1));
    assert((seq![a] + w).skip(k) =~= w.skip(k - 1));
}


/// The derivative of the concatenation of `v[i..]` (at least two expressions).
#[verifier::spinoff_prover]
#[verifier::rlimit(30)]
fn deriv_cat_from(v: &Vec<RegEx>, i: usize, a: u8) -> (r: RegEx)
    requires
        i + 2 <= v@.len(),
        all_wf(v@),
    ensures
        wf(r),
        all_not_free(v@) ==> not_free(r),
        all_not_free(v@) ==> forall|w: Seq<u8>| #[trigger] lang(r, w) == lang_seq(v@.skip(i as int), seq![a] + w),
        deriv_cat_post(v@, i as int, a, r),
    decreases v, v@.len() - i,
{
    assert(i + 2 <= v.len());
    proof {
        lemma_skip_split(v@, i as int);
        lemma_skip_split(v@, i + 1);
        assert(decreases_to!(*v => v@[i as int]));
        assert(decreases_to!(*v => v@[i + 1]));
    }
    let ghost rest = v@.skip(i + 1);
    let head = &v[i];
    let s = if i + 2 == v.len() {
        v[i + 1].duplicate()
    } else {
        RegEx::new(Operator::Cat(copy_from(v, i + 1)))
    };
    let ghost gs = s;
    proof {
        if i + 2 == v@.len() {
            lemma_same(gs, v@[i + 1]);
            assert forall|u: Seq<u8>| #[trigger] lang(gs, u) == lang_seq(rest, u) by {
                lemma_lang_seq_single(v@[i + 1], u);
            }
        } else {
            match *gs.root {
                Operator::Cat(c) => {
                    lemma_same_seq(c@, rest);
                    assert forall|u: Seq<u8>| #[trigger] lang(gs, u) == lang_seq(rest, u) by {
                        lemma_lang_seq_congr(c@, rest, u);
                    }
                    assert(all_wf(c@));
                    lemma_skip_split(v@, i + 1);
                },
                _ => {},
            }
        }
    }
    let dh = head.deriv(a);
    let ghost gdh = dh;
    let left = dh.concat(&s);
    let ghost gleft = left;
    let right = if head.is_nullable() {
        if i + 2 == v.len() {
            v[i + 1].deriv(a)
        } else {
            deriv_cat_from(v, i + 1, a)
        }
    } else {
        RegEx::none()
    };
    let ghost gright = right;
    let r = left.or(&right);
    proof {
        lemma_deriv_cat_post_intro(v@, i as int, a, r, gdh, gs, gleft, gright);
        if all_not_free(v@) {
            lemma_skip_split(v@, i as int);
            lemma_skip_split(v@, i + 1);
            assert forall|w: Seq<u8>| #[trigger] lang(r, w) == lang_seq(v@.skip(i as int), seq![a] + w) by {
                let aw = seq![a] + w;
                lemma_lang_seq(v@.skip(i as int), aw);
                lemma_nullable(v@[i as int]);
                assert(aw.take(0) =~= Seq::<u8>::empty());
                assert(aw.skip(0) =~= aw);
                if i + 2 == v@.len() {
                    lemma_lang_seq_single(v@[i + 1], aw);
                }
                // right covers the split at 0
                assert(lang(gright, w) == (nullable(v@[i as int]) && lang_seq(rest, aw)));
                if lang_seq(v@.skip(i as int), aw) {
                    let k = choose|k: int| 0 <= k <= aw.len() && #[trigger] lang(v@.skip(i as int)[0], aw.take(k)) && lang_seq(v@.skip(i as int).drop_first(), aw.skip(k));
                    if k >= 1 {
                        lemma_cons_split(a, w, k);
                        assert(lang(gdh, w.take(k - 1)));
                        assert(lang(gs, w.skip(k - 1)));
                        assert(cat_lang(gdh, gs, w));
                    }
                }
                if lang(gleft, w) {
                    let j = choose|j: int| 0 <= j <= w.len() && #[trigger] lang(gdh, w.take(j)) && lang(gs, w.skip(j));
                    lemma_cons_split(a, w, j + 1);
                    assert(lang(v@.skip(i as int)[0], aw.take(j + 1)) && lang_seq(v@.skip(i as int).drop_first(), aw.skip(j + 1)));
                }
                if lang(gright, w) {
                    assert(lang(v@.skip(i as int)[0], aw.take(0)) && lang_seq(v@.skip(i as int).drop_first(), aw.skip(0)));
                }
            }
        }
    }
    r
}

/// The derivative of the union of `v[i..]` (at least two expressions).
fn deriv_or_from(v: &Vec<RegEx>, i: usize, a: u8) -> (r: RegEx)
    requires
        i + 2 <= v@.len(),
        all_wf(v@),
    ensures
        wf(r),
        all_not_free(v@) ==> not_free(r),
        all_not_free(v@) ==> forall|w: Seq<u8>| #[trigger] lang(r, w) == lang_any(v@.skip(i as int), seq![a] + w),
        deriv_or_post(v@, i as int, a, r),
    decreases v, v@.len() - i,
{
    assert(i + 2 <= v.len());
    proof {
        lemma_skip_split(v@, i as int);
        lemma_skip_split(v@, i + 1);
        assert(decreases_to!(*v => v@[i as int]));
        assert(decreases_to!(*v => v@[i + 1]));
    }
    let dh = v[i].deriv(a);
    let ghost gdh = dh;
    let rest = if i + 2 == v.len() {
        v[i + 1].deriv(a)
    } else {
        deriv_or_from(v, i + 1, a)
    };
    let ghost grest = rest;
    let r = dh.or(&rest);
    proof {
        lemma_deriv_or_post_intro(v@, i as int, a, r, gdh, grest);
        if all_not_free(v@) {
            assert forall|w: Seq<u8>| #[trigger] lang(r, w) == lang_any(v@.skip(i as int), seq![a] + w) by {
                let aw = seq![a] + w;
                assert(lang_any(v@.skip(i as int), aw) == (lang(v@.skip(i as int)[0], aw) || lang_any(v@.skip(i as int).drop_first(), aw)));
                if i + 2 == v@.len() {
                    assert(lang_any(v@.skip(i + 1), aw) == (lang(v@.skip(i + 1)[0], aw) || lang_any(v@.skip(i + 1).drop_first(), aw)));
                    assert(v@.skip(i + 1).drop_first().len() == 0);
                }
            }
        }
    }
    r
}

/// The derivative of the intersection of `v[i..]` (at least two expressions).
fn deriv_and_from(v: &Vec<RegEx>, i: usize, a: u8) -> (r: RegEx)
    requires
        i + 2 <= v@.len(),
        all_wf(v@),
    ensures
        wf(r),
        all_not_free(v@) ==> not_free(r),
        all_not_free(v@) ==> forall|w: Seq<u8>| #[trigger] lang(r, w) == lang_all(v@.skip(i as int), seq![a] + w),
        deriv_and_post(v@, i as int, a, r),
    decreases v, v@.len() - i,
{
    assert(i + 2 <= v.len());
    proof {
        lemma_skip_split(v@, i as int);
        lemma_skip_split(v@, i + 1);
        assert(decreases_to!(*v => v@[i as int]));
        assert(decreases_to!(*v => v@[i + 1]));
    }
    let dh = v[i].deriv(a);
    let ghost gdh = dh;
    let rest = if i + 2 == v.len() {
        v[i + 1].deriv(a)
    } else {
        deriv_and_from(v, i + 1, a)
    };
    let ghost grest = rest;
    let r = dh.and(&rest);
    proof {
        lemma_deriv_and_post_intro(v@, i as int, a, r, gdh, grest);
        if all_not_free(v@) {
            assert forall|w: Seq<u8>| #[trigger] lang(r, w) == lang_all(v@.skip(i as int), seq![a] + w) by {
                let aw = seq![a] + w;
                assert(lang_all(v@.skip(i as int), aw) == (lang(v@.skip(i as int)[0], aw) && lang_all(v@.skip(i as int).drop_first(), aw)));
                if i + 2 == v@.len() {
                    assert(lang_all(v@.skip(i + 1), aw) == (lang(v@.skip(i + 1)[0], aw) && lang_all(v@.skip(i + 1).drop_first(), aw)));
                    assert(v@.skip(i + 1).drop_first().len() == 0);
                }
            }
        }
    }
    r
}

impl RegEx {
    /// The Brzozowski derivative with respect to byte `a`. For an expression
    /// without complements it matches exactly the strings `w` such that
    /// `a` followed by `w` is matched by `self`.
    pub fn deriv(&self, a: u8) -> (r: Self)
        requires
            wf(*self),
        ensures
            wf(r),
            not_free(*self) ==> not_free(r),
            not_free(*self) ==> forall|w: Seq<u8>| #[trigger] lang(r, w) == lang(*self, seq![a] + w),
            *self.root is Void || *self.root is Epsilon ==> *r.root is Void,
            *self.root is Class ==> if (*self.root)->Class_0@.contains(a) { *r.root is Epsilon } else { *r.root is Void },
            deriv_post(*self, a, r),
        decreases *self, 0nat,
    {
        let ghost me = *self;
        match &*self.root {
            Operator::Void => RegEx::new(Operator::Void),
            Operator::Epsilon => RegEx::new(Operator::Void),
            Operator::Class(cs) => {
                if cs.contains(a) {
                    RegEx::new(Operator::Epsilon)
                } else {
                    RegEx::new(Operator::Void)
                }
            },
            Operator::Cat(v) => {
                let r = deriv_cat_from(v, 0, a);
                proof {
                    assert(v@.skip(0) =~= v@);
                }
                r
            },
            Operator::Star(c) => {
                let dc = c.deriv(a);
                let ghost gdc = dc;
                let r = dc.concat(self);
                proof {
                    if not_free(me) {
                        assert forall|w: Seq<u8>| #[trigger] lang(r, w) == lang(me, seq![a] + w) by {
                            let aw = seq![a] + w;
                            lemma_star(me, *c, aw);
                            lemma_star(me, *c, w);
                            if lang(r, w) {
                                let j = choose|j: int| 0 <= j <= w.len() && #[trigger] lang(gdc, w.take(j)) && lang(me, w.skip(j));
                                lemma_cons_split(a, w, j + 1);
                                lemma_star(me, *c, w.skip(j));
                                assert(lang(*c, aw.take(j + 1)) && star_lang(*c, aw.skip(j + 1)));
                            }
                            if lang(me, aw) {
                                let k = choose|k: int| 1 <= k <= aw.len() && #[trigger] lang(*c, aw.take(k)) && star_lang(*c, aw.skip(k));
                                lemma_cons_split(a, w, k);
                                lemma_star(me, *c, w.skip(k - 1));
                                assert(lang(gdc, w.take(k - 1)) && lang(me, w.skip(k - 1)));
                            }
                        }
                    }
                }
                r
            },
            Operator::Or(v) => {
                let r = deriv_or_from(v, 0, a);
                proof {
                    assert(v@.skip(0) =~= v@);
                }
                r
            },
            Operator::And(v) => {
                let r = deriv_and_from(v, 0, a);
                proof {
                    assert(v@.skip(0) =~= v@);
                }
                r
            },
            Operator::Not(c) => {
                let d = c.deriv(a);
                let ghost gd = d;
                let r = d.not();
                proof {
                    assert(deriv_post(*c, a, gd) && not_post(gd, r));
                }
                r
            },
        }
    }
}

/// Element-wise structural equality of two vectors of expressions.
fn equals_vec(a: &Vec<RegEx>, b: &Vec<RegEx>) -> (r: bool)
    requires
        all_wf(a@),
        all_wf(b@),
    ensures
        r == same_seq(a@, b@),
    decreases a, 1nat,
{
    proof {
        lemma_same_seq_quant(a@, b@);
        lemma_all_wf(a@);
        lemma_all_wf(b@);
    }
    if a.len() != b.len() {
        return false;
    }
    let mut i = 0usize;
    while i < a.len()
        invariant
            a@.len() == b@.len(),
            i <= a@.len(),
            forall|k: int| 0 <= k < a@.len() ==> #[trigger] wf(a@[k]),
            forall|k: int| 0 <= k < b@.len() ==> #[trigger] wf(b@[k]),
            forall|k: int| 0 <= k < i ==> #[trigger] same(a@[k], b@[k]),
        decreases a@.len() - i,
    {
        proof {
            assert(decreases_to!(*a => a@[i as int]));
        }
        if !a[i].equals(&b[i]) {
            proof {
                lemma_same_seq_quant(a@, b@);
            }
            return false;
        }
        i += 1;
    }
    proof {
        lemma_same_seq_quant(a@, b@);
    }
    true
}

impl RegEx {
    /// Structural equality: the same operators over equal sets, in the same
    /// order.
    pub fn equals(&self, other: &Self) -> (r: bool)
        requires
            wf(*self),
            wf(*other),
        ensures
            r == same(*self, *other),
        decreases *self, 0nat,
    {
        match (&*self.root, &*other.root) {
            (Operator::Void, Operator::Void) => true,
            (Operator::Epsilon, Operator::Epsilon) => true,
            (Operator::Class(x), Operator::Class(y)) => x.equals(y),
            (Operator::Cat(v), Operator::Cat(u)) => equals_vec(v, u),
            (Operator::Star(c), Operator::Star(d)) => c.equals(d),
            (Operator::Or(v), Operator::Or(u)) => equals_vec(v, u),
            (Operator::And(v), Operator::And(u)) => equals_vec(v, u),
            (Operator::Not(c), Operator::Not(d)) => c.equals(d),
            _ => false,
        }
    }
}

/// `r` is a set of the one byte `b`.
pub open spec fn point_class(r: RegEx, b: u8) -> bool {
    *r.root is Class && (*r.root)->Class_0@ == set![b]
}

/// The tree of the literal of `bytes`: the empty string for no byte, a set
/// of one byte for one byte, and otherwise a `Cat` of one-byte sets in order.
pub open spec fn literal_shape(bytes: Seq<u8>, r: RegEx) -> bool {
    if bytes.len() == 0 {
        *r.root is Epsilon
    } else if bytes.len() == 1 {
        point_class(r, bytes[0])
    } else {
        &&& *r.root is Cat
        &&& (*r.root)->Cat_0@.len() == bytes.len()
        &&& forall|k: int| 0 <= k < bytes.len() ==> #[trigger] point_class((*r.root)->Cat_0@[k], bytes[k])
    }
}

pub proof fn lemma_same_point(x: RegEx, y: RegEx, b: u8)
    requires
        same(x, y),
        point_class(y, b),
    ensures
        point_class(x, b),
{
    match (*x.root, *y.root) {
        (Operator::Class(cx), Operator::Class(cy)) => {
            CharSet::lemma_same_intervals(&cx, &cy);
        },
        _ => {},
    }
}

/// The expression matching exactly the byte string `bytes`.
fn literal_bytes(bytes: &[u8]) -> (r: RegEx)
    ensures
        wf(r),
        not_free(r),
        forall|w: Seq<u8>| #[trigger] lang(r, w) == (w == bytes@),
        literal_shape(bytes@, r),
{
    let mut r = RegEx::empty();
    let mut i = 0usize;
    proof {
        assert forall|w: Seq<u8>| #[trigger] lang(r, w) == (w == bytes@.take(0)) by {
            if w.len() == 0 {
                assert(w =~= bytes@.take(0));
            }
        }
    }
    while i < bytes.len()
        invariant
            i <= bytes@.len(),
            wf(r),
            not_free(r),
            forall|w: Seq<u8>| #[trigger] lang(r, w) == (w == bytes@.take(i as int)),
            literal_shape(bytes@.take(i as int), r),
        decreases bytes@.len() - i,
    {
        let b = bytes[i];
        let cs = CharSet::point(b);
        assert(cs@.contains(b));
        let p = RegEx::set(cs);
        let ghost r0 = r;
        r = r.concat(&p);
        proof {
            let t0 = bytes@.take(i as int);
            let t1 = bytes@.take(i + 1);
            assert(point_class(p, b));
            assert(t1.len() == i + 1 && t1[i as int] == b);
            if i == 0 {
                lemma_same_point(r, p, b);
            } else if i == 1 {
                assert(point_class(r0, t0[0]));
                let ops = (*r.root)->Cat_0@;
                assert(cat_operands(r0) + cat_operands(p) =~= seq![r0, p]);
                lemma_same_seq_quant(ops, seq![r0, p]);
                assert(same(ops[0], seq![r0, p][0]));
                assert(same(ops[1], seq![r0, p][1]));
                lemma_same_point(ops[0], r0, t0[0]);
                lemma_same_point(ops[1], p, b);
                assert(t1[0] == t0[0]);
                assert forall|k: int| 0 <= k < t1.len() implies #[trigger] point_class(ops[k], t1[k]) by {
                    if k == 0 { } else { assert(k == 1); }
                }
            } else {
                let ops0 = (*r0.root)->Cat_0@;
                let ops = (*r.root)->Cat_0@;
                lemma_same_seq_quant(ops, ops0 + seq![p]);
                assert forall|k: int| 0 <= k < t1.len() implies #[trigger] point_class(ops[k], t1[k]) by {
                    assert(same(ops[k], (ops0 + seq![p])[k]));
                    if k < i {
                        assert((ops0 + seq![p])[k] == ops0[k]);
                        assert(point_class(ops0[k], t0[k]));
                        assert(t1[k] == t0[k]);
                        lemma_same_point(ops[k], ops0[k], t0[k]);
                    } else {
                        assert((ops0 + seq![p])[k] == p);
                        lemma_same_point(ops[k], p, b);
                    }
                }
            }
        }
        proof {
            let pre = bytes@.take(i as int);
            assert(bytes@.take(i + 1) =~= pre.push(b));
            assert forall|w: Seq<u8>| #[trigger] lang(r, w) == (w == bytes@.take(i + 1)) by {
                if w == bytes@.take(i + 1) {
                    assert(w.take(i as int) =~= pre);
                    assert(w.skip(i as int) =~= seq![b]);
                    assert(lang(r0, w.take(i as int)));
                    assert(lang(p, w.skip(i as int)));
                }
                if lang(r, w) {
                    let k = choose|k: int| 0 <= k <= w.len() && #[trigger] lang(r0, w.take(k)) && lang(p, w.skip(k));
                    assert(w.take(k) == pre);
                    assert(w.skip(k).len() == 1 && w.skip(k)[0] == b);
                    assert(w =~= w.take(k) + w.skip(k));
                    assert(w =~= pre.push(b));
                }
            }
        }
        i += 1;
    }
    proof {
        assert(bytes@.take(i as int) =~= bytes@);
    }
    r
}

/// The expression matching exactly the UTF-8 bytes of `s`.
pub fn literal(s: &str) -> (r: RegEx)
    ensures
        wf(r),
        not_free(r),
        forall|w: Seq<u8>| #[trigger] lang(r, w) == (w == s.spec_bytes()),
        literal_shape(s.spec_bytes(), r),
{
    literal_bytes(s.as_bytes())
}

/// Bytes `a` and `b` lead `r` alike: the strings that may follow `a` at
/// the start of a string of `r` are those that may follow `b`.
pub open spec fn alike(r: RegEx, a: u8, b: u8) -> bool {
    forall|w: Seq<u8>| #[trigger] lang(r, seq![a] + w) == lang(r, seq![b] + w)
}

/// Every expression of `s` whose predecessors all match the empty string
/// is led alike by `a` and `b`.
pub open spec fn alike_prefix(s: Seq<RegEx>, a: u8, b: u8) -> bool {
    forall|i: int| 0 <= i < s.len() && (forall|j: int| 0 <= j < i ==> #[trigger] lang(s[j], Seq::empty())) ==> #[trigger] alike(s[i], a, b)
}

proof fn lemma_cat_split_alike(s: Seq<RegEx>, w: Seq<u8>, a: u8, b: u8, j: int)
    requires
        s.len() > 0,
        alike(s[0], a, b),
        lang(s[0], Seq::empty()) ==> forall|v: Seq<u8>| #[trigger] lang_seq(s.drop_first(), seq![a] + v) == lang_seq(s.drop_first(), seq![b] + v),
        0 <= j,
    ensures
        cat_split(s, seq![a] + w, j) == cat_split(s, seq![b] + w, j),
    decreases j,
{
    let aw = seq![a] + w;
    let bw = seq![b] + w;
    if j <= w.len() + 1 {
        if j == 0 {
            assert(aw.take(0) =~= Seq::<u8>::empty());
            assert(bw.take(0) =~= Seq::<u8>::empty());
            assert(aw.skip(0) =~= aw);
            assert(bw.skip(0) =~= bw);
            if lang(s[0], Seq::empty()) {
                assert(lang_seq(s.drop_first(), seq![a] + w) == lang_seq(s.drop_first(), seq![b] + w));
            }
        } else {
            lemma_cons_split(a, w, j);
            lemma_cons_split(b, w, j);
            assert(lang(s[0], seq![a] + w.take(j - 1)) == lang(s[0], seq![b] + w.take(j - 1)));
            lemma_cat_split_alike(s, w, a, b, j - 1);
        }
    }
}

proof fn lemma_seq_alike(s: Seq<RegEx>, a: u8, b: u8, w: Seq<u8>)
    requires
        alike_prefix(s, a, b),
    ensures
        lang_seq(s, seq![a] + w) == lang_seq(s, seq![b] + w),
    decreases s.len(),
{
    if s.len() > 0 {
        let rest = s.drop_first();
        assert(forall|j: int| 0 <= j < 0 ==> #[trigger] lang(s[j], Seq::empty()));
        assert(alike(s[0], a, b));
        if lang(s[0], Seq::empty()) {
            assert forall|i: int| 0 <= i < rest.len() && (forall|j: int| 0 <= j < i ==> #[trigger] lang(rest[j], Seq::empty())) implies #[trigger] alike(rest[i], a, b) by {
                assert forall|j: int| 0 <= j < i + 1 implies #[trigger] lang(s[j], Seq::empty()) by {
                    if j > 0 {
                        assert(s[j] == rest[j - 1]);
                    }
                }
                assert(s[i + 1] == rest[i]);
            }
            assert forall|v: Seq<u8>| #[trigger] lang_seq(rest, seq![a] + v) == lang_seq(rest, seq![b] + v) by {
                lemma_seq_alike(rest, a, b, v);
            }
        }
        lemma_cat_split_alike(s, w, a, b, (w.len() + 1) as int);
    }
}

proof fn lemma_star_split_alike(r: RegEx, c: RegEx, w: Seq<u8>, a: u8, b: u8, j: int)
    requires
        *r.root == Operator::Star(c),
        alike(c, a, b),
        0 <= j,
    ensures
        star_split(r, seq![a] + w, j) == star_split(r, seq![b] + w, j),
    decreases j,
{
    if 1 <= j <= w.len() + 1 {
        lemma_cons_split(a, w, j);
        lemma_cons_split(b, w, j);
        assert(lang(c, seq![a] + w.take(j - 1)) == lang(c, seq![b] + w.take(j - 1)));
        lemma_star_split_alike(r, c, w, a, b, j - 1);
    }
}

proof fn lemma_any_all_alike(s: Seq<RegEx>, a: u8, b: u8, w: Seq<u8>)
    requires
        forall|i: int| 0 <= i < s.len() ==> #[trigger] alike(s[i], a, b),
    ensures
        lang_any(s, seq![a] + w) == lang_any(s, seq![b] + w),
        lang_all(s, seq![a] + w) == lang_all(s, seq![b] + w),
    decreases s.len(),
{
    if s.len() > 0 {
        assert(alike(s[0], a, b));
        assert(lang(s[0], seq![a] + w) == lang(s[0], seq![b] + w));
        let rest = s.drop_first();
        assert forall|i: int| 0 <= i < rest.len() implies #[trigger] alike(rest[i], a, b) by {
            assert(rest[i] == s[i + 1]);
        }
        lemma_any_all_alike(rest, a, b, w);
    }
}

/// A grouping of the bytes: each is mapped to the least byte of its group.
pub open spec fn grouping(c: Seq<u8>) -> bool {
    &&& c.len() == 256
    &&& forall|x: int| 0 <= x < 256 ==> #[trigger] c[x] <= x && c[c[x] as int] == c[x]
}

/// The grouping `c` puts together only bytes that lead `r` alike.
pub open spec fn groups_alike(r: RegEx, c: Seq<u8>) -> bool {
    &&& grouping(c)
    &&& forall|x: int, y: int| 0 <= x < 256 && 0 <= y < 256 && #[trigger] c[x] == #[trigger] c[y] ==> alike(r, x as u8, y as u8)
}

/// The bytes grouped by their key, each mapped to the least byte with the
/// same key.
fn group_by_key(keys: &Vec<u64>) -> (c: Vec<u8>)
    requires
        keys@.len() == 256,
    ensures
        grouping(c@),
        forall|x: int, y: int| 0 <= x < 256 && 0 <= y < 256 ==> (#[trigger] c@[x] == #[trigger] c@[y] <==> keys@[x] == keys@[y]),
{
    let mut c: Vec<u8> = Vec::new();
    let mut x = 0usize;
    while x < 256
        invariant
            keys@.len() == 256,
            x <= 256,
            c@.len() == x,
            forall|u: int| 0 <= u < x ==> #[trigger] c@[u] <= u && c@[c@[u] as int] == c@[u] && keys@[c@[u] as int] == keys@[u],
            forall|u: int, t: int| 0 <= u < x && 0 <= t < c@[u] ==> keys@[t] != keys@[u],
            forall|u: int, v: int| 0 <= u < x && 0 <= v < x ==> (#[trigger] c@[u] == #[trigger] c@[v] <==> keys@[u] == keys@[v]),
        decreases 256 - x,
    {
        let mut y = 0usize;
        while y < x && keys[y] != keys[x]
            invariant
                keys@.len() == 256,
                x < 256,
                y <= x,
                forall|t: int| 0 <= t < y ==> keys@[t] != keys@[x as int],
            decreases x - y,
        {
            y += 1;
        }
        let ghost c0 = c@;
        if y < x {
            assert(keys@[y as int] == keys@[x as int]);
            let b = c[y];
            c.push(b);
            proof {
                assert(c0[y as int] <= y);
                assert(keys@[c0[y as int] as int] == keys@[y as int]);
                if c0[y as int] < y {
                    assert(keys@[c0[y as int] as int] != keys@[y as int]);
                }
                assert(c0[y as int] == y);
            }
        } else {
            c.push(x as u8);
        }
        proof {
            assert forall|u: int| 0 <= u < x + 1 implies #[trigger] c@[u] <= u && c@[c@[u] as int] == c@[u] && keys@[c@[u] as int] == keys@[u] by {
                if u < x {
                    assert(c@[u] == c0[u]);
                    assert(c@[c0[u] as int] == c0[c0[u] as int]);
                }
            }
            assert forall|u: int, t: int| 0 <= u < x + 1 && 0 <= t < c@[u] implies keys@[t] != keys@[u] by {
                if u < x {
                    assert(c@[u] == c0[u]);
                }
            }
            assert forall|u: int, v: int| 0 <= u < x + 1 && 0 <= v < x + 1 implies (#[trigger] c@[u] == #[trigger] c@[v] <==> keys@[u] == keys@[v]) by {
                if u < x {
                    assert(c@[u] == c0[u]);
                }
                if v < x {
                    assert(c@[v] == c0[v]);
                }
                if u == x && v < x {
                    if y < x {
                        assert(c@[u] == c0[y as int]);
                        assert(c0[y as int] == c0[v] <==> keys@[y as int] == keys@[v]);
                    } else {
                        assert(c0[v] <= v);
                        assert(keys@[v] != keys@[x as int]);
                    }
                }
                if v == x && u < x {
                    if y < x {
                        assert(c@[v] == c0[y as int]);
                        assert(c0[y as int] == c0[u] <==> keys@[y as int] == keys@[u]);
                    } else {
                        assert(c0[u] <= u);
                        assert(keys@[u] != keys@[x as int]);
                    }
                }
            }
        }
        x += 1;
    }
    c
}

/// The grouping that separates bytes that either `c1` or `c2` separates.
pub(crate) fn cross(c1: &Vec<u8>, c2: &Vec<u8>) -> (c: Vec<u8>)
    requires
        c1@.len() == 256,
        c2@.len() == 256,
    ensures
        grouping(c@),
        forall|x: int, y: int| 0 <= x < 256 && 0 <= y < 256 && #[trigger] c@[x] == #[trigger] c@[y] ==> c1@[x] == c1@[y] && c2@[x] == c2@[y],
{
    let mut keys: Vec<u64> = Vec::new();
    let mut x = 0usize;
    while x < 256
        invariant
            c1@.len() == 256,
            c2@.len() == 256,
            x <= 256,
            keys@.len() == x,
            forall|u: int| 0 <= u < x ==> #[trigger] keys@[u] == c1@[u] as u64 * 256 + c2@[u] as u64,
        decreases 256 - x,
    {
        keys.push(c1[x] as u64 * 256 + c2[x] as u64);
        x += 1;
    }
    let c = group_by_key(&keys);
    proof {
        assert forall|x: int, y: int| 0 <= x < 256 && 0 <= y < 256 && #[trigger] c@[x] == #[trigger] c@[y] implies c1@[x] == c1@[y] && c2@[x] == c2@[y] by {
            assert(keys@[x] == keys@[y]);
            assert(keys@[x] == c1@[x] as u64 * 256 + c2@[x] as u64);
            assert(keys@[y] == c1@[y] as u64 * 256 + c2@[y] as u64);
        }
    }
    c
}

/// The grouping of all bytes into one.
pub(crate) fn one_group() -> (c: Vec<u8>)
    ensures
        grouping(c@),
        forall|x: int| 0 <= x < 256 ==> #[trigger] c@[x] == 0,
{
    let mut c: Vec<u8> = Vec::new();
    let mut x = 0usize;
    while x < 256
        invariant
            x <= 256,
            c@.len() == x,
            forall|u: int| 0 <= u < x ==> #[trigger] c@[u] == 0,
        decreases 256 - x,
    {
        c.push(0);
        x += 1;
    }
    c
}


/// The grouping of the expressions `v[i..]`: bytes grouped together lead
/// each of them alike; where `cat` holds, only those up to the first that
/// does not match the empty string.
fn classes_from(v: &Vec<RegEx>, i: usize, cat: bool) -> (c: Vec<u8>)
    requires
        i <= v@.len(),
        all_wf(v@),
    ensures
        grouping(c@),
        forall|x: int, y: int, k: int| 0 <= x < 256 && 0 <= y < 256 && i <= k < v@.len() && #[trigger] c@[x] == #[trigger] c@[y]
            && (cat ==> forall|j: int| i <= j < k ==> #[trigger] lang(v@[j], Seq::empty()))
            ==> #[trigger] alike(v@[k], x as u8, y as u8),
    decreases v, v@.len() - i,
{
    if i == v.len() {
        return one_group();
    }
    proof {
        lemma_all_wf(v@);
        assert(decreases_to!(*v => v@[i as int]));
    }
    let ci = v[i].deriv_classes();
    if cat && !v[i].is_nullable() {
        proof {
            assert forall|x: int, y: int, k: int| 0 <= x < 256 && 0 <= y < 256 && i <= k < v@.len() && #[trigger] ci@[x] == #[trigger] ci@[y]
                && (cat ==> forall|j: int| i <= j < k ==> #[trigger] lang(v@[j], Seq::empty()))
                implies #[trigger] alike(v@[k], x as u8, y as u8) by {
                if k > i {
                    assert(lang(v@[i as int], Seq::empty()));
                }
            }
        }
        return ci;
    }
    let rest = classes_from(v, i + 1, cat);
    let c = cross(&ci, &rest);
    proof {
        assert forall|x: int, y: int, k: int| 0 <= x < 256 && 0 <= y < 256 && i <= k < v@.len() && #[trigger] c@[x] == #[trigger] c@[y]
            && (cat ==> forall|j: int| i <= j < k ==> #[trigger] lang(v@[j], Seq::empty()))
            implies #[trigger] alike(v@[k], x as u8, y as u8) by {
            assert(ci@[x] == ci@[y] && rest@[x] == rest@[y]);
            if k == i {
                assert(x == x as u8 && y == y as u8);
            } else {
                assert(cat ==> forall|j: int| i + 1 <= j < k ==> #[trigger] lang(v@[j], Seq::empty()));
            }
        }
    }
    c
}

impl RegEx {
    /// A grouping of the bytes such that bytes of one group lead the
    /// expression alike, so that their derivatives match the same strings.
    pub fn deriv_classes(&self) -> (c: Vec<u8>)
        requires
            wf(*self),
        ensures
            groups_alike(*self, c@),
        decreases *self, 0nat,
    {
        let ghost me = *self;
        match &*self.root {
            Operator::Void => {
                let c = one_group();
                proof {
                    assert forall|x: int, y: int| 0 <= x < 256 && 0 <= y < 256 && #[trigger] c@[x] == #[trigger] c@[y] implies alike(me, x as u8, y as u8) by {
                        assert forall|w: Seq<u8>| #[trigger] lang(me, seq![x as u8] + w) == lang(me, seq![y as u8] + w) by {}
                    }
                }
                c
            },
            Operator::Epsilon => {
                let c = one_group();
                proof {
                    assert forall|x: int, y: int| 0 <= x < 256 && 0 <= y < 256 && #[trigger] c@[x] == #[trigger] c@[y] implies alike(me, x as u8, y as u8) by {
                        assert forall|w: Seq<u8>| #[trigger] lang(me, seq![x as u8] + w) == lang(me, seq![y as u8] + w) by {
                            assert((seq![x as u8] + w).len() > 0);
                            assert((seq![y as u8] + w).len() > 0);
                        }
                    }
                }
                c
            },
            Operator::Class(cs) => {
                let mut keys: Vec<u64> = Vec::new();
                let mut x = 0usize;
                while x < 256
                    invariant
                        cs.wf(),
                        x <= 256,
                        keys@.len() == x,
                        forall|u: int| 0 <= u < x ==> (#[trigger] keys@[u] == 1) == cs@.contains(u as u8),
                    decreases 256 - x,
                {
                    if cs.contains(x as u8) {
                        keys.push(1);
                    } else {
                        keys.push(0);
                    }
                    x += 1;
                }
                let c = group_by_key(&keys);
                proof {
                    assert forall|x: int, y: int| 0 <= x < 256 && 0 <= y < 256 && #[trigger] c@[x] == #[trigger] c@[y] implies alike(me, x as u8, y as u8) by {
                        assert(keys@[x] == keys@[y]);
                        assert((keys@[x] == 1) == cs@.contains(x as u8));
                        assert((keys@[y] == 1) == cs@.contains(y as u8));
                        assert forall|w: Seq<u8>| #[trigger] lang(me, seq![x as u8] + w) == lang(me, seq![y as u8] + w) by {
                            assert((seq![x as u8] + w)[0] == x as u8);
                            assert((seq![y as u8] + w)[0] == y as u8);
                        }
                    }
                }
                c
            },
            Operator::Cat(v) => {
                let c = classes_from(v, 0, true);
                proof {
                    assert forall|x: int, y: int| 0 <= x < 256 && 0 <= y < 256 && #[trigger] c@[x] == #[trigger] c@[y] implies alike(me, x as u8, y as u8) by {
                        assert(alike_prefix(v@, x as u8, y as u8));
                        assert forall|w: Seq<u8>| #[trigger] lang(me, seq![x as u8] + w) == lang(me, seq![y as u8] + w) by {
                            lemma_seq_alike(v@, x as u8, y as u8, w);
                        }
                    }
                }
                c
            },
            Operator::Star(inner) => {
                let c = inner.deriv_classes();
                proof {
                    assert forall|x: int, y: int| 0 <= x < 256 && 0 <= y < 256 && #[trigger] c@[x] == #[trigger] c@[y] implies alike(me, x as u8, y as u8) by {
                        assert(alike(*inner, x as u8, y as u8));
                        assert forall|w: Seq<u8>| #[trigger] lang(me, seq![x as u8] + w) == lang(me, seq![y as u8] + w) by {
                            lemma_star_split_alike(me, *inner, w, x as u8, y as u8, (w.len() + 1) as int);
                        }
                    }
                }
                c
            },
            Operator::Or(v) => {
                let c = classes_from(v, 0, false);
                proof {
                    assert forall|x: int, y: int| 0 <= x < 256 && 0 <= y < 256 && #[trigger] c@[x] == #[trigger] c@[y] implies alike(me, x as u8, y as u8) by {
                        assert forall|k: int| 0 <= k < v@.len() implies #[trigger] alike(v@[k], x as u8, y as u8) by {}
                        assert forall|w: Seq<u8>| #[trigger] lang(me, seq![x as u8] + w) == lang(me, seq![y as u8] + w) by {
                            lemma_any_all_alike(v@, x as u8, y as u8, w);
                        }
                    }
                }
                c
            },
            Operator::And(v) => {
                let c = classes_from(v, 0, false);
                proof {
                    assert forall|x: int, y: int| 0 <= x < 256 && 0 <= y < 256 && #[trigger] c@[x] == #[trigger] c@[y] implies alike(me, x as u8, y as u8) by {
                        assert forall|k: int| 0 <= k < v@.len() implies #[trigger] alike(v@[k], x as u8, y as u8) by {}
                        assert forall|w: Seq<u8>| #[trigger] lang(me, seq![x as u8] + w) == lang(me, seq![y as u8] + w) by {
                            lemma_any_all_alike(v@, x as u8, y as u8, w);
                        }
                    }
                }
                c
            },
            Operator::Not(inner) => {
                let c = inner.deriv_classes();
                proof {
                    assert forall|x: int, y: int| 0 <= x < 256 && 0 <= y < 256 && #[trigger] c@[x] == #[trigger] c@[y] implies alike(me, x as u8, y as u8) by {
                        assert(alike(*inner, x as u8, y as u8));
                        assert forall|w: Seq<u8>| #[trigger] lang(me, seq![x as u8] + w) == lang(me, seq![y as u8] + w) by {
                            assert(lang(*inner, seq![x as u8] + w) == lang(*inner, seq![y as u8] + w));
                        }
                    }
                }
                c
            },
        }
    }
}

} // verus!
