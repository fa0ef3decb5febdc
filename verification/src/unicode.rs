//! Regular expressions over the UTF-8 encodings of ranges of characters.

use vstd::prelude::*;
use vstd::arithmetic::div_mod::{lemma_fundamental_div_mod, lemma_fundamental_div_mod_converse, lemma_div_is_ordered};
use vstd::utf8::{encode_scalar, encode_utf8, is_scalar};
use crate::charset::CharSet;
use crate::regex::{RegEx, wf, not_free, lang, cat_lang};

verus! {

/// `64` to the power `k`.
pub open spec fn pow64(k: nat) -> nat
    decreases k,
{
    if k == 0 {
        1
    } else {
        64 * pow64((k - 1) as nat)
    }
}

/// The `k` bytes that write `c` in base 64, most significant digit first:
/// the first digit offset by `base`, the others by `0x80`.
pub open spec fn enc(c: int, k: nat, base: int) -> Seq<u8>
    decreases k,
{
    if k <= 1 {
        seq![(base + c) as u8]
    } else {
        seq![(base + c / pow64((k - 1) as nat) as int) as u8] + enc(c % pow64((k - 1) as nat) as int, (k - 1) as nat, 0x80)
    }
}

/// A Unicode scalar value: a code point that is not a surrogate.
spec fn scalar_value(c: int) -> bool {
    0 <= c <= 0x10FFFF && !(0xD800 <= c <= 0xDFFF)
}

/// The UTF-8 encoding of code point `c`, digit by digit.
spec fn utf8(c: int) -> Seq<u8> {
    if c < 0x80 {
        enc(c, 1, 0)
    } else if c < 0x800 {
        enc(c, 2, 0xC0)
    } else if c < 0x10000 {
        enc(c, 3, 0xE0)
    } else {
        enc(c, 4, 0xF0)
    }
}

proof fn lemma_utf8_encode(c: u32)
    requires
        scalar_value(c as int),
    ensures
        utf8(c as int) == encode_scalar(c),
{
    reveal_with_fuel(pow64, 4);
    reveal_with_fuel(enc, 4);
    let x = c as int;
    assert(x / 64 == (c / 64) as int);
    assert(x % 64 == (c % 64) as int);
    assert(x / 4096 == (c / 4096) as int);
    assert((x % 4096) / 64 == ((c % 4096) / 64) as int);
    assert((x % 4096) % 64 == ((c % 4096) % 64) as int);
    assert(x / 262144 == (c / 262144) as int);
    assert((x % 262144) / 4096 == ((c % 262144) / 4096) as int);
    assert(((x % 262144) % 4096) / 64 == (((c % 262144) % 4096) / 64) as int);
    assert(((x % 262144) % 4096) % 64 == (((c % 262144) % 4096) % 64) as int);
    if c < 0x80 {
        assert(c as u8 == (c & 0x7F) as u8) by (bit_vector)
            requires c < 0x80;
        assert(utf8(x) =~= encode_scalar(c));
    } else if c < 0x800 {
        assert((0xC0 + c / 64) as u8 == 0xC0 | ((c >> 6) & 0x1F) as u8) by (bit_vector)
            requires 0x80 <= c < 0x800;
        assert((0x80 + c % 64) as u8 == 0x80 | (c & 0x3F) as u8) by (bit_vector);
        assert(utf8(x) =~= encode_scalar(c));
    } else if c < 0x10000 {
        assert((0xE0 + c / 4096) as u8 == 0xE0 | ((c >> 12) & 0x0F) as u8) by (bit_vector)
            requires 0x800 <= c < 0x10000;
        assert((0x80 + (c % 4096) / 64) as u8 == 0x80 | ((c >> 6) & 0x3F) as u8) by (bit_vector);
        assert((0x80 + (c % 4096) % 64) as u8 == 0x80 | (c & 0x3F) as u8) by (bit_vector);
        assert(utf8(x) =~= encode_scalar(c));
    } else {
        assert((0xF0 + c / 262144) as u8 == 0xF0 | ((c >> 18) & 0x7) as u8) by (bit_vector)
            requires 0x10000 <= c <= 0x10FFFF;
        assert((0x80 + (c % 262144) / 4096) as u8 == 0x80 | ((c >> 12) & 0x3F) as u8) by (bit_vector);
        assert((0x80 + ((c % 262144) % 4096) / 64) as u8 == 0x80 | ((c >> 6) & 0x3F) as u8) by (bit_vector);
        assert((0x80 + ((c % 262144) % 4096) % 64) as u8 == 0x80 | (c & 0x3F) as u8) by (bit_vector);
        assert(utf8(x) =~= encode_scalar(c));
    }
}

/// `w` writes some number from `lo` to `hi` as `enc` does.
pub open spec fn encodes(w: Seq<u8>, lo: int, hi: int, k: nat, base: int) -> bool {
    exists|c: int| lo <= c <= hi && #[trigger] enc(c, k, base) == w
}

/// `w` is the UTF-8 encoding of a character from `lo` to `hi`.
spec fn encodes_code(w: Seq<u8>, lo: int, hi: int) -> bool {
    exists|c: int| lo <= c <= hi && scalar_value(c) && #[trigger] utf8(c) == w
}

/// `w` is the UTF-8 encoding of a character whose code point lies from
/// `lo` to `hi`.
pub open spec fn encodes_char(w: Seq<u8>, lo: int, hi: int) -> bool {
    exists|c: u32| lo <= c <= hi && is_scalar(c) && #[trigger] encode_scalar(c) == w
}

proof fn lemma_encodes_char(w: Seq<u8>, lo: int, hi: int)
    ensures
        encodes_code(w, lo, hi) == encodes_char(w, lo, hi),
{
    if encodes_code(w, lo, hi) {
        let c = choose|c: int| lo <= c <= hi && scalar_value(c) && #[trigger] utf8(c) == w;
        let u = c as u32;
        assert(u as int == c);
        lemma_utf8_encode(u);
        assert(is_scalar(u));
    }
    if encodes_char(w, lo, hi) {
        let u = choose|c: u32| lo <= c <= hi && is_scalar(c) && #[trigger] encode_scalar(c) == w;
        lemma_utf8_encode(u);
        assert(scalar_value(u as int) && utf8(u as int) == w);
    }
}

proof fn lemma_split(c: int, lo: int, hi: int, p: int)
    requires
        p > 0,
        lo <= c <= hi,
    ensures
        lo / p <= c / p <= hi / p,
        0 <= c % p < p,
        c / p == lo / p ==> c % p >= lo % p,
        c / p == hi / p ==> c % p <= hi % p,
        c == (c / p) * p + c % p,
{
    lemma_fundamental_div_mod(c, p);
    lemma_fundamental_div_mod(lo, p);
    lemma_fundamental_div_mod(hi, p);
    lemma_div_is_ordered(lo, c, p);
    lemma_div_is_ordered(c, hi, p);
    assert((c / p) * p == p * (c / p)) by (nonlinear_arith);
    assert((lo / p) * p == p * (lo / p)) by (nonlinear_arith);
    assert((hi / p) * p == p * (hi / p)) by (nonlinear_arith);
}

proof fn lemma_join(d: int, r: int, p: int, lo: int, hi: int)
    requires
        p > 0,
        0 <= r < p,
        0 <= lo <= hi,
        lo / p <= d <= hi / p,
        d == lo / p ==> r >= lo % p,
        d == hi / p ==> r <= hi % p,
    ensures
        (d * p + r) / p == d,
        (d * p + r) % p == r,
        lo <= d * p + r <= hi,
{
    lemma_fundamental_div_mod_converse(d * p + r, p, d, r);
    lemma_fundamental_div_mod(lo, p);
    lemma_fundamental_div_mod(hi, p);
    let dl = lo / p;
    let dh = hi / p;
    assert(lo == dl * p + lo % p) by (nonlinear_arith)
        requires lo == p * dl + lo % p;
    assert(hi == dh * p + hi % p) by (nonlinear_arith)
        requires hi == p * dh + hi % p;
    if d > dl {
        assert(d * p >= (dl + 1) * p) by (nonlinear_arith)
            requires d >= dl + 1, p > 0;
        assert((dl + 1) * p == dl * p + p) by (nonlinear_arith);
    }
    if d < dh {
        assert(d * p + p <= dh * p) by (nonlinear_arith)
            requires d + 1 <= dh, p > 0;
    }
}

/// A byte followed by anything: matched by a one-byte expression followed
/// by `s` exactly when the first byte is matched and the rest is matched by `s`.
proof fn lemma_cat_head(x: RegEx, s: RegEx, w: Seq<u8>)
    requires
        forall|u: Seq<u8>| #[trigger] lang(x, u) ==> u.len() == 1,
    ensures
        cat_lang(x, s, w) == (w.len() >= 1 && lang(x, w.take(1)) && lang(s, w.skip(1))),
{
    if cat_lang(x, s, w) {
        let k = choose|k: int| 0 <= k <= w.len() && #[trigger] lang(x, w.take(k)) && lang(s, w.skip(k));
        assert(w.take(k).len() == 1);
    }
    if w.len() >= 1 && lang(x, w.take(1)) && lang(s, w.skip(1)) {
        assert(0 <= 1 <= w.len() && lang(x, w.take(1)) && lang(s, w.skip(1)));
    }
}

proof fn lemma_pow64(k: nat)
    requires
        1 <= k <= 4,
    ensures
        1 <= pow64(k) <= 16777216,
        pow64(k) == 64 * pow64((k - 1) as nat),
        pow64((k - 1) as nat) <= 262144,
{
    reveal_with_fuel(pow64, 5);
}

/// The expression matching the byte `b` followed by a string of `s`.
fn byte_then(b: u8, s: &RegEx) -> (r: RegEx)
    requires
        wf(*s),
        not_free(*s),
    ensures
        wf(r),
        not_free(r),
        forall|w: Seq<u8>| #[trigger] lang(r, w) == (w.len() >= 1 && w[0] == b && lang(*s, w.skip(1))),
{
    let x = RegEx::set(CharSet::point(b));
    let r = x.concat(s);
    proof {
        assert forall|w: Seq<u8>| #[trigger] lang(r, w) == (w.len() >= 1 && w[0] == b && lang(*s, w.skip(1))) by {
            lemma_cat_head(x, *s, w);
            if w.len() >= 1 {
                assert(w.take(1)[0] == w[0]);
            }
        }
    }
    r
}

/// The expression matching a byte from `b1` to `b2` followed by a string of `s`.
fn bytes_then(b1: u8, b2: u8, s: &RegEx) -> (r: RegEx)
    requires
        b1 <= b2,
        wf(*s),
        not_free(*s),
    ensures
        wf(r),
        not_free(r),
        forall|w: Seq<u8>| #[trigger] lang(r, w) == (w.len() >= 1 && b1 <= w[0] <= b2 && lang(*s, w.skip(1))),
{
    let x = RegEx::set(CharSet::range(b1, b2));
    let r = x.concat(s);
    proof {
        assert forall|w: Seq<u8>| #[trigger] lang(r, w) == (w.len() >= 1 && b1 <= w[0] <= b2 && lang(*s, w.skip(1))) by {
            lemma_cat_head(x, *s, w);
            if w.len() >= 1 {
                assert(w.take(1)[0] == w[0]);
            }
        }
    }
    r
}

/// The expression matching the `k`-byte writings (see `enc`) of the numbers
/// from `lo` to `hi`, where `p` is the weight of the first digit.
fn encodings(lo: u32, hi: u32, k: u32, base: u8, p: u32) -> (r: RegEx)
    requires
        1 <= k <= 4,
        p == pow64((k - 1) as nat),
        lo <= hi,
        base as int + hi as int / p as int <= 255,
    ensures
        wf(r),
        not_free(r),
        forall|w: Seq<u8>| #[trigger] lang(r, w) == encodes(w, lo as int, hi as int, k as nat, base as int),
    decreases k,
{
    proof {
        lemma_pow64(k as nat);
    }
    if k == 1 {
        assert(p == 1);
        assert(hi as int / 1 == hi as int);
        let r = RegEx::set(CharSet::range(base + lo as u8, base + hi as u8));
        proof {
            assert forall|w: Seq<u8>| #[trigger] lang(r, w) == encodes(w, lo as int, hi as int, k as nat, base as int) by {
                if lang(r, w) {
                    let c = w[0] - base;
                    assert(enc(c, 1, base as int) =~= w);
                }
                if encodes(w, lo as int, hi as int, k as nat, base as int) {
                    let c = choose|c: int| lo <= c <= hi && #[trigger] enc(c, k as nat, base as int) == w;
                    assert(w[0] == base + c);
                }
            }
        }
        return r;
    }
    let q = p / 64;
    let dlo = lo / p;
    let dhi = hi / p;
    let rlo = lo % p;
    let rhi = hi % p;
    proof {
        assert(q == pow64((k - 2) as nat)) by {
            lemma_pow64((k - 1) as nat);
        }
        lemma_fundamental_div_mod_converse((p - 1) as int, q as int, 63, (q - 1) as int);
        lemma_fundamental_div_mod(lo as int, p as int);
        lemma_div_is_ordered(rhi as int, (p - 1) as int, q as int);
        lemma_div_is_ordered(lo as int, hi as int, p as int);
        lemma_fundamental_div_mod(hi as int, p as int);
    }
    let ghost kk = (k - 1) as nat;
    let ghost pp = p as int;
    if dlo == dhi {
        let s = encodings(rlo, rhi, k - 1, 0x80, q);
        let r = byte_then(base + dlo as u8, &s);
        proof {
            assert forall|w: Seq<u8>| #[trigger] lang(r, w) == encodes(w, lo as int, hi as int, k as nat, base as int) by {
                if encodes(w, lo as int, hi as int, k as nat, base as int) {
                    let c = choose|c: int| lo <= c <= hi && #[trigger] enc(c, k as nat, base as int) == w;
                    lemma_split(c, lo as int, hi as int, pp);
                    assert(w.skip(1) =~= enc(c % pp, kk, 0x80));
                    assert(encodes(w.skip(1), rlo as int, rhi as int, kk, 0x80));
                }
                if lang(r, w) {
                    let r0 = choose|c: int| rlo <= c <= rhi && #[trigger] enc(c, kk, 0x80) == w.skip(1);
                    lemma_join(dlo as int, r0, pp, lo as int, hi as int);
                    let c = dlo * pp + r0;
                    assert(enc(c, k as nat, base as int) =~= w);
                }
            }
        }
        return r;
    }
    let s1 = encodings(rlo, p - 1, k - 1, 0x80, q);
    let first = byte_then(base + dlo as u8, &s1);
    let s3 = encodings(0, rhi, k - 1, 0x80, q);
    let last = byte_then(base + dhi as u8, &s3);
    let mid = if dlo + 1 < dhi {
        let s2 = encodings(0, p - 1, k - 1, 0x80, q);
        bytes_then(base + dlo as u8 + 1, base + dhi as u8 - 1, &s2)
    } else {
        RegEx::none()
    };
    let ghost gm = mid;
    let r = first.or(&mid).or(&last);
    proof {
        assert forall|w: Seq<u8>| #[trigger] lang(r, w) == encodes(w, lo as int, hi as int, k as nat, base as int) by {
            if encodes(w, lo as int, hi as int, k as nat, base as int) {
                let c = choose|c: int| lo <= c <= hi && #[trigger] enc(c, k as nat, base as int) == w;
                lemma_split(c, lo as int, hi as int, pp);
                let d = c / pp;
                let r0 = c % pp;
                assert(w.skip(1) =~= enc(r0, kk, 0x80));
                assert(w[0] == base + d);
                if d == dlo {
                    assert(encodes(w.skip(1), rlo as int, p - 1, kk, 0x80));
                } else if d == dhi {
                    assert(encodes(w.skip(1), 0, rhi as int, kk, 0x80));
                } else {
                    assert(encodes(w.skip(1), 0, p - 1, kk, 0x80));
                    assert(lang(gm, w));
                }
            }
            if lang(r, w) {
                let d = w[0] - base;
                if lang(first, w) {
                    let r0 = choose|c: int| rlo <= c <= p - 1 && #[trigger] enc(c, kk, 0x80) == w.skip(1);
                    lemma_join(d, r0, pp, lo as int, hi as int);
                    assert(enc(d * pp + r0, k as nat, base as int) =~= w);
                } else if lang(last, w) {
                    let r0 = choose|c: int| 0 <= c <= rhi && #[trigger] enc(c, kk, 0x80) == w.skip(1);
                    lemma_join(d, r0, pp, lo as int, hi as int);
                    assert(enc(d * pp + r0, k as nat, base as int) =~= w);
                } else {
                    assert(lang(gm, w));
                    assert(dlo + 1 < dhi);
                    let r0 = choose|c: int| 0 <= c <= p - 1 && #[trigger] enc(c, kk, 0x80) == w.skip(1);
                    lemma_join(d, r0, pp, lo as int, hi as int);
                    assert(enc(d * pp + r0, k as nat, base as int) =~= w);
                }
            }
        }
    }
    r
}

/// The `k`-byte writings of the numbers that lie both from `lo` to `hi`
/// and from `a` to `b`.
fn piece(lo: u32, hi: u32, a: u32, b: u32, k: u32, base: u8, p: u32) -> (r: RegEx)
    requires
        1 <= k <= 4,
        p == pow64((k - 1) as nat),
        base as int + b as int / p as int <= 255,
    ensures
        wf(r),
        not_free(r),
        forall|w: Seq<u8>| #[trigger] lang(r, w) == exists|c: int| lo <= c <= hi && a <= c <= b && #[trigger] enc(c, k as nat, base as int) == w,
{
    proof {
        lemma_pow64(k as nat);
    }
    let l = if lo < a { a } else { lo };
    let h = if hi < b { hi } else { b };
    if l <= h {
        proof {
            lemma_div_is_ordered(h as int, b as int, p as int);
        }
        let r = encodings(l, h, k, base, p);
        proof {
            assert forall|w: Seq<u8>| #[trigger] lang(r, w) == exists|c: int| lo <= c <= hi && a <= c <= b && #[trigger] enc(c, k as nat, base as int) == w by {
                if lang(r, w) {
                    let c = choose|c: int| l <= c <= h && #[trigger] enc(c, k as nat, base as int) == w;
                    assert(lo <= c <= hi && a <= c <= b && enc(c, k as nat, base as int) == w);
                }
            }
        }
        r
    } else {
        RegEx::none()
    }
}

/// The expression matching the UTF-8 encodings of the characters from
/// `from` to `to`, inclusive (nothing where `from` comes after `to`).
pub fn range(from: char, to: char) -> (r: RegEx)
    ensures
        wf(r),
        not_free(r),
        forall|w: Seq<u8>| #[trigger] lang(r, w) == encodes_char(w, from as int, to as int),
        (to as u32) < 0x80 && from as u32 <= to as u32 ==> {
            &&& *r.root is Class
            &&& forall|b: u8| #[trigger] (*r.root)->Class_0@.contains(b) == (from as u32 <= b && b <= to as u32)
        },
        (to as u32) < 0x80 && from as u32 > to as u32 ==> *r.root is Void,
{
    let lo = from as u32;
    let hi = to as u32;
    if hi < 0x80 {
        if lo <= hi {
            let cs = CharSet::range(lo as u8, hi as u8);
            assert(cs@.contains(lo as u8));
            assert(cs@ != Set::<u8>::empty());
            let r = RegEx::set(cs);
            proof {
                assert forall|w: Seq<u8>| #[trigger] lang(r, w) == encodes_char(w, lo as int, hi as int) by {
                    if lang(r, w) {
                        let b = w[0];
                        lemma_ascii_encoding(b as u32);
                        assert(encode_scalar(b as u32) =~= w);
                        assert(is_scalar(b as u32));
                    }
                    if encodes_char(w, lo as int, hi as int) {
                        let c = choose|c: u32| lo <= c <= hi && is_scalar(c) && #[trigger] encode_scalar(c) == w;
                        lemma_ascii_encoding(c);
                    }
                }
            }
            return r;
        } else {
            let r = RegEx::none();
            proof {
                assert forall|w: Seq<u8>| #[trigger] lang(r, w) == encodes_char(w, lo as int, hi as int) by {
                    if encodes_char(w, lo as int, hi as int) {
                        let c = choose|c: u32| lo <= c <= hi && is_scalar(c) && #[trigger] encode_scalar(c) == w;
                    }
                }
            }
            return r;
        }
    }
    code_points(lo, hi)
}

/// A code point below 0x80 is written as the one byte of its value.
proof fn lemma_ascii_encoding(c: u32)
    requires
        c < 0x80,
    ensures
        encode_scalar(c) == seq![c as u8],
        is_scalar(c),
{
    assert((c & 0x7F) == c) by (bit_vector)
        requires
            c < 0x80,
    ;
    assert(encode_scalar(c) =~= seq![c as u8]);
}

/// The expression matching the UTF-8 encodings of the characters whose
/// code points lie from `lo` to `hi`.
fn code_points(lo: u32, hi: u32) -> (r: RegEx)
    ensures
        wf(r),
        not_free(r),
        forall|w: Seq<u8>| #[trigger] lang(r, w) == encodes_char(w, lo as int, hi as int),
{
    proof {
        reveal_with_fuel(pow64, 4);
        assert(0x7Fint / 1 == 0x7F);
        assert(0x7FFint / 64 == 31);
        assert(0xD7FFint / 4096 == 13);
        assert(0xFFFFint / 4096 == 15);
        assert(0x10FFFFint / 262144 == 4);
    }
    let p1 = piece(lo, hi, 0, 0x7F, 1, 0, 1);
    let p2 = piece(lo, hi, 0x80, 0x7FF, 2, 0xC0, 64);
    let p3 = piece(lo, hi, 0x800, 0xD7FF, 3, 0xE0, 4096);
    let p4 = piece(lo, hi, 0xE000, 0xFFFF, 3, 0xE0, 4096);
    let p5 = piece(lo, hi, 0x10000, 0x10FFFF, 4, 0xF0, 262144);
    let r = p1.or(&p2).or(&p3).or(&p4).or(&p5);
    proof {
        assert forall|w: Seq<u8>| #[trigger] lang(r, w) == encodes_char(w, lo as int, hi as int) by {
            lemma_encodes_char(w, lo as int, hi as int);
            if encodes_code(w, lo as int, hi as int) {
                let c = choose|c: int| lo as int <= c <= hi as int && scalar_value(c) && #[trigger] utf8(c) == w;
                if c < 0x80 {
                    assert(lang(p1, w));
                } else if c < 0x800 {
                    assert(lang(p2, w));
                } else if c < 0xD800 {
                    assert(lang(p3, w));
                } else if c < 0x10000 {
                    assert(lang(p4, w));
                } else {
                    assert(lang(p5, w));
                }
            }
            if lang(r, w) {
                if lang(p1, w) {
                    let c = choose|c: int| lo <= c <= hi && 0 <= c <= 0x7F && #[trigger] enc(c, 1, 0) == w;
                    assert(scalar_value(c) && utf8(c) == w);
                } else if lang(p2, w) {
                    let c = choose|c: int| lo <= c <= hi && 0x80 <= c <= 0x7FF && #[trigger] enc(c, 2, 0xC0) == w;
                    assert(scalar_value(c) && utf8(c) == w);
                } else if lang(p3, w) {
                    let c = choose|c: int| lo <= c <= hi && 0x800 <= c <= 0xD7FF && #[trigger] enc(c, 3, 0xE0) == w;
                    assert(scalar_value(c) && utf8(c) == w);
                } else if lang(p4, w) {
                    let c = choose|c: int| lo <= c <= hi && 0xE000 <= c <= 0xFFFF && #[trigger] enc(c, 3, 0xE0) == w;
                    assert(scalar_value(c) && utf8(c) == w);
                } else {
                    let c = choose|c: int| lo <= c <= hi && 0x10000 <= c <= 0x10FFFF && #[trigger] enc(c, 4, 0xF0) == w;
                    assert(scalar_value(c) && utf8(c) == w);
                }
            }
        }
    }
    r
}

/// `c` lies in one of the ranges of `rs`.
pub open spec fn in_ranges(c: int, rs: Seq<(u32, u32)>) -> bool {
    exists|i: int| 0 <= i < rs.len() && (#[trigger] rs[i]).0 <= c <= rs[i].1
}

/// `w` is the UTF-8 encoding of a character in one of the ranges of `rs`.
pub open spec fn encodes_in(w: Seq<u8>, rs: Seq<(u32, u32)>) -> bool {
    exists|c: u32| is_scalar(c) && in_ranges(c as int, rs) && #[trigger] encode_scalar(c) == w
}

/// The expression matching the UTF-8 encodings of the characters in the
/// ranges of `rs`.
fn chars_in(rs: &Vec<(u32, u32)>) -> (r: RegEx)
    ensures
        wf(r),
        not_free(r),
        forall|w: Seq<u8>| #[trigger] lang(r, w) == encodes_in(w, rs@),
{
    let mut acc = RegEx::none();
    let mut i = 0usize;
    while i < rs.len()
        invariant
            i <= rs@.len(),
            wf(acc),
            not_free(acc),
            forall|w: Seq<u8>| #[trigger] lang(acc, w) == encodes_in(w, rs@.take(i as int)),
        decreases rs@.len() - i,
    {
        let (lo, hi) = rs[i];
        let part = code_points(lo, hi);
        let next = acc.or(&part);
        proof {
            let before = rs@.take(i as int);
            let after = rs@.take(i + 1);
            assert forall|w: Seq<u8>| #[trigger] lang(next, w) == encodes_in(w, after) by {
                if encodes_in(w, after) {
                    let c = choose|c: u32| is_scalar(c) && in_ranges(c as int, after) && #[trigger] encode_scalar(c) == w;
                    let j = choose|j: int| 0 <= j < after.len() && (#[trigger] after[j]).0 <= c <= after[j].1;
                    if j < i {
                        assert(before[j] == after[j]);
                        assert(in_ranges(c as int, before));
                        assert(encodes_in(w, before));
                    } else {
                        assert(encodes_char(w, lo as int, hi as int));
                    }
                }
                if lang(acc, w) {
                    let c = choose|c: u32| is_scalar(c) && in_ranges(c as int, before) && #[trigger] encode_scalar(c) == w;
                    let j = choose|j: int| 0 <= j < before.len() && (#[trigger] before[j]).0 <= c <= before[j].1;
                    assert(before[j] == after[j]);
                    assert(in_ranges(c as int, after));
                }
                if lang(part, w) {
                    let c = choose|c: u32| lo as int <= c <= hi as int && is_scalar(c) && #[trigger] encode_scalar(c) == w;
                    assert(after[i as int] == (lo, hi));
                    assert(in_ranges(c as int, after));
                }
            }
        }
        acc = next;
        i += 1;
    }
    proof {
        assert(rs@.take(rs@.len() as int) =~= rs@);
    }
    acc
}

/// The ranges of the characters of Basic Latin that are neither control
/// characters nor DEL, with tab, line feed and carriage return.
pub open spec fn basic_latin_ranges() -> Seq<(u32, u32)> {
    seq![(0x9u32, 0x9u32), (0xA, 0xA), (0xD, 0xD), (0x20, 0x7E)]
}

/// The characters of the Basic Multilingual Plane allowed in text: those
/// of `basic_latin_ranges`, next line, and the rest of the plane without
/// surrogates, the non-characters U+FDD0 to U+FDEF and U+FFFE, U+FFFF.
pub open spec fn basic_multilingual_plane_ranges() -> Seq<(u32, u32)> {
    basic_latin_ranges() + seq![(0x85u32, 0x85u32), (0xA0, 0xD7FF), (0xE000, 0xFDCF), (0xFDF0, 0xFFFD)]
}

/// The characters of `basic_multilingual_plane_ranges` and those of the
/// supplementary planes but for the last two code points of each.
pub open spec fn non_compatibility_char_ranges() -> Seq<(u32, u32)> {
    basic_multilingual_plane_ranges() + seq![
        (0x1_0000u32, 0x1_FFFDu32), (0x2_0000, 0x2_FFFD), (0x3_0000, 0x3_FFFD), (0x4_0000, 0x4_FFFD),
        (0x5_0000, 0x5_FFFD), (0x6_0000, 0x6_FFFD), (0x7_0000, 0x7_FFFD), (0x8_0000, 0x8_FFFD),
        (0x9_0000, 0x9_FFFD), (0xA_0000, 0xA_FFFD), (0xB_0000, 0xB_FFFD), (0xC_0000, 0xC_FFFD),
        (0xD_0000, 0xD_FFFD), (0xE_0000, 0xE_FFFD), (0xF_0000, 0xF_FFFD), (0x10_0000, 0x10_FFFD)
    ]
}

/// The UTF-8 encodings of the characters of `basic_latin_ranges`.
pub fn basic_latin() -> (r: RegEx)
    ensures
        wf(r),
        not_free(r),
        forall|w: Seq<u8>| #[trigger] lang(r, w) == encodes_in(w, basic_latin_ranges()),
        *r.root is Class,
        forall|b: u8| #[trigger] (*r.root)->Class_0@.contains(b) == in_ranges(b as int, basic_latin_ranges()),
{
    let cs = CharSet::range(0x9, 0xA).union(&CharSet::point(0xD)).union(&CharSet::range(0x20, 0x7E));
    let ghost rs = basic_latin_ranges();
    proof {
        assert forall|b: u8| #[trigger] cs@.contains(b) == in_ranges(b as int, rs) by {
            if cs@.contains(b) {
                if b <= 0xA {
                    if b == 9 {
                        assert(rs[0].0 <= b <= rs[0].1);
                    } else {
                        assert(rs[1].0 <= b <= rs[1].1);
                    }
                } else if b == 0xD {
                    assert(rs[2].0 <= b <= rs[2].1);
                } else {
                    assert(rs[3].0 <= b <= rs[3].1);
                }
            }
        }
        assert(cs@.contains(9));
        assert(cs@ != Set::<u8>::empty());
    }
    let r = RegEx::set(cs);
    proof {
        assert forall|w: Seq<u8>| #[trigger] lang(r, w) == encodes_in(w, rs) by {
            if lang(r, w) {
                let b = w[0];
                lemma_ascii_encoding(b as u32);
                assert(encode_scalar(b as u32) =~= w);
                assert(in_ranges(b as u32 as int, rs));
            }
            if encodes_in(w, rs) {
                let c = choose|c: u32| is_scalar(c) && in_ranges(c as int, rs) && #[trigger] encode_scalar(c) == w;
                let i = choose|i: int| 0 <= i < rs.len() && (#[trigger] rs[i]).0 <= c <= rs[i].1;
                assert(c < 0x80);
                lemma_ascii_encoding(c);
                assert(in_ranges((c as u8) as int, rs));
            }
        }
    }
    r
}

/// The UTF-8 encodings of the characters of `basic_multilingual_plane_ranges`.
pub fn basic_multilingual_plane() -> (r: RegEx)
    ensures
        wf(r),
        not_free(r),
        forall|w: Seq<u8>| #[trigger] lang(r, w) == encodes_in(w, basic_multilingual_plane_ranges()),
{
    let rs: Vec<(u32, u32)> = vec![
        (0x9, 0x9), (0xA, 0xA), (0xD, 0xD), (0x20, 0x7E),
        (0x85, 0x85), (0xA0, 0xD7FF), (0xE000, 0xFDCF), (0xFDF0, 0xFFFD),
    ];
    proof {
        assert(rs@ =~= basic_multilingual_plane_ranges());
    }
    chars_in(&rs)
}

/// The UTF-8 encodings of the characters of `non_compatibility_char_ranges`.
pub fn non_compatibility_char() -> (r: RegEx)
    ensures
        wf(r),
        not_free(r),
        forall|w: Seq<u8>| #[trigger] lang(r, w) == encodes_in(w, non_compatibility_char_ranges()),
{
    let rs: Vec<(u32, u32)> = vec![
        (0x9, 0x9), (0xA, 0xA), (0xD, 0xD), (0x20, 0x7E),
        (0x85, 0x85), (0xA0, 0xD7FF), (0xE000, 0xFDCF), (0xFDF0, 0xFFFD),
        (0x1_0000, 0x1_FFFD), (0x2_0000, 0x2_FFFD), (0x3_0000, 0x3_FFFD), (0x4_0000, 0x4_FFFD),
        (0x5_0000, 0x5_FFFD), (0x6_0000, 0x6_FFFD), (0x7_0000, 0x7_FFFD), (0x8_0000, 0x8_FFFD),
        (0x9_0000, 0x9_FFFD), (0xA_0000, 0xA_FFFD), (0xB_0000, 0xB_FFFD), (0xC_0000, 0xC_FFFD),
        (0xD_0000, 0xD_FFFD), (0xE_0000, 0xE_FFFD), (0xF_0000, 0xF_FFFD), (0x10_0000, 0x10_FFFD),
    ];
    proof {
        assert(rs@ =~= non_compatibility_char_ranges());
    }
    chars_in(&rs)
}

/// The expression matching the UTF-8 encoding of any one character of `s`.
pub fn any(s: &str) -> (r: RegEx)
    ensures
        wf(r),
        not_free(r),
        forall|w: Seq<u8>| #[trigger] lang(r, w) == exists|i: int| 0 <= i < s@.len() && #[trigger] encode_scalar(s@[i] as u32) == w,
{
    broadcast use vstd::string::axiom_spec_iter;
    let mut acc = RegEx::none();
    for c in it: s.chars()
        invariant
            wf(acc),
            not_free(acc),
            it.seq() == s@,
            forall|w: Seq<u8>| #[trigger] lang(acc, w) == exists|i: int| 0 <= i < it.index() && #[trigger] encode_scalar(s@[i] as u32) == w,
    {
        let u = c as u32;
        let part = code_points(u, u);
        let next = acc.or(&part);
        proof {
            let n = it.index();
            assert(s@[n as int] == c);
            vstd::utf8::char_is_scalar(c);
            assert forall|w: Seq<u8>| #[trigger] lang(next, w) == exists|i: int| 0 <= i < n + 1 && #[trigger] encode_scalar(s@[i] as u32) == w by {
                if lang(part, w) {
                    let x = choose|x: u32| u as int <= x <= u as int && is_scalar(x) && #[trigger] encode_scalar(x) == w;
                    assert(encode_scalar(s@[n as int] as u32) == w);
                }
                if exists|i: int| 0 <= i < n + 1 && #[trigger] encode_scalar(s@[i] as u32) == w {
                    let i = choose|i: int| 0 <= i < n + 1 && #[trigger] encode_scalar(s@[i] as u32) == w;
                    if i == n {
                        assert(encodes_char(w, u as int, u as int));
                    }
                }
            }
        }
        acc = next;
    }
    acc
}

/// The UTF-8 encoding of one character is the encoding of a character
/// from `lo` to `hi` exactly when the character lies there: no two
/// characters share an encoding.
pub proof fn lemma_encodes_one_char(c: char, lo: int, hi: int)
    ensures
        encodes_char(encode_scalar(c as u32), lo, hi) == (lo <= c as u32 <= hi),
{
    vstd::utf8::char_is_scalar(c);
    if encodes_char(encode_scalar(c as u32), lo, hi) {
        let u = choose|u: u32| lo <= u <= hi && is_scalar(u) && #[trigger] encode_scalar(u) == encode_scalar(c as u32);
        let d = u as char;
        assert(d as u32 == u);
        let sd = seq![d];
        let sc = seq![c];
        assert(encode_utf8(Seq::<char>::empty()) =~= Seq::<u8>::empty());
        assert(encode_utf8(sd) =~= encode_scalar(u)) by {
            assert(sd.drop_first() =~= Seq::<char>::empty());
            assert(sd[0] as u32 == u);
        }
        assert(encode_utf8(sc) =~= encode_scalar(c as u32)) by {
            assert(sc.drop_first() =~= Seq::<char>::empty());
        }
        vstd::utf8::encode_utf8_decode_utf8(sd);
        vstd::utf8::encode_utf8_decode_utf8(sc);
        assert(sd[0] == sc[0]);
    }
}

} // verus!
