//! Sums of count products over a vocabulary: the dot product and the
//! squared magnitudes of the two frequency vectors, with their bounds and
//! the Cauchy-Schwarz inequality that keeps every cosine score in [0, 1].

use vstd::prelude::*;

use crate::bigrams::{count_of, Bigram};
use crate::vocab::{lemma_lt_trichotomy, lemma_sorted_subrange, sorted_strict};

verus! {

/// Sum over the vocabulary `v` of `count_of(x, g) * count_of(y, g)`.
/// With `x == y` this is the squared magnitude of `x`'s frequency vector.
pub open spec fn dot_sum(v: Seq<Bigram>, x: Seq<Bigram>, y: Seq<Bigram>) -> int
    decreases v.len(),
{
    if v.len() == 0 {
        0
    } else {
        dot_sum(v.drop_last(), x, y) + count_of(x, v.last()) * count_of(y, v.last())
    }
}

/// Sum over the vocabulary `v` of `count_of(x, g)`.
pub open spec fn count_sum(v: Seq<Bigram>, x: Seq<Bigram>) -> int
    decreases v.len(),
{
    if v.len() == 0 {
        0
    } else {
        count_sum(v.drop_last(), x) + count_of(x, v.last())
    }
}

/// A dot sum is never negative.
pub proof fn lemma_dot_sum_nonneg(v: Seq<Bigram>, x: Seq<Bigram>, y: Seq<Bigram>)
    ensures
        dot_sum(v, x, y) >= 0,
    decreases v.len(),
{
    if v.len() > 0 {
        lemma_dot_sum_nonneg(v.drop_last(), x, y);
    }
}

/// The dot sum does not depend on the order of its two count arguments.
pub proof fn lemma_dot_sum_sym(v: Seq<Bigram>, x: Seq<Bigram>, y: Seq<Bigram>)
    ensures
        dot_sum(v, x, y) == dot_sum(v, y, x),
    decreases v.len(),
{
    if v.len() > 0 {
        lemma_dot_sum_sym(v.drop_last(), x, y);
    }
}

/// Counting in an empty sequence contributes nothing.
proof fn lemma_count_sum_empty(v: Seq<Bigram>)
    ensures
        count_sum(v, Seq::empty()) == 0,
    decreases v.len(),
{
    if v.len() > 0 {
        lemma_count_sum_empty(v.drop_last());
    }
}

/// Appending one bigram to `x` raises `count_sum(v, x)` by the number of
/// times that bigram occurs in `v`.
proof fn lemma_count_sum_push(v: Seq<Bigram>, x: Seq<Bigram>, c: Bigram)
    ensures
        count_sum(v, x.push(c)) == count_sum(v, x) + count_of(v, c),
    decreases v.len(),
{
    if v.len() > 0 {
        lemma_count_sum_push(v.drop_last(), x, c);
        crate::bigrams::lemma_count_push(x, c, v.last());
    }
}

/// A strictly sorted sequence holds any bigram at most once.
proof fn lemma_sorted_count_at_most_one(v: Seq<Bigram>, c: Bigram)
    requires
        sorted_strict(v),
    ensures
        count_of(v, c) <= 1,
    decreases v.len(),
{
    if v.len() > 0 {
        lemma_sorted_subrange(v, 0, v.len() - 1);
        assert(v.drop_last() =~= v.subrange(0, v.len() - 1));
        lemma_sorted_count_at_most_one(v.drop_last(), c);
        if v.last() == c {
            crate::bigrams::lemma_count_positive_iff_contains(v.drop_last(), c);
            if v.drop_last().contains(c) {
                let i = choose|i: int| 0 <= i < v.len() - 1 && #[trigger] v.drop_last()[i] == c;
                assert(crate::vocab::bigram_lt(v[i], v.last()));
                lemma_lt_trichotomy(v[i], v.last());
            }
        }
    }
}

/// Over a duplicate-free vocabulary, the counts of `x` add up to at most
/// the length of `x`: each element of `x` is counted at most once.
pub proof fn lemma_count_sum_le(v: Seq<Bigram>, x: Seq<Bigram>)
    requires
        sorted_strict(v),
    ensures
        0 <= count_sum(v, x) <= x.len(),
    decreases x.len(),
{
    lemma_count_sum_nonneg(v, x);
    if x.len() == 0 {
        assert(x =~= Seq::empty());
        lemma_count_sum_empty(v);
    } else {
        let x0 = x.drop_last();
        assert(x0.push(x.last()) =~= x);
        lemma_count_sum_le(v, x0);
        lemma_count_sum_push(v, x0, x.last());
        lemma_sorted_count_at_most_one(v, x.last());
        assert(count_sum(v, x) == count_sum(v, x0) + count_of(v, x.last()));
    }
}

/// Count sums are never negative.
proof fn lemma_count_sum_nonneg(v: Seq<Bigram>, x: Seq<Bigram>)
    ensures
        count_sum(v, x) >= 0,
    decreases v.len(),
{
    if v.len() > 0 {
        lemma_count_sum_nonneg(v.drop_last(), x);
    }
}

/// Over a duplicate-free vocabulary the dot sum is bounded by the product
/// of the two sequence lengths.
pub proof fn lemma_dot_sum_le(v: Seq<Bigram>, x: Seq<Bigram>, y: Seq<Bigram>)
    requires
        sorted_strict(v),
    ensures
        dot_sum(v, x, y) <= x.len() * y.len(),
{
    lemma_dot_sum_le_count_sum(v, x, y);
    lemma_count_sum_le(v, x);
    let cs = count_sum(v, x);
    assert(cs * y.len() <= x.len() * y.len()) by (nonlinear_arith)
        requires
            0 <= cs <= x.len(),
            0 <= y.len(),
    ;
}

/// The dot sum is at most `y.len()` times the count sum of `x`.
proof fn lemma_dot_sum_le_count_sum(v: Seq<Bigram>, x: Seq<Bigram>, y: Seq<Bigram>)
    requires
        sorted_strict(v),
    ensures
        dot_sum(v, x, y) <= count_sum(v, x) * y.len(),
    decreases v.len(),
{
    if v.len() > 0 {
        lemma_sorted_subrange(v, 0, v.len() - 1);
        assert(v.drop_last() =~= v.subrange(0, v.len() - 1));
        lemma_dot_sum_le_count_sum(v.drop_last(), x, y);
        crate::bigrams::lemma_count_le_len(y, v.last());
        let cx = count_of(x, v.last()) as int;
        let cy = count_of(y, v.last()) as int;
        let cs0 = count_sum(v.drop_last(), x);
        assert(cs0 + cx == count_sum(v, x));
        assert(cx * cy <= cx * y.len() && cs0 * y.len() + cx * y.len() == (cs0 + cx) * y.len())
            by (nonlinear_arith)
            requires
                0 <= cx,
                0 <= cy <= y.len(),
        ;
    } else {
        lemma_count_sum_nonneg(v, x);
        assert(count_sum(v, x) * y.len() >= 0) by (nonlinear_arith)
            requires
                count_sum(v, x) >= 0,
                y.len() >= 0,
        ;
    }
}

/// If the vocabulary contains `g`, the dot sum is at least `g`'s term.
pub proof fn lemma_dot_sum_term_lower(v: Seq<Bigram>, x: Seq<Bigram>, y: Seq<Bigram>, g: Bigram)
    requires
        v.contains(g),
    ensures
        dot_sum(v, x, y) >= count_of(x, g) * count_of(y, g),
    decreases v.len(),
{
    lemma_dot_sum_nonneg(v.drop_last(), x, y);
    if v.last() == g {
    } else {
        let i = choose|i: int| 0 <= i < v.len() && v[i] == g;
        assert(v.drop_last()[i] == g);
        assert(v.drop_last().contains(g));
        lemma_dot_sum_term_lower(v.drop_last(), x, y, g);
        assert(count_of(x, v.last()) * count_of(y, v.last()) >= 0);
    }
}

/// One inductive step of the Cauchy-Schwarz inequality.
proof fn lemma_cs_step(d: int, a: int, b: int, p: int, q: int)
    requires
        d >= 0,
        a >= 0,
        b >= 0,
        p >= 0,
        q >= 0,
        d * d <= a * b,
    ensures
        (d + p * q) * (d + p * q) <= (a + p * p) * (b + q * q),
{
    let s = p * q;
    let m = a * (q * q);
    let n = b * (p * p);
    let u = 2 * d * s;
    let w = m + n;
    assert(s >= 0 && m >= 0 && n >= 0 && u >= 0 && m * n == (a * b) * (s * s) && s * s == (p * p) * (
    q * q)) by (nonlinear_arith)
        requires
            d >= 0,
            a >= 0,
            b >= 0,
            p >= 0,
            q >= 0,
            s == p * q,
            m == a * (q * q),
            n == b * (p * p),
            u == 2 * d * s,
    ;
    assert((m + n) * (m + n) - u * u == (m - n) * (m - n) + 4 * (m * n) - 4 * ((d * d) * (s * s)))
        by (nonlinear_arith)
        requires
            u == 2 * d * s,
    ;
    assert(4 * (m * n) - 4 * ((d * d) * (s * s)) >= 0) by (nonlinear_arith)
        requires
            m * n == (a * b) * (s * s),
            a * b >= d * d,
    ;
    assert((m - n) * (m - n) >= 0) by (nonlinear_arith);
    assert(u * u <= w * w);
    assert(u <= w) by (nonlinear_arith)
        requires
            u >= 0,
            w >= 0,
            u * u <= w * w,
    ;
    assert((d + s) * (d + s) == d * d + u + s * s) by (nonlinear_arith)
        requires
            u == 2 * d * s,
    ;
    assert((a + p * p) * (b + q * q) == a * b + w + s * s) by (nonlinear_arith)
        requires
            w == a * (q * q) + b * (p * p),
            s * s == (p * p) * (q * q),
    ;
    assert((d + s) * (d + s) <= (a + p * p) * (b + q * q));
}

/// Cauchy-Schwarz: the square of the dot product is at most the product of
/// the squared magnitudes, so every cosine score lies in [0, 1].
pub proof fn lemma_cauchy_schwarz(v: Seq<Bigram>, x: Seq<Bigram>, y: Seq<Bigram>)
    ensures
        dot_sum(v, x, y) * dot_sum(v, x, y) <= dot_sum(v, x, x) * dot_sum(v, y, y),
    decreases v.len(),
{
    if v.len() == 0 {
    } else {
        lemma_cauchy_schwarz(v.drop_last(), x, y);
        lemma_dot_sum_nonneg(v.drop_last(), x, y);
        lemma_dot_sum_nonneg(v.drop_last(), x, x);
        lemma_dot_sum_nonneg(v.drop_last(), y, y);
        lemma_cs_step(
            dot_sum(v.drop_last(), x, y),
            dot_sum(v.drop_last(), x, x),
            dot_sum(v.drop_last(), y, y),
            count_of(x, v.last()) as int,
            count_of(y, v.last()) as int,
        );
        assert(dot_sum(v.drop_last(), x, x) + count_of(x, v.last()) * count_of(x, v.last())
            == dot_sum(v, x, x));
        assert(dot_sum(v.drop_last(), y, y) + count_of(y, v.last()) * count_of(y, v.last())
            == dot_sum(v, y, y));
    }
}

} // verus!
