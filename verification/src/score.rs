//! The cosine score of two bigram sequences, kept exact: the integer dot
//! product of the two frequency vectors over the joint vocabulary, and the
//! two squared magnitudes. The floating-point score is
//! `dot / (sqrt(mag_sq1) * sqrt(mag_sq2))`, left to the caller.

use vstd::prelude::*;

use crate::bigrams::{bigrams_of, count_in, count_of, extract, Bigram};
use crate::sums::{
    dot_sum, lemma_cauchy_schwarz, lemma_dot_sum_le, lemma_dot_sum_nonneg, lemma_dot_sum_sym,
    lemma_dot_sum_term_lower,
};
use crate::vocab::{
    build_vocab, is_vocab, lemma_sorted_subrange, lemma_vocab_exists, lemma_vocab_unique,
    sorted_strict, vocab_spec,
};

verus! {

/// An exact similarity score.
///
/// `Zero` is the score of a comparison with an empty side; `One` the score
/// of two equal strings or of a perfectly matching window; `Cosine` carries
/// the exact value `dot / (sqrt(mag_sq1) * sqrt(mag_sq2))`, where `mag_sq1`
/// belongs to the first string's side of the comparison and `mag_sq2` to
/// the second's.
#[derive(Clone, Copy, PartialEq, Eq, Structural, Debug)]
pub enum Score {
    Zero,
    One,
    Cosine { dot: u64, mag_sq1: u64, mag_sq2: u64 },
}

/// All bigrams of the two strings of a comparison, repetitions kept.
pub open spec fn joint_pool(a: Seq<char>, b: Seq<char>) -> Seq<Bigram> {
    bigrams_of(a) + bigrams_of(b)
}

/// The vocabulary of a comparison of `a` with `b`: sorted and duplicate
/// free, holding exactly the bigrams of either string.
pub open spec fn joint_vocab(a: Seq<char>, b: Seq<char>) -> Seq<Bigram> {
    vocab_spec(joint_pool(a, b))
}

/// The dot product of the two frequency vectors of `a` and `b` over their
/// joint vocabulary.
pub open spec fn dot_of(a: Seq<char>, b: Seq<char>) -> int {
    dot_sum(joint_vocab(a, b), bigrams_of(a), bigrams_of(b))
}

/// The squared magnitude of `a`'s frequency vector in the comparison of
/// `a` with `b`.
pub open spec fn mag_sq_fst(a: Seq<char>, b: Seq<char>) -> int {
    dot_sum(joint_vocab(a, b), bigrams_of(a), bigrams_of(a))
}

/// The squared magnitude of `b`'s frequency vector in the comparison of
/// `a` with `b`.
pub open spec fn mag_sq_snd(a: Seq<char>, b: Seq<char>) -> int {
    dot_sum(joint_vocab(a, b), bigrams_of(b), bigrams_of(b))
}

/// Membership in a concatenation is membership in either part.
pub proof fn lemma_concat_contains(x: Seq<Bigram>, y: Seq<Bigram>, g: Bigram)
    ensures
        (x + y).contains(g) <==> x.contains(g) || y.contains(g),
{
    if x.contains(g) {
        let i = choose|i: int| 0 <= i < x.len() && x[i] == g;
        assert((x + y)[i] == g);
    }
    if y.contains(g) {
        let i = choose|i: int| 0 <= i < y.len() && y[i] == g;
        assert((x + y)[x.len() + i] == g);
    }
    if (x + y).contains(g) {
        let i = choose|i: int| 0 <= i < x.len() + y.len() && (x + y)[i] == g;
        if i < x.len() {
            assert(x[i] == g);
        } else {
            assert(y[i - x.len()] == g);
        }
    }
}

/// Swapping the two strings of a comparison leaves the vocabulary, and so
/// the dot product, unchanged, and swaps the two magnitudes.
pub proof fn lemma_pair_sym(a: Seq<char>, b: Seq<char>)
    ensures
        dot_of(a, b) == dot_of(b, a),
        mag_sq_fst(a, b) == mag_sq_snd(b, a),
        mag_sq_snd(a, b) == mag_sq_fst(b, a),
{
    lemma_vocab_exists(joint_pool(a, b));
    lemma_vocab_exists(joint_pool(b, a));
    assert forall|g: Bigram| #[trigger] joint_vocab(a, b).contains(g) <==> joint_vocab(
        b,
        a,
    ).contains(g) by {
        lemma_concat_contains(bigrams_of(a), bigrams_of(b), g);
        lemma_concat_contains(bigrams_of(b), bigrams_of(a), g);
    }
    lemma_vocab_unique(joint_vocab(a, b), joint_vocab(b, a));
    lemma_dot_sum_sym(joint_vocab(a, b), bigrams_of(a), bigrams_of(b));
}

/// The dot product is nonnegative and, by Cauchy-Schwarz, its square never
/// exceeds the product of the squared magnitudes: the cosine score of any
/// comparison lies in [0, 1]. Non-empty strings have positive magnitudes.
pub proof fn lemma_score_bounds(a: Seq<char>, b: Seq<char>)
    ensures
        0 <= dot_of(a, b),
        dot_of(a, b) * dot_of(a, b) <= mag_sq_fst(a, b) * mag_sq_snd(a, b),
        a.len() > 0 ==> mag_sq_fst(a, b) >= 1,
        b.len() > 0 ==> mag_sq_snd(a, b) >= 1,
{
    let v = joint_vocab(a, b);
    lemma_vocab_exists(joint_pool(a, b));
    lemma_dot_sum_nonneg(v, bigrams_of(a), bigrams_of(b));
    lemma_cauchy_schwarz(v, bigrams_of(a), bigrams_of(b));
    if a.len() > 0 {
        let g = bigrams_of(a)[0];
        assert(bigrams_of(a).contains(g));
        lemma_concat_contains(bigrams_of(a), bigrams_of(b), g);
        assert(v.contains(g));
        lemma_dot_sum_term_lower(v, bigrams_of(a), bigrams_of(a), g);
        crate::bigrams::lemma_count_positive_iff_contains(bigrams_of(a), g);
        let c = count_of(bigrams_of(a), g) as int;
        assert(c * c >= 1) by (nonlinear_arith)
            requires
                c >= 1,
        ;
    }
    if b.len() > 0 {
        let g = bigrams_of(b)[0];
        assert(bigrams_of(b).contains(g));
        lemma_concat_contains(bigrams_of(a), bigrams_of(b), g);
        assert(v.contains(g));
        lemma_dot_sum_term_lower(v, bigrams_of(b), bigrams_of(b), g);
        crate::bigrams::lemma_count_positive_iff_contains(bigrams_of(b), g);
        let c = count_of(bigrams_of(b), g) as int;
        assert(c * c >= 1) by (nonlinear_arith)
            requires
                c >= 1,
        ;
    }
}

/// Computes the exact cosine score parts of two non-empty strings given as
/// their characters: the dot product and the two squared magnitudes of the
/// frequency vectors over the joint vocabulary.
pub fn scored_pair(x: &Vec<char>, y: &Vec<char>) -> (t: (u64, u64, u64))
    requires
        1 <= x@.len() < 0xFFFF_FFFFusize,
        1 <= y@.len() < 0xFFFF_FFFFusize,
    ensures
        t.0 == dot_of(x@, y@),
        t.1 == mag_sq_fst(x@, y@),
        t.2 == mag_sq_snd(x@, y@),
        t.0 <= (x@.len() + 1) * (y@.len() + 1),
        t.1 <= (x@.len() + 1) * (x@.len() + 1),
        t.2 <= (y@.len() + 1) * (y@.len() + 1),
        1 <= t.1,
        1 <= t.2,
{
    let gx = extract(x);
    let gy = extract(y);
    let v = build_vocab(&gx, &gy);
    proof {
        lemma_vocab_exists(joint_pool(x@, y@));
        lemma_vocab_unique(v@, joint_vocab(x@, y@));
    }
    let ghost vs = v@;
    let n = v.len();
    let mut dot: u64 = 0;
    let mut m1: u64 = 0;
    let mut m2: u64 = 0;
    let mut i: usize = 0;
    while i < n
        invariant
            n == vs.len(),
            i <= n,
            v@ == vs,
            sorted_strict(vs),
            gx@ == bigrams_of(x@),
            gy@ == bigrams_of(y@),
            x@.len() < 0xFFFF_FFFFusize,
            y@.len() < 0xFFFF_FFFFusize,
            gx@.len() == x@.len() + 1,
            gy@.len() == y@.len() + 1,
            dot == dot_sum(vs.take(i as int), gx@, gy@),
            m1 == dot_sum(vs.take(i as int), gx@, gx@),
            m2 == dot_sum(vs.take(i as int), gy@, gy@),
        decreases n - i,
    {
        let g = v[i];
        let c1 = count_in(&gx, g) as u64;
        let c2 = count_in(&gy, g) as u64;
        proof {
            assert(vs.take(i + 1).drop_last() =~= vs.take(i as int));
            assert(vs.take(i + 1).last() == vs[i as int]);
            lemma_sorted_subrange(vs, 0, i + 1);
            lemma_dot_sum_le(vs.take(i + 1), gx@, gy@);
            lemma_dot_sum_le(vs.take(i + 1), gx@, gx@);
            lemma_dot_sum_le(vs.take(i + 1), gy@, gy@);
            lemma_dot_sum_nonneg(vs.take(i as int), gx@, gy@);
            lemma_dot_sum_nonneg(vs.take(i as int), gx@, gx@);
            lemma_dot_sum_nonneg(vs.take(i as int), gy@, gy@);
            let xl = x@.len() as int;
            let yl = y@.len() as int;
            let c1i = c1 as int;
            let c2i = c2 as int;
            assert(c1i * c2i <= (xl + 1) * (yl + 1) && c1i * c1i <= (xl + 1) * (xl + 1) && c2i * c2i
                <= (yl + 1) * (yl + 1)) by (nonlinear_arith)
                requires
                    0 <= c1i <= xl + 1,
                    0 <= c2i <= yl + 1,
            ;
            assert((xl + 1) * (yl + 1) < 0xFFFF_FFFF_FFFF_FFFFint && (xl + 1) * (xl + 1)
                < 0xFFFF_FFFF_FFFF_FFFFint && (yl + 1) * (yl + 1) < 0xFFFF_FFFF_FFFF_FFFFint)
                by (nonlinear_arith)
                requires
                    0 <= xl < 0xFFFF_FFFFint,
                    0 <= yl < 0xFFFF_FFFFint,
            ;
        }
        dot = dot + c1 * c2;
        m1 = m1 + c1 * c1;
        m2 = m2 + c2 * c2;
        i += 1;
    }
    proof {
        assert(vs.take(n as int) =~= vs);
        lemma_dot_sum_le(vs, gx@, gy@);
        lemma_dot_sum_le(vs, gx@, gx@);
        lemma_dot_sum_le(vs, gy@, gy@);
        lemma_score_bounds(x@, y@);
    }
    (dot, m1, m2)
}

} // verus!
