//! Laws of the comparators, stated over the contracts of `gram`, `ratio`
//! and `partial_ratio` and proved once and for all.

use vstd::prelude::*;

use crate::compare::{
    gram_post, is_best_window, lemma_swap_windows, max_offset, partial_post, score_le, win_den,
    win_dot, win_perfect,
};
use crate::score::{lemma_pair_sym, Score};

verus! {

/// The same score with the two magnitude parts swapped: what a symmetric
/// comparison returns when its arguments change places.
pub open spec fn mirrored(r: Score) -> Score {
    match r {
        Score::Cosine { dot, mag_sq1, mag_sq2 } => Score::Cosine {
            dot,
            mag_sq1: mag_sq2,
            mag_sq2: mag_sq1,
        },
        _ => r,
    }
}

/// Two exact scores with the same value: the same variant, and for two
/// cosine scores the same ratio, cross-multiplied to stay in the integers.
pub open spec fn same_score(r1: Score, r2: Score) -> bool {
    &&& r1 is Zero <==> r2 is Zero
    &&& r1 is One <==> r2 is One
    &&& r1 is Cosine && r2 is Cosine ==> (r1->dot as int) * (r1->dot as int) * ((r2->mag_sq1 as int)
        * (r2->mag_sq2 as int)) == (r2->dot as int) * (r2->dot as int) * ((r1->mag_sq1 as int) * (
    r1->mag_sq2 as int))
}

/// A non-empty string compared with itself scores one, under either name
/// of the whole-string comparison.
pub proof fn lemma_self_is_one(a: Seq<char>, r1: Score, r2: Score)
    requires
        a.len() > 0,
        gram_post(a, a, r1),
        gram_post(a, a, r2),
    ensures
        r1 == Score::One,
        r2 == Score::One,
{
}

/// A comparison with an empty side scores zero, for the whole-string and
/// the windowed comparison alike.
pub proof fn lemma_empty_is_zero(a: Seq<char>, b: Seq<char>, rg: Score, rp: Score)
    requires
        a.len() == 0 || b.len() == 0,
        gram_post(a, b, rg),
        partial_post(a, b, rp),
    ensures
        rg == Score::Zero,
        rp == Score::Zero,
{
}

/// The whole-string comparison is symmetric: swapping the strings swaps
/// the two magnitude parts and changes nothing else, so the score value
/// `dot / (sqrt(mag_sq1) * sqrt(mag_sq2))` is the same.
pub proof fn lemma_gram_symmetric(a: Seq<char>, b: Seq<char>, r1: Score, r2: Score)
    requires
        gram_post(a, b, r1),
        gram_post(b, a, r2),
    ensures
        r2 == mirrored(r1),
{
    if a.len() == 0 || b.len() == 0 {
    } else if a == b {
    } else {
        lemma_pair_sym(a, b);
    }
}

/// The windowed comparison agrees with the whole-string comparison when
/// the two strings have the same character count.
pub proof fn lemma_equal_length_partial_is_gram(a: Seq<char>, b: Seq<char>, rp: Score, rg: Score)
    requires
        a.len() == b.len(),
        partial_post(a, b, rp),
        gram_post(a, b, rg),
    ensures
        rp == rg,
{
}

/// If some alignment of the shorter string inside the longer scores one,
/// the windowed comparison returns exactly one.
pub proof fn lemma_perfect_window(a: Seq<char>, b: Seq<char>, r: Score, d: int)
    requires
        a.len() != b.len(),
        a.len() > 0,
        b.len() > 0,
        partial_post(a, b, r),
        0 <= d <= max_offset(a, b),
        win_perfect(a, b, d),
    ensures
        r == Score::One,
{
    assert(a != b);
}

/// The windowed comparison is symmetric in value: both orders consider
/// the same alignments, so the best score is the same, though the two
/// magnitude parts change places with the strings.
pub proof fn lemma_partial_symmetric(a: Seq<char>, b: Seq<char>, r1: Score, r2: Score)
    requires
        partial_post(a, b, r1),
        partial_post(b, a, r2),
    ensures
        same_score(r1, r2),
{
    if a.len() == 0 || b.len() == 0 {
    } else if a == b {
    } else if a.len() == b.len() {
        lemma_pair_sym(a, b);
        let d1 = r1->dot as int;
        let d2 = r2->dot as int;
        let x1 = (r1->mag_sq1 as int) * (r1->mag_sq2 as int);
        let x2 = (r2->mag_sq1 as int) * (r2->mag_sq2 as int);
        assert(d1 == d2);
        vstd::arithmetic::mul::lemma_mul_is_commutative(
            r1->mag_sq1 as int,
            r1->mag_sq2 as int,
        );
        assert(x1 == x2);
        assert(d1 * d1 * x2 == d2 * d2 * x1);
    } else {
        lemma_swap_windows(a, b);
        if r1 is Cosine {
            if exists|d: int|
                0 <= d <= max_offset(b, a) && #[trigger] win_perfect(b, a, d) {
                let d = choose|d: int|
                    0 <= d <= max_offset(b, a) && #[trigger] win_perfect(b, a, d);
                assert(win_perfect(a, b, d));
                assert(r1 is One);
                assert(false);
            }
            assert(r2 is Cosine);
            let d1 = choose|d: int| #[trigger] is_best_window(a, b, d, r1);
            let d2 = choose|d: int| #[trigger] is_best_window(b, a, d, r2);
            assert(score_le(
                win_dot(a, b, d2),
                win_den(a, b, d2),
                win_dot(a, b, d1),
                win_den(a, b, d1),
            ));
            assert(win_dot(b, a, d1) == win_dot(a, b, d1));
            assert(win_den(b, a, d1) == win_den(a, b, d1));
            assert(score_le(
                win_dot(b, a, d1),
                win_den(b, a, d1),
                win_dot(b, a, d2),
                win_den(b, a, d2),
            ));
            assert((r1->dot as int) == win_dot(a, b, d1));
            assert((r1->mag_sq1 as int) * (r1->mag_sq2 as int) == win_den(a, b, d1));
            assert((r2->dot as int) == win_dot(a, b, d2));
            assert((r2->mag_sq1 as int) * (r2->mag_sq2 as int) == win_den(b, a, d2));
        }
        if r2 is Cosine && !(r1 is Cosine) {
            assert(r1 is One);
            assert(exists|d: int|
                0 <= d <= max_offset(a, b) && #[trigger] win_perfect(a, b, d));
            let d = choose|d: int|
                0 <= d <= max_offset(a, b) && #[trigger] win_perfect(a, b, d);
            assert(win_perfect(b, a, d));
            assert(r2 is One);
        }
        if r1 is Cosine && !(r2 is Cosine) {
            assert(r2 is One);
            let d = choose|d: int|
                0 <= d <= max_offset(b, a) && #[trigger] win_perfect(b, a, d);
            assert(win_perfect(a, b, d));
            assert(r1 is One);
        }
    }
}

} // verus!
