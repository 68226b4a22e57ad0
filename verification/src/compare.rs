//! The public comparators: `gram` and `ratio` score two whole strings;
//! `partial_ratio` slides the shorter string across the longer one and
//! keeps the best alignment.

use vstd::prelude::*;
use vstd::string::StrSliceExecFns;

use crate::score::{
    dot_of, lemma_pair_sym, lemma_score_bounds, mag_sq_fst, mag_sq_snd, scored_pair,
    Score,
};

verus! {

/// An exact score is well formed: a cosine score has positive squared
/// magnitudes and, by Cauchy-Schwarz, a dot product whose square is at
/// most their product - so its value `dot / (sqrt(mag_sq1) * sqrt(mag_sq2))`
/// lies in [0, 1].
pub open spec fn valid_score(r: Score) -> bool {
    r is Cosine ==> {
        &&& (r->dot as int) * (r->dot as int) <= (r->mag_sq1 as int) * (r->mag_sq2 as int)
        &&& r->mag_sq1 >= 1
        &&& r->mag_sq2 >= 1
    }
}

/// What a whole-string comparison returns: zero for an empty side, one for
/// equal strings, and otherwise the exact cosine score of the two strings.
pub open spec fn gram_post(a: Seq<char>, b: Seq<char>, r: Score) -> bool {
    if a.len() == 0 || b.len() == 0 {
        r == Score::Zero
    } else if a == b {
        r == Score::One
    } else {
        &&& r is Cosine
        &&& r->dot == dot_of(a, b)
        &&& r->mag_sq1 == mag_sq_fst(a, b)
        &&& r->mag_sq2 == mag_sq_snd(a, b)
    }
}

/// Collects the characters of a string, so that all later indexing is by
/// character position, never by byte offset.
fn chars_of(s: &str) -> (r: Vec<char>)
    ensures
        r@ == s@,
{
    let n = s.unicode_len();
    let mut r: Vec<char> = Vec::new();
    let mut i: usize = 0;
    while i < n
        invariant
            n == s@.len(),
            i <= n,
            r@.len() == i,
            forall|j: int| 0 <= j < i ==> r@[j] == s@[j],
        decreases n - i,
    {
        let c = s.get_char(i);
        r.push(c);
        i += 1;
    }
    assert(r@ =~= s@);
    r
}

/// Character-wise equality of two character vectors.
fn seq_eq(a: &Vec<char>, b: &Vec<char>) -> (r: bool)
    ensures
        r == (a@ == b@),
{
    if a.len() != b.len() {
        return false;
    }
    let mut i: usize = 0;
    while i < a.len()
        invariant
            a@.len() == b@.len(),
            i <= a@.len(),
            forall|j: int| 0 <= j < i ==> a@[j] == b@[j],
        decreases a@.len() - i,
    {
        if a[i] != b[i] {
            return false;
        }
        i += 1;
    }
    assert(a@ =~= b@);
    true
}

/// Compares two strings by the cosine similarity of their padded bigram
/// frequency vectors. Returns `Zero` when either string is empty, `One`
/// when the strings are equal, and otherwise the exact cosine score.
///
/// The length bound keeps every count product within 64 bits.
pub fn gram(s1: &str, s2: &str) -> (r: Score)
    requires
        s1@.len() < 0xFFFF_FFFF,
        s2@.len() < 0xFFFF_FFFF,
    ensures
        gram_post(s1@, s2@, r),
        valid_score(r),
{
    let c1 = chars_of(s1);
    let c2 = chars_of(s2);
    if c1.len() == 0 || c2.len() == 0 {
        return Score::Zero;
    }
    if seq_eq(&c1, &c2) {
        return Score::One;
    }
    let t = scored_pair(&c1, &c2);
    proof {
        lemma_score_bounds(s1@, s2@);
    }
    Score::Cosine { dot: t.0, mag_sq1: t.1, mag_sq2: t.2 }
}

/// The same comparison as [`gram`], under the second of the two names the
/// operation is known by; the two are deliberately one algorithm.
pub fn ratio(s1: &str, s2: &str) -> (r: Score)
    requires
        s1@.len() < 0xFFFF_FFFF,
        s2@.len() < 0xFFFF_FFFF,
    ensures
        gram_post(s1@, s2@, r),
        valid_score(r),
{
    gram(s1, s2)
}

/// The window of the longer string starting at character `d`, as long as
/// the shorter string.
pub open spec fn window(long: Seq<char>, short_len: int, d: int) -> Seq<char> {
    long.subrange(d, d + short_len)
}

/// The first sequence scored at offset `d`: the window of `a` when `a` is
/// the longer string, else `a` itself.
pub open spec fn win_fst(a: Seq<char>, b: Seq<char>, d: int) -> Seq<char> {
    if a.len() > b.len() {
        window(a, b.len() as int, d)
    } else {
        a
    }
}

/// The second sequence scored at offset `d`: the window of `b` when `b` is
/// the longer string, else `b` itself.
pub open spec fn win_snd(a: Seq<char>, b: Seq<char>, d: int) -> Seq<char> {
    if a.len() > b.len() {
        b
    } else {
        window(b, a.len() as int, d)
    }
}

/// The last window offset: the difference of the two character counts.
pub open spec fn max_offset(a: Seq<char>, b: Seq<char>) -> int {
    if a.len() > b.len() {
        a.len() - b.len()
    } else {
        b.len() - a.len()
    }
}

/// The dot product of the alignment at offset `d`.
pub open spec fn win_dot(a: Seq<char>, b: Seq<char>, d: int) -> int {
    dot_of(win_fst(a, b, d), win_snd(a, b, d))
}

/// The product of the two squared magnitudes of the alignment at offset
/// `d`: the square of the cosine denominator.
pub open spec fn win_den(a: Seq<char>, b: Seq<char>, d: int) -> int {
    mag_sq_fst(win_fst(a, b, d), win_snd(a, b, d)) * mag_sq_snd(win_fst(a, b, d), win_snd(a, b, d))
}

/// The alignment at offset `d` scores exactly one.
pub open spec fn win_perfect(a: Seq<char>, b: Seq<char>, d: int) -> bool {
    win_dot(a, b, d) * win_dot(a, b, d) == win_den(a, b, d)
}

/// `d1 / sqrt(den1) <= d2 / sqrt(den2)` for nonnegative numerators and
/// positive denominators, cross-multiplied to stay in the integers.
pub open spec fn score_le(d1: int, den1: int, d2: int, den2: int) -> bool {
    d1 * d1 * den2 <= d2 * d2 * den1
}

/// The score order is transitive over positive denominators.
pub proof fn lemma_score_le_trans(d1: int, n1: int, d2: int, n2: int, d3: int, n3: int)
    requires
        d1 >= 0,
        d2 >= 0,
        d3 >= 0,
        n1 >= 1,
        n2 >= 1,
        n3 >= 1,
        score_le(d1, n1, d2, n2),
        score_le(d2, n2, d3, n3),
    ensures
        score_le(d1, n1, d3, n3),
{
    let a1 = d1 * d1;
    let a2 = d2 * d2;
    let a3 = d3 * d3;
    assert((a1 * n3) * n2 <= (a2 * n1) * n3) by (nonlinear_arith)
        requires
            a1 * n2 <= a2 * n1,
            n3 >= 0,
    ;
    assert((a2 * n1) * n3 <= (a3 * n1) * n2) by (nonlinear_arith)
        requires
            a2 * n3 <= a3 * n2,
            n1 >= 0,
    ;
    assert(a1 * n3 <= a3 * n1) by (nonlinear_arith)
        requires
            (a1 * n3) * n2 <= (a3 * n1) * n2,
            n2 >= 1,
    ;
}

/// `r` carries the exact cosine parts of the alignment of `a` and `b` at
/// offset `d`, and no other alignment scores higher.
pub open spec fn is_best_window(a: Seq<char>, b: Seq<char>, d: int, r: Score) -> bool {
    &&& 0 <= d <= max_offset(a, b)
    &&& r is Cosine
    &&& r->dot == win_dot(a, b, d)
    &&& r->mag_sq1 == mag_sq_fst(win_fst(a, b, d), win_snd(a, b, d))
    &&& r->mag_sq2 == mag_sq_snd(win_fst(a, b, d), win_snd(a, b, d))
    &&& forall|e: int|
        0 <= e <= max_offset(a, b) ==> score_le(
            win_dot(a, b, e),
            win_den(a, b, e),
            win_dot(a, b, d),
            win_den(a, b, d),
        )
}

/// What the windowed comparison returns: the empty, equal and equal-length
/// cases as in [`gram_post`]; otherwise `One` exactly when some alignment
/// of the shorter string inside the longer scores one, and else the exact
/// cosine parts of a best alignment.
pub open spec fn partial_post(a: Seq<char>, b: Seq<char>, r: Score) -> bool {
    if a.len() == 0 || b.len() == 0 {
        r == Score::Zero
    } else if a == b {
        r == Score::One
    } else if a.len() == b.len() {
        &&& r is Cosine
        &&& r->dot == dot_of(a, b)
        &&& r->mag_sq1 == mag_sq_fst(a, b)
        &&& r->mag_sq2 == mag_sq_snd(a, b)
    } else {
        &&& (r is One <==> exists|d: int|
            0 <= d <= max_offset(a, b) && #[trigger] win_perfect(a, b, d))
        &&& (r is Cosine ==> exists|d: int| #[trigger] is_best_window(a, b, d, r))
        &&& (r is One || r is Cosine)
    }
}

/// Copies `len` characters of `v` starting at `start`.
fn subvec(v: &Vec<char>, start: usize, len: usize) -> (w: Vec<char>)
    requires
        start + len <= v@.len(),
    ensures
        w@ == v@.subrange(start as int, start as int + len as int),
{
    let n = v.len();
    let mut w: Vec<char> = Vec::new();
    let mut j: usize = 0;
    while j < len
        invariant
            n == v@.len(),
            start + len <= n,
            j <= len,
            w@.len() == j,
            forall|k: int| 0 <= k < j ==> w@[k] == v@[start + k],
        decreases len - j,
    {
        w.push(v[start + j]);
        j += 1;
    }
    assert(w@ =~= v@.subrange(start as int, start as int + len as int));
    w
}

/// A score part of a window comparison is at most `(sl + 1) * (sl + 1)`,
/// so the product of two parts stays below `2^64`.
proof fn lemma_parts_fit_u64(p: int, q: int, sl: int)
    requires
        0 <= sl <= 0xFFFE,
        0 <= p <= (sl + 1) * (sl + 1),
        0 <= q <= (sl + 1) * (sl + 1),
    ensures
        0 <= p * q < 0x1_0000_0000_0000_0000,
        p <= 0xFFFF_FFFF,
{
    assert((sl + 1) * (sl + 1) <= 0xFFFF * 0xFFFF) by (nonlinear_arith)
        requires
            0 <= sl <= 0xFFFE,
    ;
    assert(0 <= p * q < 0x1_0000_0000_0000_0000) by (nonlinear_arith)
        requires
            0 <= p <= 0xFFFF * 0xFFFF,
            0 <= q <= 0xFFFF * 0xFFFF,
    ;
}

/// The product of two values below `2^64` stays below `2^128`.
proof fn lemma_cross_fits_u128(x: int, y: int)
    requires
        0 <= x < 0x1_0000_0000_0000_0000,
        0 <= y < 0x1_0000_0000_0000_0000,
    ensures
        0 <= x * y < 0x1_0000_0000_0000_0000_0000_0000_0000_0000,
{
    assert(0 <= x * y < 0x1_0000_0000_0000_0000_0000_0000_0000_0000) by (nonlinear_arith)
        requires
            0 <= x < 0x1_0000_0000_0000_0000,
            0 <= y < 0x1_0000_0000_0000_0000,
    ;
}

/// Scores every alignment of `short` against a sliding window of `long`,
/// returning `One` at the first perfect alignment and otherwise the exact
/// cosine parts of a best alignment, oriented window first.
fn best_window(long: &Vec<char>, short: &Vec<char>) -> (r: Score)
    requires
        1 <= short@.len(),
        short@.len() < long@.len(),
        short@.len() <= 0xFFFE,
    ensures
        r is One <==> exists|d: int|
            0 <= d <= max_offset(long@, short@) && #[trigger] win_perfect(long@, short@, d),
        r is Cosine ==> exists|d: int| #[trigger] is_best_window(long@, short@, d, r),
        r is One || r is Cosine,
        valid_score(r),
{
    let slen = short.len();
    let delta = long.len() - slen;
    let ghost a = long@;
    let ghost b = short@;
    let mut best_dot: u64 = 0;
    let mut best_m1: u64 = 0;
    let mut best_m2: u64 = 0;
    let ghost mut best_d: int = 0;
    let mut d: usize = 0;
    while d <= delta
        invariant
            a == long@,
            b == short@,
            1 <= b.len() < a.len(),
            b.len() <= 0xFFFE,
            slen == b.len(),
            delta == a.len() - b.len(),
            d <= delta + 1,
            delta < usize::MAX,
            max_offset(a, b) == delta,
            forall|e: int| 0 <= e < d ==> !win_perfect(a, b, e),
            d > 0 ==> {
                &&& 0 <= best_d < d
                &&& best_dot == win_dot(a, b, best_d)
                &&& best_m1 == mag_sq_fst(win_fst(a, b, best_d), win_snd(a, b, best_d))
                &&& best_m2 == mag_sq_snd(win_fst(a, b, best_d), win_snd(a, b, best_d))
                &&& (best_dot as int) * (best_dot as int) <= (best_m1 as int) * (best_m2 as int)
                &&& 1 <= best_m1
                &&& 1 <= best_m2
                &&& best_dot <= (b.len() + 1) * (b.len() + 1)
                &&& best_m1 <= (b.len() + 1) * (b.len() + 1)
                &&& best_m2 <= (b.len() + 1) * (b.len() + 1)
                &&& forall|e: int|
                    0 <= e < d ==> score_le(
                        win_dot(a, b, e),
                        win_den(a, b, e),
                        win_dot(a, b, best_d),
                        win_den(a, b, best_d),
                    )
            },
        decreases delta + 1 - d,
    {
        let w = subvec(long, d, slen);
        proof {
            assert(w@ == window(a, b.len() as int, d as int));
            assert(win_fst(a, b, d as int) == w@);
            assert(win_snd(a, b, d as int) == b);
        }
        let t = scored_pair(&w, short);
        proof {
            lemma_score_bounds(w@, b);
            lemma_parts_fit_u64(t.0 as int, t.0 as int, slen as int);
            lemma_parts_fit_u64(t.1 as int, t.2 as int, slen as int);
        }
        if t.0 * t.0 == t.1 * t.2 {
            proof {
                assert(win_perfect(a, b, d as int));
            }
            return Score::One;
        }
        let better = if d == 0 {
            true
        } else {
            proof {
                lemma_parts_fit_u64(best_dot as int, best_dot as int, slen as int);
                lemma_parts_fit_u64(best_m1 as int, best_m2 as int, slen as int);
                lemma_cross_fits_u128(
                    (t.0 as int) * (t.0 as int),
                    (best_m1 as int) * (best_m2 as int),
                );
                lemma_cross_fits_u128(
                    (best_dot as int) * (best_dot as int),
                    (t.1 as int) * (t.2 as int),
                );
            }
            let lhs = (t.0 as u128) * (t.0 as u128) * ((best_m1 as u128) * (best_m2 as u128));
            let rhs = (best_dot as u128) * (best_dot as u128) * ((t.1 as u128) * (t.2 as u128));
            lhs > rhs
        };
        if better {
            proof {
                if d > 0 {
                    assert forall|e: int| 0 <= e < d + 1 implies score_le(
                        win_dot(a, b, e),
                        win_den(a, b, e),
                        win_dot(a, b, d as int),
                        win_den(a, b, d as int),
                    ) by {
                        if e < d {
                            lemma_score_bounds(win_fst(a, b, e), win_snd(a, b, e));
                            let m1e = mag_sq_fst(win_fst(a, b, e), win_snd(a, b, e));
                            let m2e = mag_sq_snd(win_fst(a, b, e), win_snd(a, b, e));
                            assert(win_fst(a, b, e).len() == b.len());
                            assert(win_snd(a, b, e).len() == b.len());
                            assert(m1e * m2e >= 1) by (nonlinear_arith)
                                requires
                                    m1e >= 1,
                                    m2e >= 1,
                            ;
                            let m1b = mag_sq_fst(win_fst(a, b, best_d), win_snd(a, b, best_d));
                            let m2b = mag_sq_snd(win_fst(a, b, best_d), win_snd(a, b, best_d));
                            assert(m1b * m2b >= 1) by (nonlinear_arith)
                                requires
                                    m1b >= 1,
                                    m2b >= 1,
                            ;
                            let m1n = mag_sq_fst(win_fst(a, b, d as int), win_snd(a, b, d as int));
                            let m2n = mag_sq_snd(win_fst(a, b, d as int), win_snd(a, b, d as int));
                            assert(m1n * m2n >= 1) by (nonlinear_arith)
                                requires
                                    m1n >= 1,
                                    m2n >= 1,
                            ;
                            lemma_score_bounds(win_fst(a, b, best_d), win_snd(a, b, best_d));
                            lemma_score_le_trans(
                                win_dot(a, b, e),
                                win_den(a, b, e),
                                win_dot(a, b, best_d),
                                win_den(a, b, best_d),
                                win_dot(a, b, d as int),
                                win_den(a, b, d as int),
                            );
                        }
                    }
                }
            }
            best_dot = t.0;
            best_m1 = t.1;
            best_m2 = t.2;
            proof {
                best_d = d as int;
            }
        } else {
            proof {
                assert(score_le(
                    win_dot(a, b, d as int),
                    win_den(a, b, d as int),
                    win_dot(a, b, best_d),
                    win_den(a, b, best_d),
                ));
            }
        }
        d += 1;
    }
    let r = Score::Cosine { dot: best_dot, mag_sq1: best_m1, mag_sq2: best_m2 };
    proof {
        assert(is_best_window(a, b, best_d, r));
        if exists|e: int| 0 <= e <= max_offset(a, b) && #[trigger] win_perfect(a, b, e) {
            let e = choose|e: int| 0 <= e <= max_offset(a, b) && #[trigger] win_perfect(a, b, e);
            assert(!win_perfect(a, b, e));
        }
    }
    r
}

/// Compares two strings as [`gram`] does when their character counts are
/// equal, and otherwise slides the shorter string across the longer one,
/// one character at a time, scoring each alignment and keeping the best;
/// a perfect alignment ends the search at once with `One`.
///
/// The shorter string stays within `0xFFFE` characters so that the
/// cross-multiplied comparison of two window scores is exact in 128 bits.
pub fn partial_ratio(s1: &str, s2: &str) -> (r: Score)
    requires
        s1@.len() <= 0xFFFE || s2@.len() <= 0xFFFE,
        s1@.len() < 0xFFFF_FFFF,
        s2@.len() < 0xFFFF_FFFF,
    ensures
        partial_post(s1@, s2@, r),
        valid_score(r),
{
    let c1 = chars_of(s1);
    let c2 = chars_of(s2);
    if c1.len() == 0 || c2.len() == 0 {
        return Score::Zero;
    }
    if seq_eq(&c1, &c2) {
        return Score::One;
    }
    if c1.len() == c2.len() {
        let t = scored_pair(&c1, &c2);
        proof {
            lemma_score_bounds(s1@, s2@);
        }
        Score::Cosine { dot: t.0, mag_sq1: t.1, mag_sq2: t.2 }
    } else if c1.len() > c2.len() {
        best_window(&c1, &c2)
    } else {
        let r0 = best_window(&c2, &c1);
        proof {
            lemma_swap_windows(s1@, s2@);
            if exists|d: int|
                0 <= d <= max_offset(s1@, s2@) && #[trigger] win_perfect(s1@, s2@, d) {
                let d = choose|d: int|
                    0 <= d <= max_offset(s1@, s2@) && #[trigger] win_perfect(s1@, s2@, d);
                assert(win_perfect(s2@, s1@, d));
            }
            if exists|d: int|
                0 <= d <= max_offset(s2@, s1@) && #[trigger] win_perfect(s2@, s1@, d) {
                let d = choose|d: int|
                    0 <= d <= max_offset(s2@, s1@) && #[trigger] win_perfect(s2@, s1@, d);
                assert(win_perfect(s1@, s2@, d));
            }
        }
        match r0 {
            Score::Cosine { dot, mag_sq1, mag_sq2 } => {
                let r = Score::Cosine { dot, mag_sq1: mag_sq2, mag_sq2: mag_sq1 };
                proof {
                    let d = choose|d: int| #[trigger] is_best_window(s2@, s1@, d, r0);
                    assert(r->dot == win_dot(s1@, s2@, d));
                    assert(r->mag_sq1 == mag_sq_fst(win_fst(s1@, s2@, d), win_snd(s1@, s2@, d)));
                    assert(r->mag_sq2 == mag_sq_snd(win_fst(s1@, s2@, d), win_snd(s1@, s2@, d)));
                    assert forall|e: int| 0 <= e <= max_offset(s1@, s2@) implies score_le(
                        win_dot(s1@, s2@, e),
                        win_den(s1@, s2@, e),
                        win_dot(s1@, s2@, d),
                        win_den(s1@, s2@, d),
                    ) by {
                        assert(win_dot(s2@, s1@, e) == win_dot(s1@, s2@, e));
                        assert(win_den(s2@, s1@, e) == win_den(s1@, s2@, e));
                        assert(score_le(
                            win_dot(s2@, s1@, e),
                            win_den(s2@, s1@, e),
                            win_dot(s2@, s1@, d),
                            win_den(s2@, s1@, d),
                        ));
                    }
                    assert(is_best_window(s1@, s2@, d, r));
                }
                r
            },
            _ => r0,
        }
    }
}

/// Every alignment of a comparison scores the same with the two strings
/// swapped: the window set is shared and each pairing is symmetric.
pub proof fn lemma_swap_windows(a: Seq<char>, b: Seq<char>)
    requires
        a.len() != b.len(),
    ensures
        max_offset(a, b) == max_offset(b, a),
        forall|e: int| #[trigger] win_dot(a, b, e) == win_dot(b, a, e),
        forall|e: int| #[trigger] win_den(a, b, e) == win_den(b, a, e),
        forall|e: int|
            #[trigger] mag_sq_fst(win_fst(a, b, e), win_snd(a, b, e)) == mag_sq_snd(
                win_fst(b, a, e),
                win_snd(b, a, e),
            ),
        forall|e: int|
            #[trigger] mag_sq_snd(win_fst(a, b, e), win_snd(a, b, e)) == mag_sq_fst(
                win_fst(b, a, e),
                win_snd(b, a, e),
            ),
        forall|e: int| #[trigger] win_perfect(a, b, e) == win_perfect(b, a, e),
{
    assert forall|e: int| #[trigger] win_dot(a, b, e) == win_dot(b, a, e) by {
        assert(win_fst(b, a, e) == win_snd(a, b, e));
        assert(win_snd(b, a, e) == win_fst(a, b, e));
        lemma_pair_sym(win_fst(a, b, e), win_snd(a, b, e));
    }
    assert forall|e: int| #[trigger] win_den(a, b, e) == win_den(b, a, e) by {
        assert(win_fst(b, a, e) == win_snd(a, b, e));
        assert(win_snd(b, a, e) == win_fst(a, b, e));
        lemma_pair_sym(win_fst(a, b, e), win_snd(a, b, e));
        let mf = mag_sq_fst(win_fst(a, b, e), win_snd(a, b, e));
        let ms = mag_sq_snd(win_fst(a, b, e), win_snd(a, b, e));
        assert(win_den(a, b, e) == mf * ms);
        assert(win_den(b, a, e) == ms * mf);
        vstd::arithmetic::mul::lemma_mul_is_commutative(mf, ms);
    }
    assert forall|e: int| #[trigger] mag_sq_fst(win_fst(a, b, e), win_snd(a, b, e)) == mag_sq_snd(
        win_fst(b, a, e),
        win_snd(b, a, e),
    ) by {
        assert(win_fst(b, a, e) == win_snd(a, b, e));
        assert(win_snd(b, a, e) == win_fst(a, b, e));
        lemma_pair_sym(win_fst(a, b, e), win_snd(a, b, e));
    }
    assert forall|e: int| #[trigger] mag_sq_snd(win_fst(a, b, e), win_snd(a, b, e)) == mag_sq_fst(
        win_fst(b, a, e),
        win_snd(b, a, e),
    ) by {
        assert(win_fst(b, a, e) == win_snd(a, b, e));
        assert(win_snd(b, a, e) == win_fst(a, b, e));
        lemma_pair_sym(win_fst(a, b, e), win_snd(a, b, e));
    }
}

} // verus!
