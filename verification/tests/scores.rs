//! Concrete scoring scenarios for the three comparators.

use bigram_sim::{gram, partial_ratio, ratio, Score};

/// The floating-point value of an exact score.
fn value(s: Score) -> f64 {
    match s {
        Score::Zero => 0.0,
        Score::One => 1.0,
        Score::Cosine { dot, mag_sq1, mag_sq2 } => {
            (dot as f64) / ((mag_sq1 as f64).sqrt() * (mag_sq2 as f64).sqrt())
        },
    }
}

#[test]
fn gram_empty_left_is_zero() {
    assert_eq!(gram("", "abc"), Score::Zero);
    assert_eq!(value(gram("", "abc")), 0.0);
}

#[test]
fn gram_empty_right_is_zero() {
    assert_eq!(gram("abc", ""), Score::Zero);
}

#[test]
fn gram_both_empty_is_zero() {
    assert_eq!(gram("", ""), Score::Zero);
}

#[test]
fn ratio_empty_is_zero() {
    assert_eq!(ratio("", "abc"), Score::Zero);
    assert_eq!(ratio("abc", ""), Score::Zero);
}

#[test]
fn partial_ratio_empty_is_zero() {
    assert_eq!(partial_ratio("", "abc"), Score::Zero);
    assert_eq!(partial_ratio("abc", ""), Score::Zero);
}

#[test]
fn gram_equal_is_one() {
    assert_eq!(gram("abc", "abc"), Score::One);
    assert_eq!(value(gram("abc", "abc")), 1.0);
}

#[test]
fn gram_night_nacht() {
    // bigrams of "night": _n ni ig gh ht t_; of "nacht": _n na ac ch ht t_;
    // shared: _n, ht, t_ -> dot 3; each string has six distinct bigrams.
    let s = gram("night", "nacht");
    assert_eq!(s, Score::Cosine { dot: 3, mag_sq1: 6, mag_sq2: 6 });
    let v = value(s);
    assert!((v - 0.5).abs() < 1e-9);
    assert!(0.0 < v && v < 1.0);
}

#[test]
fn partial_ratio_exact_substring_is_one() {
    assert_eq!(partial_ratio("abcdef", "cde"), Score::One);
    assert_eq!(value(partial_ratio("abcdef", "cde")), 1.0);
}

#[test]
fn partial_ratio_equal_length_matches_gram() {
    assert_eq!(partial_ratio("abc", "xyz"), gram("abc", "xyz"));
    assert!(value(partial_ratio("abc", "xyz")) < 1.0);
}

#[test]
fn gram_disjoint_strings_score_zero() {
    // "abc" and "xyz" share no bigram: four distinct bigrams each.
    assert_eq!(gram("abc", "xyz"), Score::Cosine { dot: 0, mag_sq1: 4, mag_sq2: 4 });
    assert_eq!(value(gram("abc", "xyz")), 0.0);
}

#[test]
fn gram_counts_repeated_bigrams() {
    // "aaaa": _a aa aa aa a_ -> counts 1, 3, 1; "aa": _a aa a_.
    assert_eq!(gram("aaaa", "aa"), Score::Cosine { dot: 5, mag_sq1: 11, mag_sq2: 3 });
}

#[test]
fn partial_ratio_repeated_window_is_one() {
    assert_eq!(partial_ratio("aaaa", "aa"), Score::One);
}

#[test]
fn gram_padding_counts_boundaries() {
    // "a b": _a, a<space>, <space>b, b_; "ab": _a, ab, b_.
    assert_eq!(gram("a b", "ab"), Score::Cosine { dot: 2, mag_sq1: 4, mag_sq2: 3 });
}

#[test]
fn gram_multibyte_equal_is_one() {
    assert_eq!(gram("n\u{e9}e", "n\u{e9}e"), Score::One);
}

#[test]
fn gram_multibyte_counts_characters() {
    // One character each, no shared bigram: two bigrams per side.
    assert_eq!(gram("\u{e9}", "e"), Score::Cosine { dot: 0, mag_sq1: 2, mag_sq2: 2 });
}

#[test]
fn partial_ratio_multibyte_window_is_one() {
    assert_eq!(partial_ratio("\u{3b1}\u{3b1}\u{3b2}\u{3b3}", "\u{3b2}\u{3b3}"), Score::One);
}
