//! Concrete instances of the comparators' laws.

use bigram_sim::{gram, partial_ratio, ratio, Score};

/// The floating-point value of an exact score.
fn score_value(s: Score) -> f64 {
    match s {
        Score::Zero => 0.0,
        Score::One => 1.0,
        Score::Cosine { dot, mag_sq1, mag_sq2 } => {
            (dot as f64) / ((mag_sq1 as f64).sqrt() * (mag_sq2 as f64).sqrt())
        },
    }
}

#[test]
fn self_comparison_is_one() {
    assert_eq!(gram("a", "a"), Score::One);
    assert_eq!(ratio("hello", "hello"), Score::One);
    assert_eq!(gram("hello", "hello"), ratio("hello", "hello"));
    assert_eq!(partial_ratio("hello", "hello"), Score::One);
}

#[test]
fn ratio_is_gram() {
    assert_eq!(gram("night", "nacht"), ratio("night", "nacht"));
    assert_eq!(gram("", "x"), ratio("", "x"));
    assert_eq!(gram("ab", "abc"), ratio("ab", "abc"));
}

#[test]
fn gram_is_symmetric() {
    assert_eq!(gram("ab", "abc"), Score::Cosine { dot: 2, mag_sq1: 3, mag_sq2: 4 });
    assert_eq!(gram("abc", "ab"), Score::Cosine { dot: 2, mag_sq1: 4, mag_sq2: 3 });
    assert_eq!(score_value(gram("ab", "abc")), score_value(gram("abc", "ab")));
    assert_eq!(score_value(gram("night", "nacht")), score_value(gram("nacht", "night")));
}

#[test]
fn partial_ratio_is_symmetric() {
    assert_eq!(
        score_value(partial_ratio("nightingale", "nacht")),
        score_value(partial_ratio("nacht", "nightingale")),
    );
    assert_eq!(partial_ratio("ab", "abc"), Score::One);
    assert_eq!(partial_ratio("abc", "ab"), Score::One);
}

#[test]
fn scores_stay_in_range() {
    let pairs = [
        ("night", "nacht"),
        ("abcdefg", "xy"),
        ("aaa", "aab"),
        ("kitten", "sitting"),
        ("a", "b"),
    ];
    for (x, y) in pairs {
        for s in [gram(x, y), ratio(x, y), partial_ratio(x, y)] {
            if let Score::Cosine { dot, mag_sq1, mag_sq2 } = s {
                assert!((dot as u128) * (dot as u128) <= (mag_sq1 as u128) * (mag_sq2 as u128));
                assert!(mag_sq1 >= 1 && mag_sq2 >= 1);
            }
            let v = score_value(s);
            assert!((0.0..=1.0).contains(&v));
        }
    }
}

#[test]
fn equal_length_partial_matches_gram() {
    assert_eq!(partial_ratio("night", "nacht"), gram("night", "nacht"));
    assert_eq!(partial_ratio("aa", "bb"), gram("aa", "bb"));
}

#[test]
fn perfect_window_returns_one() {
    assert_eq!(partial_ratio("xxabcxx", "abc"), Score::One);
    assert_eq!(partial_ratio("zzznightzzz", "night"), Score::One);
    assert_eq!(score_value(partial_ratio("xxabcxx", "abc")), 1.0);
}

#[test]
fn early_perfect_window_wins() {
    // the very first window already matches
    assert_eq!(partial_ratio("abcab", "ab"), Score::One);
}

#[test]
fn best_window_is_kept() {
    // windows of "xnachx" against "nacht": "xnach" shares three bigrams,
    // "nachx" shares four; the better alignment wins
    assert_eq!(
        partial_ratio("xnachx", "nacht"),
        Score::Cosine { dot: 4, mag_sq1: 6, mag_sq2: 6 },
    );
}

#[test]
fn best_window_beats_full_comparison() {
    // windowing finds the aligned "nacht" that a whole-string comparison dilutes
    let windowed = score_value(partial_ratio("xxxnachtxxx", "nacht"));
    let whole = score_value(gram("xxxnachtxxx", "nacht"));
    assert_eq!(windowed, 1.0);
    assert!(whole < windowed);
}
