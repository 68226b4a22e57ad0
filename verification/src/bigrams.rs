//! Bigram extraction: a string as the multiset of its adjacent character
//! pairs, padded with a boundary symbol at the start and at the end.

use vstd::prelude::*;

verus! {

/// The boundary padding symbol that marks the start and the end of a string
/// in its bigram sequence.
pub const PAD: char = ' ';

/// An ordered pair of adjacent characters; `a` or `b` may be the padding
/// symbol when the pair sits at a string boundary.
#[derive(Clone, Copy, PartialEq, Eq, Structural, Debug)]
pub struct Bigram {
    pub a: char,
    pub b: char,
}

/// The `i`-th bigram of a non-empty string: the characters at positions
/// `i - 1` and `i`, with the padding symbol standing in beyond either end.
pub open spec fn bigram_at(s: Seq<char>, i: int) -> Bigram {
    let a = if i == 0 {
        PAD
    } else {
        s[i - 1]
    };
    let b = if i == s.len() {
        PAD
    } else {
        s[i]
    };
    Bigram { a, b }
}

/// The bigram sequence of a string: one pair per adjacent character pair,
/// with the padding symbol before the first and after the last character.
/// A string of `n >= 1` characters yields `n + 1` bigrams; the empty string
/// yields none.
pub open spec fn bigrams_of(s: Seq<char>) -> Seq<Bigram> {
    if s.len() == 0 {
        Seq::empty()
    } else {
        Seq::new(s.len() + 1, |i: int| bigram_at(s, i))
    }
}

/// How many times the bigram `g` occurs in the sequence `s`.
pub open spec fn count_of(s: Seq<Bigram>, g: Bigram) -> nat
    decreases s.len(),
{
    if s.len() == 0 {
        0
    } else {
        count_of(s.drop_last(), g) + if s.last() == g {
            1nat
        } else {
            0nat
        }
    }
}

/// Appending one bigram raises exactly that bigram's count by one.
pub proof fn lemma_count_push(s: Seq<Bigram>, c: Bigram, g: Bigram)
    ensures
        count_of(s.push(c), g) == count_of(s, g) + if c == g {
            1nat
        } else {
            0nat
        },
{
    assert(s.push(c).drop_last() =~= s);
}

/// A count never exceeds the length of the sequence counted in.
pub proof fn lemma_count_le_len(s: Seq<Bigram>, g: Bigram)
    ensures
        count_of(s, g) <= s.len(),
    decreases s.len(),
{
    if s.len() > 0 {
        lemma_count_le_len(s.drop_last(), g);
    }
}

/// A bigram has a positive count exactly when the sequence contains it.
pub proof fn lemma_count_positive_iff_contains(s: Seq<Bigram>, g: Bigram)
    ensures
        count_of(s, g) > 0 <==> s.contains(g),
    decreases s.len(),
{
    if s.len() > 0 {
        lemma_count_positive_iff_contains(s.drop_last(), g);
        if s.last() == g {
            assert(s[s.len() - 1] == g);
        } else if count_of(s.drop_last(), g) > 0 {
            let i = choose|i: int| 0 <= i < s.drop_last().len() && s.drop_last()[i] == g;
            assert(s[i] == g);
        } else if s.contains(g) {
            let i = choose|i: int| 0 <= i < s.len() && s[i] == g;
            assert(i < s.len() - 1 ==> s.drop_last()[i] == g);
        }
    }
}

/// Pairs two characters into a bigram.
pub fn bigram_new(a: char, b: char) -> (g: Bigram)
    ensures
        g == (Bigram { a, b }),
{
    Bigram { a, b }
}

/// Builds the padded bigram sequence of a string given as its characters.
pub fn extract(s: &Vec<char>) -> (r: Vec<Bigram>)
    ensures
        r@ == bigrams_of(s@),
{
    let mut r: Vec<Bigram> = Vec::new();
    let n = s.len();
    if n == 0 {
        assert(r@ =~= bigrams_of(s@));
        return r;
    }
    r.push(bigram_new(PAD, s[0]));
    let mut i: usize = 0;
    while i + 1 < n
        invariant
            n == s@.len(),
            1 <= n,
            i + 1 <= n,
            r@.len() == i + 1,
            forall|j: int| 0 <= j <= i ==> r@[j] == bigrams_of(s@)[j],
        decreases n - i,
    {
        r.push(bigram_new(s[i], s[i + 1]));
        i += 1;
    }
    r.push(bigram_new(s[n - 1], PAD));
    assert(r@ =~= bigrams_of(s@));
    r
}

/// Counts the occurrences of `g` in the bigram sequence `s`.
pub fn count_in(s: &Vec<Bigram>, g: Bigram) -> (c: usize)
    ensures
        c == count_of(s@, g),
        c <= s@.len(),
{
    let mut c: usize = 0;
    let mut i: usize = 0;
    while i < s.len()
        invariant
            i <= s@.len(),
            c == count_of(s@.take(i as int), g),
            c <= i,
        decreases s@.len() - i,
    {
        proof {
            assert(s@.take(i + 1).drop_last() =~= s@.take(i as int));
            assert(s@.take(i + 1).last() == s@[i as int]);
        }
        if s[i] == g {
            c += 1;
        }
        i += 1;
    }
    proof {
        assert(s@.take(s@.len() as int) =~= s@);
    }
    c
}

} // verus!
