//! The vocabulary of a comparison: the sorted, duplicate-free union of the
//! bigrams of the two strings being compared.

use vstd::prelude::*;

use crate::bigrams::Bigram;

verus! {

/// Lexicographic order on bigrams by character scalar values.
pub open spec fn bigram_lt(x: Bigram, y: Bigram) -> bool {
    (x.a as int) < (y.a as int) || (x.a == y.a && (x.b as int) < (y.b as int))
}

/// Strictly increasing, hence duplicate-free.
pub open spec fn sorted_strict(v: Seq<Bigram>) -> bool {
    forall|i: int, j: int| 0 <= i < j < v.len() ==> bigram_lt(v[i], v[j])
}

/// `v` is the vocabulary of the bigram pool `pool`: strictly sorted and
/// containing exactly the bigrams of the pool.
pub open spec fn is_vocab(v: Seq<Bigram>, pool: Seq<Bigram>) -> bool {
    sorted_strict(v) && forall|g: Bigram| #[trigger] v.contains(g) <==> pool.contains(g)
}

/// Exactly one of `x < y`, `x == y`, `y < x` holds.
pub proof fn lemma_lt_trichotomy(x: Bigram, y: Bigram)
    ensures
        bigram_lt(x, y) || x == y || bigram_lt(y, x),
        bigram_lt(x, y) ==> x != y && !bigram_lt(y, x),
{
}

/// A strictly sorted prefix, suffix or subrange stays strictly sorted.
pub proof fn lemma_sorted_subrange(v: Seq<Bigram>, lo: int, hi: int)
    requires
        sorted_strict(v),
        0 <= lo <= hi <= v.len(),
    ensures
        sorted_strict(v.subrange(lo, hi)),
{
    assert forall|i: int, j: int| 0 <= i < j < hi - lo implies bigram_lt(
        v.subrange(lo, hi)[i],
        v.subrange(lo, hi)[j],
    ) by {
        assert(v.subrange(lo, hi)[i] == v[lo + i]);
        assert(v.subrange(lo, hi)[j] == v[lo + j]);
    }
}

/// Two strictly sorted sequences with the same members are the same
/// sequence: the vocabulary of a pool is unique.
pub proof fn lemma_vocab_unique(v1: Seq<Bigram>, v2: Seq<Bigram>)
    requires
        sorted_strict(v1),
        sorted_strict(v2),
        forall|g: Bigram| #[trigger] v1.contains(g) <==> v2.contains(g),
    ensures
        v1 == v2,
    decreases v1.len(),
{
    if v1.len() == 0 {
        if v2.len() > 0 {
            assert(v2.contains(v2[0]));
            assert(!v1.contains(v2[0]));
            assert(false);
        }
        assert(v1 =~= v2);
    } else {
        assert(v1.contains(v1[0]));
        assert(v2.contains(v1[0]));
        let j = choose|j: int| 0 <= j < v2.len() && v2[j] == v1[0];
        assert(v2.contains(v2[0]));
        assert(v1.contains(v2[0]));
        let k = choose|k: int| 0 <= k < v1.len() && v1[k] == v2[0];
        if j > 0 {
            assert(bigram_lt(v2[0], v2[j]));
            if k > 0 {
                assert(bigram_lt(v1[0], v1[k]));
                lemma_lt_trichotomy(v1[0], v2[0]);
                assert(false);
            }
        }
        assert(v1[0] == v2[0]);
        let t1 = v1.subrange(1, v1.len() as int);
        let t2 = v2.subrange(1, v2.len() as int);
        lemma_sorted_subrange(v1, 1, v1.len() as int);
        lemma_sorted_subrange(v2, 1, v2.len() as int);
        assert forall|g: Bigram| #[trigger] t1.contains(g) implies t2.contains(g) by {
            lemma_tail_contains(v1, g);
            lemma_tail_contains(v2, g);
        }
        assert forall|g: Bigram| #[trigger] t2.contains(g) implies t1.contains(g) by {
            lemma_tail_contains(v1, g);
            lemma_tail_contains(v2, g);
        }
        lemma_vocab_unique(t1, t2);
        assert(v1.len() == v2.len());
        assert forall|i: int| 0 <= i < v1.len() implies v1[i] == v2[i] by {
            if i > 0 {
                assert(t1[i - 1] == t2[i - 1]);
            }
        }
        assert(v1 =~= v2);
    }
}

/// In a strictly sorted sequence, the tail holds exactly the members other
/// than the head.
proof fn lemma_tail_contains(v: Seq<Bigram>, g: Bigram)
    requires
        sorted_strict(v),
        v.len() > 0,
    ensures
        v.subrange(1, v.len() as int).contains(g) <==> v.contains(g) && g != v[0],
{
    let t = v.subrange(1, v.len() as int);
    if t.contains(g) {
        let i = choose|i: int| 0 <= i < t.len() && t[i] == g;
        assert(v[i + 1] == g);
        assert(bigram_lt(v[0], v[i + 1]));
        lemma_lt_trichotomy(v[0], g);
    }
    if v.contains(g) && g != v[0] {
        let i = choose|i: int| 0 <= i < v.len() && v[i] == g;
        assert(t[i - 1] == g);
    }
}

/// Inserts `g` into its place in the sorted `v`, unless already present.
pub open spec fn insert_sorted(v: Seq<Bigram>, g: Bigram) -> Seq<Bigram>
    decreases v.len(),
{
    if v.len() == 0 {
        seq![g]
    } else if bigram_lt(g, v[0]) {
        seq![g] + v
    } else if g == v[0] {
        v
    } else {
        seq![v[0]] + insert_sorted(v.subrange(1, v.len() as int), g)
    }
}

/// Sorted insertion keeps the sequence sorted and adds exactly `g`.
pub proof fn lemma_insert_sorted(v: Seq<Bigram>, g: Bigram)
    requires
        sorted_strict(v),
    ensures
        sorted_strict(insert_sorted(v, g)),
        forall|h: Bigram| #[trigger] insert_sorted(v, g).contains(h) <==> v.contains(h) || h == g,
    decreases v.len(),
{
    let r = insert_sorted(v, g);
    if v.len() == 0 {
        assert(r[0] == g);
        assert forall|h: Bigram| #[trigger] r.contains(h) implies v.contains(h) || h == g by {}
    } else if bigram_lt(g, v[0]) {
        assert forall|p: int, q: int| 0 <= p < q < r.len() implies bigram_lt(r[p], r[q]) by {
            if p == 0 {
                assert(r[q] == v[q - 1]);
                if q > 1 {
                    assert(bigram_lt(v[0], v[q - 1]));
                }
            } else {
                assert(r[p] == v[p - 1] && r[q] == v[q - 1]);
            }
        }
        assert forall|h: Bigram| #[trigger] r.contains(h) implies v.contains(h) || h == g by {
            let i = choose|i: int| 0 <= i < r.len() && r[i] == h;
            if i > 0 {
                assert(v[i - 1] == h);
            }
        }
        assert forall|h: Bigram| v.contains(h) || h == g implies #[trigger] r.contains(h) by {
            if h == g {
                assert(r[0] == h);
            } else {
                let i = choose|i: int| 0 <= i < v.len() && v[i] == h;
                assert(r[i + 1] == h);
            }
        }
    } else if g == v[0] {
        assert(v.contains(g));
    } else {
        lemma_lt_trichotomy(g, v[0]);
        let t = v.subrange(1, v.len() as int);
        lemma_sorted_subrange(v, 1, v.len() as int);
        lemma_insert_sorted(t, g);
        let w = insert_sorted(t, g);
        assert forall|p: int, q: int| 0 <= p < q < r.len() implies bigram_lt(r[p], r[q]) by {
            if p == 0 {
                assert(r[q] == w[q - 1]);
                assert(w.contains(w[q - 1]));
                if w[q - 1] == g {
                } else {
                    let i = choose|i: int| 0 <= i < t.len() && t[i] == w[q - 1];
                    assert(v[i + 1] == w[q - 1]);
                    assert(bigram_lt(v[0], v[i + 1]));
                }
            } else {
                assert(r[p] == w[p - 1] && r[q] == w[q - 1]);
            }
        }
        assert forall|h: Bigram| #[trigger] r.contains(h) implies v.contains(h) || h == g by {
            let i = choose|i: int| 0 <= i < r.len() && r[i] == h;
            if i == 0 {
                assert(v[0] == h);
            } else {
                assert(w[i - 1] == h);
                assert(w.contains(h));
                if h != g {
                    let k = choose|k: int| 0 <= k < t.len() && t[k] == h;
                    assert(v[k + 1] == h);
                }
            }
        }
        assert forall|h: Bigram| v.contains(h) || h == g implies #[trigger] r.contains(h) by {
            if h == g || t.contains(h) {
                assert(w.contains(h));
                let i = choose|i: int| 0 <= i < w.len() && w[i] == h;
                assert(r[i + 1] == h);
            } else {
                let i = choose|i: int| 0 <= i < v.len() && v[i] == h;
                if i == 0 {
                    assert(r[0] == h);
                } else {
                    assert(t[i - 1] == h);
                    assert(t.contains(h));
                }
            }
        }
    }
}

/// The canonical vocabulary of a bigram pool, built by sorted insertion.
pub open spec fn vocab_spec(pool: Seq<Bigram>) -> Seq<Bigram>
    decreases pool.len(),
{
    if pool.len() == 0 {
        Seq::empty()
    } else {
        insert_sorted(vocab_spec(pool.drop_last()), pool.last())
    }
}

/// Every pool has a vocabulary: the canonical one fits the bill.
pub proof fn lemma_vocab_exists(pool: Seq<Bigram>)
    ensures
        is_vocab(vocab_spec(pool), pool),
    decreases pool.len(),
{
    if pool.len() == 0 {
        assert forall|g: Bigram| #[trigger] vocab_spec(pool).contains(g) <==> pool.contains(
            g,
        ) by {}
    } else {
        let p0 = pool.drop_last();
        lemma_vocab_exists(p0);
        lemma_insert_sorted(vocab_spec(p0), pool.last());
        assert forall|g: Bigram| #[trigger] vocab_spec(pool).contains(g) <==> pool.contains(g) by {
            if p0.contains(g) {
                let i = choose|i: int| 0 <= i < p0.len() && p0[i] == g;
                assert(pool[i] == g);
            }
            if g == pool.last() {
                assert(pool[pool.len() - 1] == g);
            }
            if pool.contains(g) {
                let i = choose|i: int| 0 <= i < pool.len() && pool[i] == g;
                if i < pool.len() - 1 {
                    assert(p0[i] == g);
                }
            }
        }
    }
}

/// Compares two bigrams in the lexicographic order.
pub fn bigram_before(x: &Bigram, y: &Bigram) -> (r: bool)
    ensures
        r == bigram_lt(*x, *y),
{
    if (x.a as u32) < (y.a as u32) {
        true
    } else if x.a == y.a {
        (x.b as u32) < (y.b as u32)
    } else {
        false
    }
}

/// Inserts `g` into the strictly sorted `v`, keeping it strictly sorted;
/// a bigram already present is not duplicated.
fn insert_one(v: &mut Vec<Bigram>, g: Bigram)
    requires
        sorted_strict(old(v)@),
    ensures
        sorted_strict(final(v)@),
        forall|h: Bigram| #[trigger] final(v)@.contains(h) <==> old(v)@.contains(h) || h == g,
{
    let ghost v0 = v@;
    let mut j: usize = 0;
    while j < v.len() && bigram_before(&v[j], &g)
        invariant
            v@ == v0,
            j <= v@.len(),
            forall|k: int| 0 <= k < j ==> bigram_lt(v@[k], g),
        decreases v@.len() - j,
    {
        j += 1;
    }
    if j < v.len() && v[j].a == g.a && v[j].b == g.b {
        proof {
            assert(v@[j as int] == g);
            assert(v@.contains(g));
        }
        return ;
    }
    v.insert(j, g);
    proof {
        assert forall|p: int, q: int| 0 <= p < q < v@.len() implies bigram_lt(v@[p], v@[q]) by {
            if q < j {
                assert(v@[p] == v0[p] && v@[q] == v0[q]);
            } else if p > j {
                assert(v@[p] == v0[p - 1] && v@[q] == v0[q - 1]);
            } else if q == j {
                assert(v@[p] == v0[p]);
            } else if p == j {
                // v0[j] is not g and does not come before it, so g comes first
                assert(v@[q] == v0[q - 1]);
                if q - 1 == j {
                    lemma_lt_trichotomy(g, v0[j as int]);
                } else {
                    lemma_lt_trichotomy(g, v0[j as int]);
                    assert(bigram_lt(v0[j as int], v0[q - 1]));
                }
            } else if p < j && q > j {
                assert(v@[p] == v0[p] && v@[q] == v0[q - 1]);
                if q - 1 == j {
                    lemma_lt_trichotomy(g, v0[j as int]);
                    assert(bigram_lt(v0[p], g));
                }
            }
        }
        assert forall|h: Bigram| #[trigger] v@.contains(h) implies v0.contains(h) || h == g by {
            let i = choose|i: int| 0 <= i < v@.len() && v@[i] == h;
            if i < j {
                assert(v0[i] == h);
            } else if i > j {
                assert(v0[i - 1] == h);
            }
        }
        assert forall|h: Bigram| v0.contains(h) || h == g implies #[trigger] v@.contains(h) by {
            if h == g {
                assert(v@[j as int] == h);
            } else {
                let i = choose|i: int| 0 <= i < v0.len() && v0[i] == h;
                if i < j {
                    assert(v@[i] == h);
                } else {
                    assert(v@[i + 1] == h);
                }
            }
        }
    }
}

/// Folds every bigram of `s` into the sorted vocabulary `v`.
fn insert_all(v: &mut Vec<Bigram>, s: &Vec<Bigram>)
    requires
        sorted_strict(old(v)@),
    ensures
        sorted_strict(final(v)@),
        forall|h: Bigram| #[trigger] final(v)@.contains(h) <==> old(v)@.contains(h) || s@.contains(h),
{
    let ghost v0 = old(v)@;
    let mut i: usize = 0;
    while i < s.len()
        invariant
            i <= s@.len(),
            sorted_strict(v@),
            forall|h: Bigram| #[trigger] v@.contains(h) <==> v0.contains(h) || s@.take(
                i as int,
            ).contains(h),
        decreases s@.len() - i,
    {
        insert_one(v, s[i]);
        proof {
            let snext = s@.take(i + 1);
            assert forall|h: Bigram| #[trigger] snext.contains(h) implies s@.take(
                i as int,
            ).contains(h) || h == s@[i as int] by {
                let k = choose|k: int| 0 <= k < snext.len() && #[trigger] snext[k] == h;
                if k < i {
                    assert(s@.take(i as int)[k] == h);
                }
            }
            assert forall|h: Bigram| s@.take(i as int).contains(h) implies #[trigger] snext.contains(
                h,
            ) by {
                let k = choose|k: int|
                    0 <= k < i && #[trigger] s@.take(i as int)[k] == h;
                assert(snext[k] == h);
            }
            assert(snext[i as int] == s@[i as int]);
            assert(snext.contains(s@[i as int]));
        }
        i += 1;
    }
    proof {
        assert(s@.take(s@.len() as int) =~= s@);
    }
}

/// Builds the vocabulary of two bigram sequences: the strictly sorted
/// sequence holding exactly the bigrams that occur in `x` or in `y`.
pub fn build_vocab(x: &Vec<Bigram>, y: &Vec<Bigram>) -> (v: Vec<Bigram>)
    ensures
        is_vocab(v@, x@ + y@),
{
    let mut v: Vec<Bigram> = Vec::new();
    insert_all(&mut v, x);
    insert_all(&mut v, y);
    proof {
        assert forall|h: Bigram| #[trigger] v@.contains(h) <==> (x@ + y@).contains(h) by {
            if x@.contains(h) {
                let i = choose|i: int| 0 <= i < x@.len() && x@[i] == h;
                assert((x@ + y@)[i] == h);
            }
            if y@.contains(h) {
                let i = choose|i: int| 0 <= i < y@.len() && y@[i] == h;
                assert((x@ + y@)[x@.len() + i] == h);
            }
            if (x@ + y@).contains(h) {
                let i = choose|i: int| 0 <= i < x@.len() + y@.len() && (x@ + y@)[i] == h;
                if i < x@.len() {
                    assert(x@[i] == h);
                } else {
                    assert(y@[i - x@.len()] == h);
                }
            }
        }
    }
    v
}

} // verus!
