//! Reporting order for found words: longer words first, ties in ascending
//! lexicographic order. The order is strict and total on distinct words, so a
//! ranked word list with a given membership is unique.

use vstd::prelude::*;

verus! {

/// Strict lexicographic order on character sequences, by code point, with a
/// proper prefix ordered before its extensions.
pub open spec fn lex_lt(a: Seq<char>, b: Seq<char>) -> bool
    decreases a.len() + b.len(),
{
    if b.len() == 0 {
        false
    } else if a.len() == 0 {
        true
    } else if a[0] != b[0] {
        (a[0] as u32) < (b[0] as u32)
    } else {
        lex_lt(a.subrange(1, a.len() as int), b.subrange(1, b.len() as int))
    }
}

/// `a` is reported before `b`: `a` is longer, or of equal length and
/// lexicographically smaller.
pub open spec fn ranks_before(a: Seq<char>, b: Seq<char>) -> bool {
    a.len() > b.len() || (a.len() == b.len() && lex_lt(a, b))
}

/// The words of a list, as character sequences.
pub open spec fn views_of(ws: Seq<Vec<char>>) -> Seq<Seq<char>> {
    ws.map_values(|v: Vec<char>| v@)
}

/// Whether the word list `ws` holds the word `w`.
pub open spec fn has_word(ws: Seq<Seq<char>>, w: Seq<char>) -> bool {
    exists|k: int| 0 <= k < ws.len() && ws[k] == w
}

/// No word occurs twice in the list.
pub open spec fn distinct_words(ws: Seq<Seq<char>>) -> bool {
    forall|k: int, l: int| 0 <= k < l < ws.len() ==> ws[k] != ws[l]
}

/// Every word of the list is ranked strictly before all later ones.
pub open spec fn strictly_ranked(ws: Seq<Seq<char>>) -> bool {
    forall|k: int, l: int| 0 <= k < l < ws.len() ==> ranks_before(#[trigger] ws[k], #[trigger] ws[l])
}

pub proof fn lemma_lex_lt_asymmetric(a: Seq<char>, b: Seq<char>)
    requires
        lex_lt(a, b),
    ensures
        !lex_lt(b, a),
    decreases a.len() + b.len(),
{
    if a.len() > 0 && b.len() > 0 && a[0] == b[0] {
        lemma_lex_lt_asymmetric(a.subrange(1, a.len() as int), b.subrange(1, b.len() as int));
    }
}

pub proof fn lemma_lex_lt_trichotomy(a: Seq<char>, b: Seq<char>)
    ensures
        a == b || lex_lt(a, b) || lex_lt(b, a),
    decreases a.len() + b.len(),
{
    if a.len() == 0 && b.len() == 0 {
        assert(a =~= b);
    } else if a.len() > 0 && b.len() > 0 && a[0] == b[0] {
        let a1 = a.subrange(1, a.len() as int);
        let b1 = b.subrange(1, b.len() as int);
        lemma_lex_lt_trichotomy(a1, b1);
        if a1 == b1 {
            assert(a1.len() == b1.len());
            assert(a1.len() == a.len() - 1);
            assert(b1.len() == b.len() - 1);
            assert(a.len() == b.len());
            assert forall|k: int| 0 <= k < a.len() implies a[k] == b[k] by {
                if k > 0 {
                    assert(a[k] == a1[k - 1]);
                    assert(b[k] == b1[k - 1]);
                }
            }
            assert(a =~= b);
        }
    } else if a.len() > 0 && b.len() > 0 {
        // distinct head characters have distinct code points
        vstd::utf8::char_u32_cast(a[0], a[0] as u32);
        vstd::utf8::char_u32_cast(b[0], b[0] as u32);
    }
}

pub proof fn lemma_lex_lt_transitive(a: Seq<char>, b: Seq<char>, c: Seq<char>)
    requires
        lex_lt(a, b),
        lex_lt(b, c),
    ensures
        lex_lt(a, c),
    decreases a.len() + b.len() + c.len(),
{
    if a.len() > 0 && b.len() > 0 && c.len() > 0 {
        if a[0] == b[0] && b[0] == c[0] {
            lemma_lex_lt_transitive(
                a.subrange(1, a.len() as int),
                b.subrange(1, b.len() as int),
                c.subrange(1, c.len() as int),
            );
        }
    }
}

/// The ranking order never holds both ways.
pub proof fn lemma_ranks_before_asymmetric(a: Seq<char>, b: Seq<char>)
    requires
        ranks_before(a, b),
    ensures
        !ranks_before(b, a),
{
    if a.len() == b.len() {
        lemma_lex_lt_asymmetric(a, b);
    }
}

/// Distinct words are always ordered one way or the other.
pub proof fn lemma_ranks_before_total(a: Seq<char>, b: Seq<char>)
    requires
        a != b,
    ensures
        ranks_before(a, b) || ranks_before(b, a),
{
    lemma_lex_lt_trichotomy(a, b);
}

pub proof fn lemma_ranks_before_transitive(a: Seq<char>, b: Seq<char>, c: Seq<char>)
    requires
        ranks_before(a, b),
        ranks_before(b, c),
    ensures
        ranks_before(a, c),
{
    if a.len() == b.len() && b.len() == c.len() {
        lemma_lex_lt_transitive(a, b, c);
    }
}

/// Equal prefixes do not decide the lexicographic order: it is settled by the
/// remainders.
proof fn lemma_lex_lt_common_prefix(a: Seq<char>, b: Seq<char>, k: int)
    requires
        0 <= k <= a.len(),
        k <= b.len(),
        forall|j: int| 0 <= j < k ==> a[j] == b[j],
    ensures
        lex_lt(a, b) == lex_lt(a.subrange(k, a.len() as int), b.subrange(k, b.len() as int)),
    decreases k,
{
    if k == 0 {
        assert(a.subrange(0, a.len() as int) =~= a);
        assert(b.subrange(0, b.len() as int) =~= b);
    } else {
        let a1 = a.subrange(1, a.len() as int);
        let b1 = b.subrange(1, b.len() as int);
        assert forall|j: int| 0 <= j < k - 1 implies a1[j] == b1[j] by {
            assert(a[j + 1] == b[j + 1]);
        }
        lemma_lex_lt_common_prefix(a1, b1, k - 1);
        assert(a1.subrange(k - 1, a1.len() as int) =~= a.subrange(k, a.len() as int));
        assert(b1.subrange(k - 1, b1.len() as int) =~= b.subrange(k, b.len() as int));
    }
}

/// A word is in a list with one more word inserted exactly when it is the
/// inserted word or was in the list already.
proof fn lemma_has_word_insert(s: Seq<Seq<char>>, j: int, w: Seq<char>, w2: Seq<char>)
    requires
        0 <= j <= s.len(),
    ensures
        has_word(s.insert(j, w), w2) == (has_word(s, w2) || w2 == w),
{
    let t = s.insert(j, w);
    if has_word(t, w2) {
        let k = choose|k: int| 0 <= k < t.len() && t[k] == w2;
        if k < j {
            assert(s[k] == w2);
        } else if k > j {
            assert(s[k - 1] == w2);
        }
    }
    if has_word(s, w2) {
        let k = choose|k: int| 0 <= k < s.len() && s[k] == w2;
        if k < j {
            assert(t[k] == w2);
        } else {
            assert(t[k + 1] == w2);
        }
    }
    if w2 == w {
        assert(t[j] == w2);
    }
}

/// A word is in a nonempty list exactly when it is the head or is in the tail.
proof fn lemma_has_word_tail(s: Seq<Seq<char>>, w2: Seq<char>)
    requires
        s.len() >= 1,
    ensures
        has_word(s, w2) == (w2 == s[0] || has_word(s.subrange(1, s.len() as int), w2)),
{
    let t = s.subrange(1, s.len() as int);
    if has_word(t, w2) {
        let k = choose|k: int| 0 <= k < t.len() && t[k] == w2;
        assert(s[k + 1] == w2);
    }
    if has_word(s, w2) {
        let k = choose|k: int| 0 <= k < s.len() && s[k] == w2;
        if k > 0 {
            assert(t[k - 1] == w2);
        }
    }
    if w2 == s[0] {
        assert(s[0] == w2);
    }
}

/// Decides the reporting order of two words.
pub fn precedes(a: &Vec<char>, b: &Vec<char>) -> (r: bool)
    ensures
        r == ranks_before(a@, b@),
{
    if a.len() > b.len() {
        return true;
    }
    if a.len() < b.len() {
        return false;
    }
    let mut k: usize = 0;
    while k < a.len()
        invariant
            a@.len() == b@.len(),
            k <= a@.len(),
            forall|j: int| 0 <= j < k ==> a@[j] == b@[j],
        decreases a@.len() - k,
    {
        let x = a[k];
        let y = b[k];
        if x != y {
            proof {
                lemma_lex_lt_common_prefix(a@, b@, k as int);
                assert(a@.subrange(k as int, a@.len() as int)[0] == x);
                assert(b@.subrange(k as int, b@.len() as int)[0] == y);
            }
            return (x as u32) < (y as u32);
        }
        k = k + 1;
    }
    proof {
        assert(a@ =~= b@);
        lemma_lex_lt_common_prefix(a@, b@, a@.len() as int);
    }
    false
}

/// Arranges a list of distinct words into reporting order. The result is a
/// permutation of the input: same length, same membership, still distinct.
pub fn sort_ranked(words: Vec<Vec<char>>) -> (out: Vec<Vec<char>>)
    requires
        distinct_words(views_of(words@)),
    ensures
        strictly_ranked(views_of(out@)),
        views_of(out@).len() == views_of(words@).len(),
        forall|w: Seq<char>| has_word(views_of(out@), w) == has_word(views_of(words@), w),
    {
    let mut rest = words;
    let ghost orig = views_of(rest@);
    let mut out: Vec<Vec<char>> = Vec::new();
    while rest.len() > 0
        invariant
            distinct_words(views_of(rest@)),
            strictly_ranked(views_of(out@)),
            views_of(out@).len() + views_of(rest@).len() == orig.len(),
            forall|k: int, l: int|
                0 <= k < views_of(out@).len() && 0 <= l < views_of(rest@).len()
                    ==> views_of(out@)[k] != views_of(rest@)[l],
            forall|w: Seq<char>|
                has_word(orig, w) == (has_word(views_of(out@), w) || has_word(
                    views_of(rest@),
                    w,
                )),
        decreases rest.len(),
    {
        let ghost rest0 = views_of(rest@);
        let w = rest.remove(0);
        proof {
            assert(views_of(rest@) =~= rest0.subrange(1, rest0.len() as int));
            assert(w@ == rest0[0]);
            assert forall|l: int|
                0 <= l < views_of(out@).len() implies views_of(out@)[l] != w@ by {
                assert(views_of(out@)[l] != rest0[0]);
            }
        }
        let mut j: usize = 0;
        while j < out.len() && !precedes(&w, &out[j])
            invariant
                strictly_ranked(views_of(out@)),
                j <= views_of(out@).len(),
                forall|l: int| 0 <= l < views_of(out@).len() ==> views_of(out@)[l] != w@,
                forall|l: int| 0 <= l < j ==> ranks_before(#[trigger] views_of(out@)[l], w@),
            decreases out.len() - j,
        {
            proof {
                lemma_ranks_before_total(views_of(out@)[j as int], w@);
            }
            j = j + 1;
        }
        let ghost out1 = views_of(out@);
        let ghost wv = w@;
        out.insert(j, w);
        proof {
            assert(views_of(out@) =~= out1.insert(j as int, wv));
            assert forall|k: int, l: int|
                0 <= k < l < views_of(out@).len() implies ranks_before(
                #[trigger] views_of(out@)[k],
                #[trigger] views_of(out@)[l],
            ) by {
                let s = views_of(out@);
                if k < j && l == j {
                    assert(s[k] == out1[k]);
                } else if k == j && l > j {
                    assert(ranks_before(wv, out1[j as int]));
                    if l > j + 1 {
                        lemma_ranks_before_transitive(wv, out1[j as int], out1[l - 1]);
                    }
                } else if l < j {
                    assert(s[k] == out1[k] && s[l] == out1[l]);
                } else if k > j {
                    assert(s[k] == out1[k - 1] && s[l] == out1[l - 1]);
                } else if k < j && l > j {
                    assert(s[k] == out1[k] && s[l] == out1[l - 1]);
                }
            }
            let s = views_of(out@);
            let restv = views_of(rest@);
            assert forall|k: int, l: int|
                0 <= k < s.len() && 0 <= l < restv.len() implies s[k] != restv[l] by {
                assert(restv[l] == rest0[l + 1]);
                assert(rest0[0] != rest0[l + 1]);
                if k < j {
                    assert(s[k] == out1[k]);
                } else if k > j {
                    assert(s[k] == out1[k - 1]);
                }
            }
            assert forall|w2: Seq<char>|
                has_word(orig, w2) == (has_word(s, w2) || has_word(restv, w2)) by {
                lemma_has_word_insert(out1, j as int, wv, w2);
                lemma_has_word_tail(rest0, w2);
            }
        }
    }
    proof {
        assert(views_of(rest@).len() == 0);
    }
    out
}

/// A ranked list never repeats a word: whatever is reported appears once.
pub proof fn lemma_ranked_distinct(ws: Seq<Seq<char>>)
    requires
        strictly_ranked(ws),
    ensures
        distinct_words(ws),
{
    assert forall|k: int, l: int| 0 <= k < l < ws.len() implies ws[k] != ws[l] by {
        if ws[k] == ws[l] {
            lemma_ranks_before_asymmetric(ws[k], ws[l]);
        }
    }
}

/// Two ranked lists with the same membership are the same list: the ranking
/// pins the reported order completely.
pub proof fn lemma_ranked_unique(x: Seq<Seq<char>>, y: Seq<Seq<char>>)
    requires
        strictly_ranked(x),
        strictly_ranked(y),
        forall|w: Seq<char>| has_word(x, w) == has_word(y, w),
    ensures
        x == y,
    decreases x.len(),
{
    if x.len() == 0 {
        if y.len() > 0 {
            assert(has_word(y, y[0]));
        }
        assert(x =~= y);
    } else {
        assert(has_word(x, x[0]));
        let i = choose|i: int| 0 <= i < y.len() && y[i] == x[0];
        if i > 0 {
            assert(has_word(y, y[0]));
            let j = choose|j: int| 0 <= j < x.len() && x[j] == y[0];
            if j == 0 {
                assert(ranks_before(y[0], y[i]));
                lemma_ranks_before_asymmetric(y[0], y[i]);
            } else {
                assert(ranks_before(x[0], x[j]));
                assert(ranks_before(y[0], y[i]));
                lemma_ranks_before_transitive(x[0], x[j], x[0]);
                lemma_ranks_before_asymmetric(x[0], x[0]);
            }
        }
        assert(y[0] == x[0]);
        let x1 = x.subrange(1, x.len() as int);
        let y1 = y.subrange(1, y.len() as int);
        assert forall|w: Seq<char>| has_word(x1, w) == has_word(y1, w) by {
            lemma_tail_membership(x, w);
            lemma_tail_membership(y, w);
        }
        lemma_ranked_unique(x1, y1);
        assert forall|k: int| 0 <= k < x.len() implies x[k] == y[k] by {
            if k > 0 {
                assert(x1[k - 1] == y1[k - 1]);
            }
        }
        assert(x =~= y);
    }
}

/// In a ranked list the head is ranked before every other word, so a word
/// sits in the tail exactly when it is in the list and is not the head.
proof fn lemma_tail_membership(x: Seq<Seq<char>>, w: Seq<char>)
    requires
        strictly_ranked(x),
        x.len() >= 1,
    ensures
        has_word(x.subrange(1, x.len() as int), w) == (has_word(x, w) && w != x[0]),
{
    let x1 = x.subrange(1, x.len() as int);
    if has_word(x1, w) {
        let k = choose|k: int| 0 <= k < x1.len() && x1[k] == w;
        assert(x[k + 1] == w);
        assert(ranks_before(x[0], x[k + 1]));
        lemma_ranks_before_asymmetric(x[0], x[k + 1]);
        if w == x[0] {
            assert(ranks_before(w, w));
        }
    }
    if has_word(x, w) && w != x[0] {
        let k = choose|k: int| 0 <= k < x.len() && x[k] == w;
        assert(x1[k - 1] == w);
    }
}

} // verus!
