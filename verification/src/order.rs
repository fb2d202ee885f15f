use vstd::prelude::*;

use crate::text::char_views;

verus! {

broadcast use vstd::seq_lib::group_to_multiset_ensures;

/// Lexicographic order on words, characters compared by code point (the
/// order in which `String`s compare, since UTF-8 keeps code-point order).
pub open spec fn lex_le(a: Seq<char>, b: Seq<char>) -> bool
    decreases a.len(),
{
    if a.len() == 0 {
        true
    } else if b.len() == 0 {
        false
    } else if a[0] != b[0] {
        (a[0] as int) < (b[0] as int)
    } else {
        lex_le(a.drop_first(), b.drop_first())
    }
}

/// Every element is lexicographically at most every later one.
pub open spec fn sorted(s: Seq<Seq<char>>) -> bool {
    forall|i: int, j: int| 0 <= i <= j < s.len() ==> lex_le(#[trigger] s[i], #[trigger] s[j])
}

/// Any two words are ordered one way or the other.
pub proof fn lemma_lex_total(a: Seq<char>, b: Seq<char>)
    ensures
        lex_le(a, b) || lex_le(b, a),
    decreases a.len(),
{
    if a.len() > 0 && b.len() > 0 && a[0] == b[0] {
        lemma_lex_total(a.drop_first(), b.drop_first());
    }
}

/// Words ordered both ways are equal.
pub proof fn lemma_lex_antisymmetric(a: Seq<char>, b: Seq<char>)
    requires
        lex_le(a, b),
        lex_le(b, a),
    ensures
        a == b,
    decreases a.len(),
{
    if a.len() == 0 {
        assert(b.len() == 0);
        assert(a =~= b);
    } else {
        lemma_lex_antisymmetric(a.drop_first(), b.drop_first());
        assert(a.len() == a.drop_first().len() + 1);
        assert(b.len() == b.drop_first().len() + 1);
        assert(a =~= b) by {
            assert forall|n: int| 0 <= n < a.len() implies a[n] == b[n] by {
                if n > 0 {
                    assert(a[n] == a.drop_first()[n - 1]);
                    assert(b[n] == b.drop_first()[n - 1]);
                }
            }
        }
    }
}

/// The order is transitive.
pub proof fn lemma_lex_transitive(a: Seq<char>, b: Seq<char>, c: Seq<char>)
    requires
        lex_le(a, b),
        lex_le(b, c),
    ensures
        lex_le(a, c),
    decreases a.len(),
{
    if a.len() > 0 && b.len() > 0 && c.len() > 0 && a[0] == b[0] && b[0] == c[0] {
        lemma_lex_transitive(a.drop_first(), b.drop_first(), c.drop_first());
    }
}

/// Every word is ordered before itself.
pub proof fn lemma_lex_reflexive(a: Seq<char>)
    ensures
        lex_le(a, a),
    decreases a.len(),
{
    if a.len() > 0 {
        lemma_lex_reflexive(a.drop_first());
    }
}

/// Whether `a` comes no later than `b` in lexicographic order.
pub fn chars_le(a: &Vec<char>, b: &Vec<char>) -> (r: bool)
    ensures
        r == lex_le(a@, b@),
{
    let mut i: usize = 0;
    assert(a@.skip(0) =~= a@);
    assert(b@.skip(0) =~= b@);
    while i < a.len() && i < b.len()
        invariant
            i <= a@.len(),
            i <= b@.len(),
            lex_le(a@, b@) == lex_le(a@.skip(i as int), b@.skip(i as int)),
        decreases a@.len() - i,
    {
        let x = a[i];
        let y = b[i];
        assert(a@.skip(i as int)[0] == x);
        assert(b@.skip(i as int)[0] == y);
        if x != y {
            return x < y;
        }
        assert(a@.skip(i as int).drop_first() =~= a@.skip(i + 1));
        assert(b@.skip(i as int).drop_first() =~= b@.skip(i + 1));
        i = i + 1;
    }
    i == a.len()
}

/// The words of `words`, sorted in lexicographic order.
pub fn sort_words(words: Vec<Vec<char>>) -> (r: Vec<Vec<char>>)
    ensures
        char_views(r@).to_multiset() == char_views(words@).to_multiset(),
        sorted(char_views(r@)),
{
    let ghost wv = char_views(words@);
    let mut out: Vec<Vec<char>> = Vec::new();
    let mut rest = words;
    let ghost taken: int = 0;
    while rest.len() > 0
        invariant
            taken + rest@.len() == wv.len(),
            0 <= taken <= wv.len(),
            forall|k: int| 0 <= k < rest@.len() ==> #[trigger] rest@[k]@ == wv[taken + k],
            char_views(out@).to_multiset() == wv.take(taken).to_multiset(),
            sorted(char_views(out@)),
        decreases rest@.len(),
    {
        let ghost prev_rest = rest@;
        let x = rest.remove(0);
        let ghost ov = char_views(out@);
        // find the first position whose word is greater than x
        let mut pos: usize = 0;
        while pos < out.len() && chars_le(&out[pos], &x)
            invariant
                pos <= out@.len(),
                ov == char_views(out@),
                forall|k: int| 0 <= k < pos ==> lex_le(#[trigger] ov[k], x@),
            decreases out@.len() - pos,
        {
            pos = pos + 1;
        }
        proof {
            if pos < out@.len() {
                assert(!lex_le(ov[pos as int], x@));
                lemma_lex_total(ov[pos as int], x@);
            }
        }
        out.insert(pos, x);
        proof {
            let nv = char_views(out@);
            assert(nv =~= ov.insert(pos as int, x@));
            assert(x@ == wv[taken]);
            assert(wv.take(taken + 1) =~= wv.take(taken).push(wv[taken]));
            assert forall|i: int, j: int| 0 <= i <= j < nv.len() implies lex_le(
                #[trigger] nv[i],
                #[trigger] nv[j],
            ) by {
                if i == j {
                    lemma_lex_reflexive(nv[i]);
                } else if j < pos {
                    assert(nv[i] == ov[i] && nv[j] == ov[j]);
                } else if i > pos {
                    assert(nv[i] == ov[i - 1] && nv[j] == ov[j - 1]);
                } else if i == pos {
                    // x <= ov[pos] <= ov[j - 1]
                    assert(lex_le(x@, ov[pos as int]));
                    assert(lex_le(ov[pos as int], ov[j - 1]));
                    lemma_lex_transitive(x@, ov[pos as int], ov[j - 1]);
                } else if j == pos {
                    assert(lex_le(ov[i], x@));
                } else {
                    assert(nv[i] == ov[i] && nv[j] == ov[j - 1]);
                }
            }
            taken = taken + 1;
            assert forall|k: int| 0 <= k < rest@.len() implies #[trigger] rest@[k]@ == wv[taken + k] by {
                assert(rest@[k] == prev_rest[k + 1]);
            }
        }
    }
    assert(wv.take(taken) =~= wv);
    out
}

} // verus!
