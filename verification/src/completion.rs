use vstd::prelude::*;

use crate::complete_db::CompleteDb;
use crate::env::{builtin_names, builtins};
use crate::order::{lemma_lex_antisymmetric, lex_le, sort_words, sorted};
use crate::paths::{file_name, join_path, parent_of, path_file_name, path_joined, path_parent};
use crate::text::{char_views, chars_of, push_char, split_chars, split_spec, string_of, views};
use crate::tokenizer::{opt_view, tokenize, tokenize_spec};
use crate::trie::{words_with_prefix, TrieNode};

verus! {

/// `p` begins every word of `ws`.
pub open spec fn is_common_prefix(p: Seq<char>, ws: Seq<Seq<char>>) -> bool {
    forall|i: int| 0 <= i < ws.len() ==> p.is_prefix_of(#[trigger] ws[i])
}

/// `p` begins every word of `ws`, and no longer word does.
pub open spec fn is_longest_common_prefix(p: Seq<char>, ws: Seq<Seq<char>>) -> bool {
    &&& is_common_prefix(p, ws)
    &&& forall|q: Seq<char>| #[trigger] is_common_prefix(q, ws) ==> q.len() <= p.len()
}

/// The longest common prefix of a non-empty list of words is unique.
pub proof fn law_longest_common_prefix_unique(p: Seq<char>, q: Seq<char>, ws: Seq<Seq<char>>)
    requires
        ws.len() > 0,
        is_longest_common_prefix(p, ws),
        is_longest_common_prefix(q, ws),
    ensures
        p == q,
{
    assert(p.len() == q.len());
    assert(p.is_prefix_of(ws[0]));
    assert(q.is_prefix_of(ws[0]));
    assert forall|x: int| 0 <= x < p.len() implies p[x] == q[x] by {
        assert(p[x] == ws[0].subrange(0, p.len() as int)[x]);
        assert(q[x] == ws[0].subrange(0, q.len() as int)[x]);
    }
    assert(p =~= q);
}

/// The characters of each string.
fn chars_of_all(results: &[String]) -> (r: Vec<Vec<char>>)
    ensures
        char_views(r@) == views(results@),
{
    let mut r: Vec<Vec<char>> = Vec::new();
    let n = results.len();
    for i in 0..n
        invariant
            n == results@.len(),
            char_views(r@) == views(results@).take(i as int),
    {
        let ghost before = r@;
        assert(char_views(before).len() == before.len());
        assert(before.len() == i);
        r.push(chars_of(results[i].as_str()));
        assert(r@.len() == i + 1);
        assert forall|k: int| 0 <= k < i + 1 implies #[trigger] char_views(r@)[k] == views(results@).take(i + 1)[k] by {
            if k < i {
                assert(r@[k] == before[k]);
                assert(char_views(before)[k] == views(results@).take(i as int)[k]);
            }
        }
        assert(char_views(r@) =~= views(results@).take(i + 1));
    }
    assert(views(results@).take(n as int) =~= views(results@));
    r
}

/// The longest common prefix of the strings.
pub fn lcp(results: &[String]) -> (r: String)
    requires
        results@.len() > 0,
    ensures
        is_longest_common_prefix(r@, views(results@)),
{
    let words = chars_of_all(results);
    assert(char_views(words@).len() == words@.len());
    string_of(&lcp_chars(&words))
}

/// The longest common prefix of the words.
fn lcp_chars(words: &Vec<Vec<char>>) -> (r: Vec<char>)
    requires
        words@.len() > 0,
    ensures
        is_longest_common_prefix(r@, char_views(words@)),
{
    let ghost ws = char_views(words@);
    let n = words.len();
    let first = &words[0];
    assert(char_views(words@).len() == words@.len());
    assert(char_views(words@)[0] == words@[0]@);
    assert(first@ == ws[0]);
    let mut out: Vec<char> = Vec::new();
    let mut i: usize = 0;
    let mut stopped = false;
    while i < first.len() && !stopped
        invariant
            n == ws.len(),
            n > 0,
            char_views(words@) == ws,
            first@ == ws[0],
            i <= first@.len(),
            out@ == first@.take(i as int),
            is_common_prefix(out@, ws),
            stopped ==> exists|j: int|
                0 <= j < n && (ws[j].len() <= i || ws[j][i as int] != first@[i as int]),
            stopped ==> i < first@.len(),
        decreases first@.len() - i, if stopped { 0int } else { 1int },
    {
        let ch = first[i];
        let mut all = true;
        let mut j: usize = 1;
        while j < n && all
            invariant
                n == ws.len(),
                1 <= j <= n,
                char_views(words@) == ws,
                first@ == ws[0],
                i < first@.len(),
                ch == first@[i as int],
                all ==> forall|m: int| 0 <= m < j ==> #[trigger] ws[m].len() > i,
                all ==> forall|m: int| 0 <= m < j ==> #[trigger] ws[m][i as int] == ch,
                !all ==> exists|m: int| 0 <= m < n && (ws[m].len() <= i || ws[m][i as int] != ch),
            decreases n - j, if all { 1int } else { 0int },
        {
            let w = &words[j];
            assert(char_views(words@).len() == words@.len());
            assert(char_views(words@)[j as int] == words@[j as int]@);
            assert(w@ == ws[j as int]);
            if w.len() <= i || w[i] != ch {
                all = false;
            } else {
                assert(ws[j as int][i as int] == ch);
                assert(ws[j as int].len() > i);
                j = j + 1;
            }
        }
        if all {
            out.push(ch);
            assert(out@ =~= first@.take(i + 1));
            assert forall|m: int| 0 <= m < ws.len() implies out@.is_prefix_of(#[trigger] ws[m]) by {
                assert(ws[m].len() > i && ws[m][i as int] == ch);
                assert(out@.drop_last().is_prefix_of(ws[m]));
                assert(out@ =~= ws[m].subrange(0, out@.len() as int)) by {
                    assert forall|x: int| 0 <= x < out@.len() implies out@[x] == ws[m][x] by {
                        if x < i {
                            assert(out@[x] == out@.drop_last()[x]);
                            assert(out@.drop_last()[x] == ws[m].subrange(0, i as int)[x]);
                        }
                    }
                }
            }
            i = i + 1;
        } else {
            stopped = true;
        }
    }
    proof {
        assert forall|q: Seq<char>| #[trigger] is_common_prefix(q, ws) implies q.len() <= out@.len() by {
            if q.len() > i {
                assert(q.is_prefix_of(ws[0]));
                assert(q[i as int] == ws[0].subrange(0, q.len() as int)[i as int]);
                if stopped {
                    let j = choose|j: int|
                        0 <= j < n && (ws[j].len() <= i || ws[j][i as int] != first@[i as int]);
                    assert(q.is_prefix_of(ws[j]));
                    assert(q[i as int] == ws[j].subrange(0, q.len() as int)[i as int]);
                }
            }
        }
    }
    out
}

broadcast use vstd::seq_lib::group_to_multiset_ensures;

/// What pressing tab does to the line being edited.
pub enum CompCandidate {
    /// Nothing matches: ring the bell.
    Nothing,
    /// Append `suffix` to the line, and a space after it when the word is
    /// complete.
    ExpandBuffer { suffix: String, append_space: bool },
    /// Several words match and share nothing more than what is typed: list
    /// them, sorted.
    ListCandidates { candidates: Vec<String> },
}

/// Whether the word names a directory, by its trailing `/`.
pub open spec fn ends_with_slash(w: Seq<char>) -> bool {
    w.len() > 0 && w.last() == '/'
}

/// Whether `c` is what tab does when the typed word is `prefix` and the
/// words that match it are `ws`, in any order: nothing for no word; the rest
/// of the one word, with a space unless it names a directory; the longest
/// common prefix's rest where it is longer than what is typed; else the
/// sorted list of the words.
pub open spec fn decided(c: CompCandidate, ws: Seq<Seq<char>>, prefix: Seq<char>) -> bool {
    if ws.len() == 0 {
        c is Nothing
    } else if ws.len() == 1 {
        c matches CompCandidate::ExpandBuffer { suffix, append_space } && prefix + suffix@
            == ws[0] && append_space == !ends_with_slash(ws[0])
    } else {
        exists|l: Seq<char>|
            #[trigger] is_longest_common_prefix(l, ws) && if l.len() > prefix.len() {
                c matches CompCandidate::ExpandBuffer { suffix, append_space } && prefix
                    + suffix@ == l && !append_space
            } else {
                c matches CompCandidate::ListCandidates { candidates } && views(
                    candidates@,
                ).to_multiset() == ws.to_multiset() && sorted(views(candidates@))
            }
    }
}

/// Lists with the same elements, counted, have the same common prefixes.
proof fn lemma_common_prefix_permutation(a: Seq<Seq<char>>, b: Seq<Seq<char>>, p: Seq<char>)
    requires
        a.to_multiset() == b.to_multiset(),
    ensures
        a.len() == b.len(),
        is_common_prefix(p, a) == is_common_prefix(p, b),
{
    assert(a.to_multiset().len() == a.len());
    assert(b.to_multiset().len() == b.len());
    if is_common_prefix(p, a) {
        assert forall|i: int| 0 <= i < b.len() implies p.is_prefix_of(#[trigger] b[i]) by {
            assert(b.to_multiset().contains(b[i]));
            assert(a.contains(b[i]));
        }
    }
    if is_common_prefix(p, b) {
        assert forall|i: int| 0 <= i < a.len() implies p.is_prefix_of(#[trigger] a[i]) by {
            assert(a.to_multiset().contains(a[i]));
            assert(b.contains(a[i]));
        }
    }
}

/// Two outcomes of tab show the same thing: the same variant with the same
/// text.
pub open spec fn same_outcome(c1: CompCandidate, c2: CompCandidate) -> bool {
    match (c1, c2) {
        (CompCandidate::Nothing, CompCandidate::Nothing) => true,
        (
            CompCandidate::ExpandBuffer { suffix: s1, append_space: a1 },
            CompCandidate::ExpandBuffer { suffix: s2, append_space: a2 },
        ) => s1@ == s2@ && a1 == a2,
        (
            CompCandidate::ListCandidates { candidates: l1 },
            CompCandidate::ListCandidates { candidates: l2 },
        ) => views(l1@) == views(l2@),
        _ => false,
    }
}

/// Two sorted lists with the same elements, counted, are the same list.
proof fn lemma_sorted_unique(a: Seq<Seq<char>>, b: Seq<Seq<char>>)
    requires
        sorted(a),
        sorted(b),
        a.to_multiset() == b.to_multiset(),
    ensures
        a == b,
    decreases a.len(),
{
    assert(a.to_multiset().len() == a.len());
    assert(b.to_multiset().len() == b.len());
    if a.len() > 0 {
        assert(a.to_multiset().contains(a[0]));
        assert(b.contains(a[0]));
        let j = choose|j: int| 0 <= j < b.len() && b[j] == a[0];
        assert(b.to_multiset().contains(b[0]));
        assert(a.contains(b[0]));
        let i = choose|i: int| 0 <= i < a.len() && a[i] == b[0];
        assert(lex_le(a[0], a[i]));
        assert(lex_le(b[0], b[j]));
        lemma_lex_antisymmetric(a[0], b[0]);
        vstd::seq_lib::to_multiset_remove(a, 0);
        vstd::seq_lib::to_multiset_remove(b, 0);
        assert(a.remove(0) =~= a.drop_first());
        assert(b.remove(0) =~= b.drop_first());
        assert(sorted(a.drop_first())) by {
            assert forall|x: int, y: int| 0 <= x <= y < a.drop_first().len() implies lex_le(
                #[trigger] a.drop_first()[x],
                #[trigger] a.drop_first()[y],
            ) by {
                assert(a.drop_first()[x] == a[x + 1] && a.drop_first()[y] == a[y + 1]);
            }
        }
        assert(sorted(b.drop_first())) by {
            assert forall|x: int, y: int| 0 <= x <= y < b.drop_first().len() implies lex_le(
                #[trigger] b.drop_first()[x],
                #[trigger] b.drop_first()[y],
            ) by {
                assert(b.drop_first()[x] == b[x + 1] && b.drop_first()[y] == b[y + 1]);
            }
        }
        lemma_sorted_unique(a.drop_first(), b.drop_first());
        assert forall|x: int| 0 <= x < a.len() implies a[x] == b[x] by {
            if x > 0 {
                assert(a[x] == a.drop_first()[x - 1]);
                assert(b[x] == b.drop_first()[x - 1]);
            }
        }
        assert(a =~= b);
    } else {
        assert(a =~= b);
    }
}

/// Tab is a function of the words that match, not of the order in which
/// they were gathered: the same words, counted, give the same outcome.
pub proof fn law_outcome_independent_of_order(
    c1: CompCandidate,
    c2: CompCandidate,
    ws1: Seq<Seq<char>>,
    ws2: Seq<Seq<char>>,
    prefix: Seq<char>,
)
    requires
        ws1.to_multiset() == ws2.to_multiset(),
        decided(c1, ws1, prefix),
        decided(c2, ws2, prefix),
    ensures
        same_outcome(c1, c2),
{
    lemma_common_prefix_permutation(ws1, ws2, prefix);
    if ws1.len() == 1 {
        assert(ws1.to_multiset().contains(ws1[0]));
        assert(ws2.contains(ws1[0]));
        if let CompCandidate::ExpandBuffer { suffix: s1, .. } = c1 {
            if let CompCandidate::ExpandBuffer { suffix: s2, .. } = c2 {
                assert(s1@ =~= (prefix + s1@).skip(prefix.len() as int));
                assert(s2@ =~= (prefix + s2@).skip(prefix.len() as int));
            }
        }
    } else if ws1.len() > 1 {
        let l1 = choose|l: Seq<char>| #[trigger] is_longest_common_prefix(l, ws1) && if l.len() > prefix.len() {
            c1 matches CompCandidate::ExpandBuffer { suffix, append_space } && prefix + suffix@ == l
                && !append_space
        } else {
            c1 matches CompCandidate::ListCandidates { candidates } && views(candidates@).to_multiset()
                == ws1.to_multiset() && sorted(views(candidates@))
        };
        let l2 = choose|l: Seq<char>| #[trigger] is_longest_common_prefix(l, ws2) && if l.len() > prefix.len() {
            c2 matches CompCandidate::ExpandBuffer { suffix, append_space } && prefix + suffix@ == l
                && !append_space
        } else {
            c2 matches CompCandidate::ListCandidates { candidates } && views(candidates@).to_multiset()
                == ws2.to_multiset() && sorted(views(candidates@))
        };
        lemma_common_prefix_permutation(ws1, ws2, l1);
        lemma_common_prefix_permutation(ws1, ws2, l2);
        assert(is_longest_common_prefix(l1, ws2)) by {
            assert forall|q: Seq<char>| #[trigger] is_common_prefix(q, ws2) implies q.len() <= l1.len() by {
                lemma_common_prefix_permutation(ws1, ws2, q);
            }
        }
        law_longest_common_prefix_unique(l1, l2, ws2);
        if let CompCandidate::ExpandBuffer { suffix: s1, .. } = c1 {
            if let CompCandidate::ExpandBuffer { suffix: s2, .. } = c2 {
                assert(s1@ =~= (prefix + s1@).skip(prefix.len() as int));
                assert(s2@ =~= (prefix + s2@).skip(prefix.len() as int));
            }
        }
        if let CompCandidate::ListCandidates { candidates: a } = c1 {
            if let CompCandidate::ListCandidates { candidates: b } = c2 {
                lemma_sorted_unique(views(a@), views(b@));
            }
        }
    }
}

/// The characters of `w` from position `k` on.
fn skip_chars(w: &Vec<char>, k: usize) -> (r: Vec<char>)
    requires
        k <= w@.len(),
    ensures
        r@ == w@.skip(k as int),
{
    let mut r: Vec<char> = Vec::new();
    let mut i = k;
    while i < w.len()
        invariant
            k <= i <= w@.len(),
            r@ == w@.subrange(k as int, i as int),
        decreases w@.len() - i,
    {
        r.push(w[i]);
        assert(r@ =~= w@.subrange(k as int, i + 1));
        i = i + 1;
    }
    assert(r@ =~= w@.skip(k as int));
    r
}

/// The strings made of each word's characters.
fn strings_of(words: &Vec<Vec<char>>) -> (r: Vec<String>)
    ensures
        views(r@) == char_views(words@),
{
    let mut r: Vec<String> = Vec::new();
    let n = words.len();
    for i in 0..n
        invariant
            n == words@.len(),
            views(r@) == char_views(words@).take(i as int),
    {
        let ghost before = r@;
        assert(views(before).len() == before.len());
        r.push(string_of(&words[i]));
        assert(r@.len() == i + 1);
        assert(char_views(words@).len() == words@.len());
        assert forall|k: int| 0 <= k < i + 1 implies #[trigger] views(r@)[k] == char_views(
            words@,
        ).take(i + 1)[k] by {
            if k < i {
                assert(r@[k] == before[k]);
                assert(views(before)[k] == char_views(words@).take(i as int)[k]);
            }
        }
        assert(views(r@) =~= char_views(words@).take(i + 1));
    }
    assert(char_views(words@).take(n as int) =~= char_views(words@));
    r
}

/// What tab does when `prefix` is the word typed so far and `results` are
/// the words that match it.
pub fn decide(results: Vec<String>, prefix: &str) -> (r: CompCandidate)
    requires
        forall|i: int| 0 <= i < results@.len() ==> prefix@.is_prefix_of(#[trigger] results@[i]@),
    ensures
        decided(r, views(results@), prefix@),
{
    let ghost ws = views(results@);
    let words = sort_words(chars_of_all(results.as_slice()));
    let ghost sv = char_views(words@);
    let p = chars_of(prefix);
    proof {
        assert forall|i: int| 0 <= i < ws.len() implies prefix@.is_prefix_of(#[trigger] ws[i]) by {
            assert(ws[i] == results@[i]@);
        }
        lemma_common_prefix_permutation(ws, sv, prefix@);
        assert(sv.len() == words@.len());
    }
    let n = words.len();
    if n == 0 {
        return CompCandidate::Nothing;
    }
    if n == 1 {
        let w = &words[0];
        assert(w@ == sv[0]);
        assert(ws[0] == sv[0]) by {
            assert(ws.to_multiset().contains(ws[0]));
            assert(sv.contains(ws[0]));
        }
        assert(prefix@.is_prefix_of(sv[0]));
        let suffix = string_of(&skip_chars(w, p.len()));
        assert(prefix@ + suffix@ =~= ws[0]);
        let append_space = !(w.len() > 0 && w[w.len() - 1] == '/');
        return CompCandidate::ExpandBuffer { suffix, append_space };
    }
    let l = lcp_chars(&words);
    proof {
        lemma_common_prefix_permutation(ws, sv, l@);
        assert(is_longest_common_prefix(l@, ws)) by {
            assert forall|q: Seq<char>| #[trigger] is_common_prefix(q, ws) implies q.len() <= l@.len() by {
                lemma_common_prefix_permutation(ws, sv, q);
            }
        }
        assert(prefix@.len() <= l@.len());
        assert(prefix@.is_prefix_of(sv[0]));
        assert(l@.is_prefix_of(sv[0]));
        assert(prefix@ =~= l@.take(prefix@.len() as int)) by {
            assert forall|x: int| 0 <= x < prefix@.len() implies prefix@[x] == l@[x] by {
                assert(prefix@[x] == sv[0].subrange(0, prefix@.len() as int)[x]);
                assert(l@[x] == sv[0].subrange(0, l@.len() as int)[x]);
            }
        }
    }
    if l.len() > p.len() {
        let suffix = string_of(&skip_chars(&l, p.len()));
        assert(prefix@ + suffix@ =~= l@);
        CompCandidate::ExpandBuffer { suffix, append_space: false }
    } else {
        let candidates = strings_of(&words);
        CompCandidate::ListCandidates { candidates }
    }
}

/// Whether `c` has the Unicode `White_Space` property (the characters
/// that `char::is_whitespace` accepts).
pub open spec fn is_white_space(c: char) -> bool {
    ||| '\u{9}' <= c <= '\u{d}'
    ||| c == ' '
    ||| c == '\u{85}'
    ||| c == '\u{a0}'
    ||| c == '\u{1680}'
    ||| '\u{2000}' <= c <= '\u{200a}'
    ||| c == '\u{2028}'
    ||| c == '\u{2029}'
    ||| c == '\u{202f}'
    ||| c == '\u{205f}'
    ||| c == '\u{3000}'
}

/// Whether `c` is white space.
pub fn white_space(c: char) -> (r: bool)
    ensures
        r == is_white_space(c),
{
    ('\u{9}' <= c && c <= '\u{d}') || c == ' ' || c == '\u{85}' || c == '\u{a0}' || c
        == '\u{1680}' || ('\u{2000}' <= c && c <= '\u{200a}') || c == '\u{2028}' || c
        == '\u{2029}' || c == '\u{202f}' || c == '\u{205f}' || c == '\u{3000}'
}

/// `s` without its leading and trailing white space.
pub open spec fn trimmed(s: Seq<char>) -> Seq<char>
    decreases s.len(),
{
    if s.len() > 0 && is_white_space(s[0]) {
        trimmed(s.drop_first())
    } else if s.len() > 0 && is_white_space(s.last()) {
        trimmed(s.drop_last())
    } else {
        s
    }
}

/// The characters of `s` without its leading and trailing white space.
fn trim_chars(s: &Vec<char>) -> (r: Vec<char>)
    ensures
        r@ == trimmed(s@),
{
    let mut a: usize = 0;
    let mut b: usize = s.len();
    assert(s@.subrange(0, b as int) =~= s@);
    while a < b && white_space(s[a])
        invariant
            a <= b == s@.len(),
            trimmed(s@) == trimmed(s@.subrange(a as int, b as int)),
        decreases b - a,
    {
        let ghost sub = s@.subrange(a as int, b as int);
        assert(sub[0] == s@[a as int]);
        assert(sub.drop_first() =~= s@.subrange(a + 1, b as int));
        a = a + 1;
    }
    while b > a && white_space(s[b - 1])
        invariant
            a <= b <= s@.len(),
            a < b ==> !is_white_space(s@[a as int]),
            trimmed(s@) == trimmed(s@.subrange(a as int, b as int)),
        decreases b - a,
    {
        let ghost sub = s@.subrange(a as int, b as int);
        assert(sub[0] == s@[a as int]);
        assert(sub.last() == s@[b - 1]);
        assert(sub.drop_last() =~= s@.subrange(a as int, b - 1));
        b = b - 1;
    }
    let mut r: Vec<char> = Vec::new();
    let mut i = a;
    while i < b
        invariant
            a <= i <= b <= s@.len(),
            r@ == s@.subrange(a as int, i as int),
        decreases b - i,
    {
        r.push(s[i]);
        assert(r@ =~= s@.subrange(a as int, i + 1));
        i = i + 1;
    }
    proof {
        let sub = s@.subrange(a as int, b as int);
        if a < b {
            assert(sub[0] == s@[a as int]);
            assert(sub.last() == s@[b - 1]);
        }
    }
    r
}

/// The line without its leading and trailing white space.
pub fn trim_line(line: &str) -> (r: String)
    ensures
        r@ == trimmed(line@),
{
    string_of(&trim_chars(&chars_of(line)))
}

/// The lines a completer script printed: its output without leading and
/// trailing white space, split at each newline.
pub fn parse_script_output(stdout: &str) -> (r: Vec<String>)
    ensures
        views(r@) == split_spec(trimmed(stdout@), '\n'),
{
    let cs = chars_of(stdout);
    split_chars(&trim_chars(&cs), '\n')
}

/// Whether `p` begins `w`.
pub fn chars_starts_with(w: &Vec<char>, p: &Vec<char>) -> (r: bool)
    ensures
        r == p@.is_prefix_of(w@),
{
    if p.len() > w.len() {
        return false;
    }
    let n = p.len();
    for i in 0..n
        invariant
            n == p@.len(),
            n <= w@.len(),
            forall|j: int| 0 <= j < i ==> p@[j] == w@[j],
    {
        if p[i] != w[i] {
            return false;
        }
    }
    assert(p@ =~= w@.subrange(0, n as int));
    true
}

/// The words that begin with `p`, in their order.
pub open spec fn keep_prefixed(ws: Seq<Seq<char>>, p: Seq<char>) -> Seq<Seq<char>> {
    ws.filter(|w: Seq<char>| p.is_prefix_of(w))
}

/// What tab does when `prefix` is the word typed so far and `listing` holds
/// the names to choose from: the names that begin with `prefix` are decided
/// on.
pub fn complete_from_listing(listing: Vec<String>, prefix: &str) -> (r: CompCandidate)
    ensures
        decided(r, keep_prefixed(views(listing@), prefix@), prefix@),
{
    let p = chars_of(prefix);
    let mut kept: Vec<String> = Vec::new();
    let n = listing.len();
    let ghost lv = views(listing@);
    for i in 0..n
        invariant
            n == listing@.len(),
            lv == views(listing@),
            p@ == prefix@,
            views(kept@) == keep_prefixed(lv.take(i as int), prefix@),
            forall|k: int| 0 <= k < kept@.len() ==> prefix@.is_prefix_of(#[trigger] kept@[k]@),
    {
        reveal(Seq::filter);
        let ghost t = lv.take(i + 1);
        assert(t.drop_last() =~= lv.take(i as int));
        assert(t.last() == listing@[i as int]@);
        let ghost before = kept@;
        let w = chars_of(listing[i].as_str());
        if chars_starts_with(&w, &p) {
            kept.push(listing[i].clone());
            assert(views(kept@) =~= views(before).push(listing@[i as int]@));
            assert forall|k: int| 0 <= k < kept@.len() implies prefix@.is_prefix_of(
                #[trigger] kept@[k]@,
            ) by {
                if k < before.len() {
                    assert(kept@[k] == before[k]);
                }
            }
        }
    }
    assert(lv.take(n as int) =~= lv);
    decide(kept, prefix)
}

/// The arguments a completer script gets: the command, the word being
/// completed and the word before it, where the line holds two or three
/// words; a lone empty argument otherwise.
pub open spec fn completer_argv_spec(args: Seq<Seq<char>>) -> Seq<Seq<char>> {
    if args.len() == 2 {
        seq![args[0], args[1], args[0]]
    } else if args.len() == 3 {
        seq![args[0], args[2], args[1]]
    } else {
        seq![Seq::<char>::empty()]
    }
}

/// The arguments a completer script gets for the words of the line.
pub fn completer_argv(args: &Vec<String>) -> (r: Vec<String>)
    ensures
        views(r@) == completer_argv_spec(views(args@)),
{
    let r = if args.len() == 2 {
        vec![args[0].clone(), args[1].clone(), args[0].clone()]
    } else if args.len() == 3 {
        vec![args[0].clone(), args[2].clone(), args[1].clone()]
    } else {
        vec![String::new()]
    };
    assert(views(r@) =~= completer_argv_spec(views(args@)));
    r
}

/// The names a directory listing offers: a file by its name, a directory by
/// its name and a `/`.
pub open spec fn listing_names(entries: Seq<(Seq<char>, bool, bool)>) -> Seq<Seq<char>>
    decreases entries.len(),
{
    if entries.len() == 0 {
        Seq::empty()
    } else {
        let (name, is_file, is_dir) = entries.last();
        let before = listing_names(entries.drop_last());
        let with_file = if is_file {
            before.push(name)
        } else {
            before
        };
        if is_dir {
            with_file.push(name.push('/'))
        } else {
            with_file
        }
    }
}

/// Whether `x` is offered for the entry `e`: its name when it is a file, its
/// name and a `/` when it is a directory.
pub open spec fn offers(e: (Seq<char>, bool, bool), x: Seq<char>) -> bool {
    (e.1 && x == e.0) || (e.2 && x == e.0.push('/'))
}

/// A listing offers every file entry by its name and every directory entry
/// by its name and a `/`, whatever the name (a leading `.` included), and
/// offers nothing else.
pub proof fn law_listing_offers_every_entry(entries: Seq<(Seq<char>, bool, bool)>)
    ensures
        forall|i: int|
            0 <= i < entries.len() && (#[trigger] entries[i]).1 ==> listing_names(
                entries,
            ).contains(entries[i].0),
        forall|i: int|
            0 <= i < entries.len() && (#[trigger] entries[i]).2 ==> listing_names(
                entries,
            ).contains(entries[i].0.push('/')),
        forall|k: int|
            0 <= k < listing_names(entries).len() ==> exists|i: int|
                0 <= i < entries.len() && offers(entries[i], #[trigger] listing_names(entries)[k]),
    decreases entries.len(),
{
    if entries.len() > 0 {
        let prev = entries.drop_last();
        law_listing_offers_every_entry(prev);
        let before = listing_names(prev);
        let (name, is_file, is_dir) = entries.last();
        let with_file = if is_file {
            before.push(name)
        } else {
            before
        };
        let all = listing_names(entries);
        assert(all == if is_dir {
            with_file.push(name.push('/'))
        } else {
            with_file
        });
        assert forall|k: int| 0 <= k < before.len() implies #[trigger] all[k] == before[k] by {
            assert(with_file[k] == before[k]);
        }
        assert forall|i: int|
            0 <= i < entries.len() && (#[trigger] entries[i]).1 implies all.contains(
                entries[i].0,
            ) by {
            if i < prev.len() {
                assert(prev[i] == entries[i]);
                assert(before.contains(prev[i].0));
                let k = choose|k: int| 0 <= k < before.len() && before[k] == prev[i].0;
                assert(all[k] == before[k]);
            } else {
                assert(with_file[before.len() as int] == name);
                assert(all[before.len() as int] == name);
            }
        }
        assert forall|i: int|
            0 <= i < entries.len() && (#[trigger] entries[i]).2 implies all.contains(
                entries[i].0.push('/'),
            ) by {
            if i < prev.len() {
                assert(prev[i] == entries[i]);
                assert(before.contains(prev[i].0.push('/')));
                let k = choose|k: int| 0 <= k < before.len() && before[k] == prev[i].0.push('/');
                assert(all[k] == before[k]);
            } else {
                assert(all[with_file.len() as int] == name.push('/'));
            }
        }
        assert forall|k: int| 0 <= k < all.len() implies exists|i: int|
            0 <= i < entries.len() && offers(entries[i], #[trigger] all[k]) by {
            if k < before.len() {
                assert(all[k] == before[k]);
                let i = choose|i: int| 0 <= i < prev.len() && offers(prev[i], before[k]);
                assert(prev[i] == entries[i]);
            } else {
                let i = entries.len() - 1;
                assert(entries[i] == (name, is_file, is_dir));
                assert(offers(entries[i], all[k]));
            }
        }
    }
}

/// A directory entry by its name's characters and its kind.
pub open spec fn entry_views(entries: Seq<(String, bool, bool)>) -> Seq<(Seq<char>, bool, bool)> {
    entries.map_values(|e: (String, bool, bool)| (e.0@, e.1, e.2))
}

/// The names a directory listing offers for the entries (name, is a file,
/// is a directory).
pub fn listing_of(entries: Vec<(String, bool, bool)>) -> (r: Vec<String>)
    ensures
        views(r@) == listing_names(entry_views(entries@)),
{
    let ghost ev = entry_views(entries@);
    let mut r: Vec<String> = Vec::new();
    let mut rest = entries;
    let mut i: usize = 0;
    let n = rest.len();
    while rest.len() > 0
        invariant
            n == ev.len(),
            i + rest@.len() == n,
            forall|k: int| 0 <= k < rest@.len() ==> (#[trigger] entry_views(rest@)[k]) == ev[i + k],
            views(r@) == listing_names(ev.take(i as int)),
        decreases rest@.len(),
    {
        let ghost prev = rest@;
        assert(entry_views(prev)[0] == ev[i as int]);
        let (name, is_file, is_dir) = rest.remove(0);
        let ghost t = ev.take(i + 1);
        assert(t.drop_last() =~= ev.take(i as int));
        assert(t.last() == (name@, is_file, is_dir));
        let ghost before = views(r@);
        if is_file && is_dir {
            let mut slashed = name.clone();
            push_char(&mut slashed, '/');
            r.push(name);
            r.push(slashed);
        } else if is_file {
            r.push(name);
        } else if is_dir {
            let mut slashed = name;
            push_char(&mut slashed, '/');
            r.push(slashed);
        }
        assert(views(r@) =~= listing_names(t));
        proof {
            assert forall|k: int| 0 <= k < rest@.len() implies (#[trigger] entry_views(rest@)[k])
                == ev[i + 1 + k] by {
                assert(rest@[k] == prev[k + 1]);
                assert(entry_views(prev)[k + 1] == ev[i + k + 1]);
            }
        }
        i = i + 1;
    }
    assert(ev.take(n as int) =~= ev);
    r
}

/// Where the names to complete from come from, when the trie does not hold
/// them.
pub enum ListingSource {
    /// The output of a completer script, run with `argv` and with
    /// `COMP_LINE` and `COMP_POINT` set to `comp_line` and `comp_point`.
    Script { script: String, argv: Vec<String>, comp_line: String, comp_point: usize },
    /// The entries of the directory `dir`.
    Directory { dir: String },
}

/// The outcome of pressing tab: decided at once, or waiting for a listing of
/// names from outside, which [`complete_from_listing`] then decides on with
/// `prefix`.
pub enum Completion {
    Ready(CompCandidate),
    NeedListing { source: ListingSource, prefix: String },
}

/// The completion engine: the trie of command names.
pub struct CompletionEngine {
    pub root: TrieNode,
}

/// Whether the line ends with a space.
pub open spec fn ends_with_space(s: Seq<char>) -> bool {
    s.len() > 0 && s.last() == ' '
}

/// The part of the last word that names a file: nothing after a space or
/// when the word names a directory, else the word's last path component.
pub open spec fn completion_prefix(buffer: Seq<char>, last: Seq<char>) -> Seq<char> {
    if ends_with_space(buffer) || ends_with_slash(last) {
        Seq::empty()
    } else {
        match path_file_name(last) {
            Some(f) => f,
            None => Seq::empty(),
        }
    }
}

/// The directory whose entries complete the last word: the current one
/// after a space, the word itself when it names a directory, else the
/// directory that holds the word's last component.
pub open spec fn listing_dir(buffer: Seq<char>, last: Seq<char>) -> Seq<char> {
    if ends_with_space(buffer) {
        "."@
    } else if ends_with_slash(last) {
        path_joined("."@, last)
    } else {
        match path_parent(path_joined("."@, last)) {
            Some(d) => d,
            None => "."@,
        }
    }
}

impl CompletionEngine {
    /// An engine that completes the given program names and the builtins.
    pub fn new(executables: Vec<String>) -> (r: CompletionEngine)
        ensures
            r.root@ == views(executables@).to_set().union(builtin_names().to_set()),
    {
        let mut root = TrieNode::new();
        let n = executables.len();
        let mut rest = executables;
        let ghost ev = views(rest@);
        let mut i: usize = 0;
        while rest.len() > 0
            invariant
                n == ev.len(),
                i + rest@.len() == ev.len(),
                forall|k: int| 0 <= k < rest@.len() ==> #[trigger] rest@[k]@ == ev[i + k],
                root@ == ev.take(i as int).to_set(),
            decreases rest@.len(),
        {
            let ghost prev = rest@;
            let name = rest.remove(0);
            assert(name@ == ev[i as int]);
            root.insert(name);
            assert(ev.take(i + 1).to_set() =~= ev.take(i as int).to_set().insert(ev[i as int])) by {
                assert(ev.take(i + 1) =~= ev.take(i as int).push(ev[i as int]));
                ev.take(i as int).lemma_push_to_set_commute(ev[i as int]);
            }
            assert forall|k: int| 0 <= k < rest@.len() implies #[trigger] rest@[k]@ == ev[i + 1 + k] by {
                assert(rest@[k] == prev[k + 1]);
            }
            i = i + 1;
        }
        assert(ev.take(i as int) =~= ev);
        let names = builtins();
        let m = names.len();
        for j in 0..m
            invariant
                m == names@.len(),
                views(names@) == builtin_names(),
                root@ == ev.to_set().union(builtin_names().take(j as int).to_set()),
        {
            root.insert(names[j].clone());
            assert(builtin_names().take(j + 1).to_set() =~= builtin_names().take(j as int).to_set().insert(
                builtin_names()[j as int],
            )) by {
                assert(builtin_names().take(j + 1) =~= builtin_names().take(j as int).push(
                    builtin_names()[j as int],
                ));
                builtin_names().take(j as int).lemma_push_to_set_commute(builtin_names()[j as int]);
            }
            assert(root@ =~= ev.to_set().union(builtin_names().take(j + 1).to_set()));
        }
        assert(builtin_names().take(m as int) =~= builtin_names());
        CompletionEngine { root }
    }

    /// What tab does on the line `buffer`: with one word and no space after
    /// it, the command names that begin with the line are decided on at once;
    /// otherwise the last word is completed from the completer script
    /// registered for the first word, if any, else from a directory's
    /// entries, which the caller lists. `home` is what a leading `~` stands
    /// for.
    pub fn find_matches(&self, buffer: &str, home: Option<&str>, complete_db: &CompleteDb) -> (r:
        Completion)
        ensures
            ({
                let args = tokenize_spec(buffer@, opt_view(home));
                if args.len() == 0 {
                    r matches Completion::Ready(CompCandidate::Nothing)
                } else if args.len() == 1 && !ends_with_space(buffer@) {
                    r matches Completion::Ready(c) && exists|ws: Seq<Seq<char>>|
                        #[trigger] decided(c, ws, buffer@) && ws.no_duplicates() && ws.to_set()
                            == words_with_prefix(self.root@, buffer@)
                } else {
                    r matches Completion::NeedListing { source, prefix } && prefix@
                        == completion_prefix(buffer@, args.last()) && if complete_db@.contains_key(
                        args[0],
                    ) {
                        source matches ListingSource::Script { script, argv, comp_line, comp_point }
                            && script@ == complete_db@[args[0]][0] && views(argv@)
                            == completer_argv_spec(args) && comp_line@ == buffer@ && comp_point
                            == buffer.len()
                    } else {
                        source matches ListingSource::Directory { dir } && dir@ == listing_dir(
                            buffer@,
                            args.last(),
                        )
                    }
                }
            }),
    {
        let args = tokenize(buffer, home);
        let ghost av = views(args@);
        if args.len() == 0 {
            return Completion::Ready(CompCandidate::Nothing);
        }
        let line = chars_of(buffer);
        let ends_space = line.len() > 0 && line[line.len() - 1] == ' ';
        if args.len() == 1 && !ends_space {
            let results = self.root.search(buffer);
            proof {
                assert forall|i: int| 0 <= i < results@.len() implies buffer@.is_prefix_of(
                    #[trigger] results@[i]@,
                ) by {
                    assert(views(results@)[i] == results@[i]@);
                    assert(views(results@).to_set().contains(results@[i]@));
                }
            }
            let ghost ws = views(results@);
            let c = decide(results, buffer);
            assert(decided(c, ws, buffer@));
            return Completion::Ready(c);
        }
        let last = &args[args.len() - 1];
        assert(last@ == av.last());
        let last_chars = chars_of(last.as_str());
        let ends_slash = last_chars.len() > 0 && last_chars[last_chars.len() - 1] == '/';
        let (dir, prefix) = if ends_space {
            (".".to_owned(), String::new())
        } else if ends_slash {
            (join_path(".", last.as_str()), String::new())
        } else {
            let joined = join_path(".", last.as_str());
            let dir = match parent_of(joined.as_str()) {
                Some(d) => d,
                None => ".".to_owned(),
            };
            let prefix = match file_name(last.as_str()) {
                Some(f) => f,
                None => String::new(),
            };
            (dir, prefix)
        };
        assert(av[0] == args@[0]@);
        match complete_db.get(args[0].as_str()) {
            Some(scripts) => {
                let script = scripts[0].clone();
                assert(views(scripts@)[0] == scripts@[0]@);
                let argv = completer_argv(&args);
                let source = ListingSource::Script {
                    script,
                    argv,
                    comp_line: buffer.to_owned(),
                    comp_point: buffer.len(),
                };
                Completion::NeedListing { source, prefix }
            },
            None => Completion::NeedListing { source: ListingSource::Directory { dir }, prefix },
        }
    }
}

} // verus!
