use vstd::prelude::*;

verus! {

/// The abstract contents of a list of strings: each string by its characters.
pub open spec fn views(v: Seq<String>) -> Seq<Seq<char>> {
    v.map_values(|s: String| s@)
}

/// The abstract contents of a list of character vectors.
pub open spec fn char_views(v: Seq<Vec<char>>) -> Seq<Seq<char>> {
    v.map_values(|w: Vec<char>| w@)
}

/// The characters of `s`, in order.
pub fn chars_of(s: &str) -> (r: Vec<char>)
    ensures
        r@ == s@,
{
    let mut r: Vec<char> = Vec::new();
    for c in it: s.chars()
        invariant
            r@ == it.seq().take(it.index() as int),
            it.seq() == s@,
    {
        r.push(c);
    }
    r
}

/// Whether two character sequences are equal.
pub fn chars_eq(a: &Vec<char>, b: &Vec<char>) -> (r: bool)
    ensures
        r == (a@ == b@),
{
    if a.len() != b.len() {
        return false;
    }
    let n = a.len();
    for i in 0..n
        invariant
            n == a@.len(),
            n == b@.len(),
            forall|j: int| 0 <= j < i ==> a@[j] == b@[j],
    {
        if a[i] != b[i] {
            return false;
        }
    }
    assert(a@ =~= b@);
    true
}

/// Whether two strings hold the same characters.
pub fn same_text(a: &str, b: &str) -> (r: bool)
    ensures
        r == (a@ == b@),
{
    chars_eq(&chars_of(a), &chars_of(b))
}

/// `String::push`: claimed to leave the string's old characters followed by
/// `c`.
#[verifier::external_body]
pub(crate) fn push_char(s: &mut String, c: char)
    ensures
        final(s)@ == old(s)@.push(c),
{
    s.push(c);
}

/// The string made of the characters of `cs`, in order.
pub fn string_of(cs: &Vec<char>) -> (r: String)
    ensures
        r@ == cs@,
{
    let mut r = String::new();
    let n = cs.len();
    for i in 0..n
        invariant
            n == cs@.len(),
            r@ == cs@.take(i as int),
    {
        push_char(&mut r, cs[i]);
        assert(cs@.take(i + 1) == cs@.take(i as int).push(cs@[i as int]));
    }
    assert(cs@.take(n as int) == cs@);
    r
}

/// The pieces of `s` between occurrences of `sep`, in order; an empty `s`
/// is one empty piece, and neighbouring separators give an empty piece.
pub open spec fn split_spec(s: Seq<char>, sep: char) -> Seq<Seq<char>>
    decreases s.len(),
{
    if s.len() == 0 {
        seq![Seq::<char>::empty()]
    } else {
        let parts = split_spec(s.drop_last(), sep);
        if s.last() == sep {
            parts.push(Seq::<char>::empty())
        } else {
            parts.update(parts.len() - 1, parts.last().push(s.last()))
        }
    }
}

/// The pieces joined, with `sep` between each two neighbours.
pub open spec fn join_spec(parts: Seq<Seq<char>>, sep: Seq<char>) -> Seq<char>
    decreases parts.len(),
{
    if parts.len() == 0 {
        Seq::<char>::empty()
    } else if parts.len() == 1 {
        parts[0]
    } else {
        join_spec(parts.drop_last(), sep) + sep + parts.last()
    }
}

/// Splitting always gives at least one piece.
pub proof fn lemma_split_nonempty(s: Seq<char>, sep: char)
    ensures
        split_spec(s, sep).len() >= 1,
    decreases s.len(),
{
    if s.len() > 0 {
        lemma_split_nonempty(s.drop_last(), sep);
    }
}

/// Splitting undoes joining: the pieces hold no separator, and joining them
/// back with the separator gives back the text that was split.
pub proof fn law_split_join(s: Seq<char>, sep: char)
    ensures
        join_spec(split_spec(s, sep), seq![sep]) == s,
        forall|i: int|
            0 <= i < split_spec(s, sep).len() ==> !(#[trigger] split_spec(s, sep)[i]).contains(
                sep,
            ),
    decreases s.len(),
{
    let parts = split_spec(s, sep);
    if s.len() == 0 {
        assert(parts =~= seq![Seq::<char>::empty()]);
        assert(join_spec(parts, seq![sep]) =~= s);
    } else {
        let t = s.drop_last();
        let prev = split_spec(t, sep);
        law_split_join(t, sep);
        lemma_split_nonempty(t, sep);
        if s.last() == sep {
            assert(parts.drop_last() =~= prev);
            assert(join_spec(parts, seq![sep]) =~= s);
            assert forall|i: int| 0 <= i < parts.len() implies !(#[trigger] parts[i]).contains(
                sep,
            ) by {
                if i < prev.len() {
                    assert(parts[i] == prev[i]);
                }
            }
        } else {
            let last = prev.last();
            assert(!last.contains(sep));
            if prev.len() == 1 {
                assert(join_spec(prev, seq![sep]) == prev[0]);
                assert(join_spec(parts, seq![sep]) =~= s);
            } else {
                assert(parts.drop_last() =~= prev.drop_last());
                let x = join_spec(prev.drop_last(), seq![sep]);
                assert(x + seq![sep] + last == t);
                assert(parts.last() == last.push(s.last()));
                assert(s =~= t.push(s.last()));
                assert((x + seq![sep] + last).push(s.last()) =~= x + seq![sep] + last.push(
                    s.last(),
                ));
                assert(join_spec(parts, seq![sep]) =~= s);
            }
            assert forall|i: int| 0 <= i < parts.len() implies !(#[trigger] parts[i]).contains(
                sep,
            ) by {
                if i < prev.len() - 1 {
                    assert(parts[i] == prev[i]);
                } else {
                    assert(parts[i] == last.push(s.last()));
                    if parts[i].contains(sep) {
                        let k = choose|k: int| 0 <= k < parts[i].len() && parts[i][k] == sep;
                        assert(last[k] == sep);
                    }
                }
            }
        }
    }
}

/// The pieces of `s` between occurrences of `sep`.
pub fn split_chars(s: &Vec<char>, sep: char) -> (r: Vec<String>)
    ensures
        views(r@) == split_spec(s@, sep),
{
    let mut done: Vec<String> = Vec::new();
    let mut current = String::new();
    let n = s.len();
    assert(s@.take(0) =~= Seq::<char>::empty());
    assert(views(done@).push(current@) =~= split_spec(Seq::<char>::empty(), sep));
    for i in 0..n
        invariant
            n == s@.len(),
            views(done@).push(current@) == split_spec(s@.take(i as int), sep),
    {
        let c = s[i];
        let ghost t = s@.take(i + 1);
        assert(t.drop_last() =~= s@.take(i as int));
        assert(t.last() == c);
        if c == sep {
            done.push(current);
            current = String::new();
            assert(views(done@).push(current@) =~= split_spec(t, sep));
        } else {
            let ghost before = views(done@).push(current@);
            push_char(&mut current, c);
            assert(views(done@).push(current@) =~= before.update(
                before.len() - 1,
                before.last().push(c),
            ));
        }
    }
    assert(s@.take(n as int) =~= s@);
    done.push(current);
    assert(views(done@) =~= split_spec(s@, sep));
    done
}

/// The strings of `parts`, joined with `sep` between each two neighbours.
pub fn join_strings(parts: &Vec<String>, sep: &str) -> (r: String)
    ensures
        r@ == join_spec(views(parts@), sep@),
{
    let mut r = String::new();
    let n = parts.len();
    for i in 0..n
        invariant
            n == parts@.len(),
            r@ == join_spec(views(parts@).take(i as int), sep@),
    {
        let ghost done = views(parts@).take(i as int);
        let ghost next = views(parts@).take(i + 1);
        assert(next.drop_last() =~= done);
        assert(next.last() == parts@[i as int]@);
        if i > 0 {
            r.append(sep);
        }
        r.append(parts[i].as_str());
        if i == 0 {
            assert(r@ =~= next[0]);
        }
    }
    assert(views(parts@).take(n as int) =~= views(parts@));
    r
}

} // verus!
