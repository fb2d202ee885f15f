use vstd::prelude::*;

use crate::text::{chars_of, push_char, views, split_spec, lemma_split_nonempty};

verus! {

/// Whether the previous character was an unconsumed backslash.
pub enum Backslash {
    Yes,
    No,
}

/// Where the tokenizer stands within the command line.
pub enum TokenizerState {
    Normal(Backslash),
    InSingleQuote,
    InDoubleQuote(Backslash),
}

/// What the tokenizer has built so far: its state, the finished words, the
/// word being built, and whether that word has seen a pair of quotes.
pub type Progress = (TokenizerState, Seq<Seq<char>>, Seq<char>, bool);

/// An optional string, by its characters.
pub open spec fn opt_view(s: Option<&str>) -> Option<Seq<char>> {
    match s {
        Some(t) => Some(t@),
        None => None,
    }
}

/// Characters that a backslash escapes inside double quotes.
pub open spec fn escapable_in_double_quotes(c: char) -> bool {
    c == '"' || c == '\\' || c == '$' || c == '`' || c == '\n'
}

/// The word being built with `c` added.
pub open spec fn with_char(p: Progress, st: TokenizerState, c: char) -> Progress {
    (st, p.1, p.2.push(c), p.3)
}

/// One character of the command line read in the progress `p`; `home` is
/// what a leading `~` expands to, if anything.
pub open spec fn step(p: Progress, c: char, home: Option<Seq<char>>) -> Progress {
    let (st, args, buf, quoted) = p;
    match st {
        TokenizerState::Normal(Backslash::No) => {
            if c == ' ' {
                if buf.len() > 0 || quoted {
                    (TokenizerState::Normal(Backslash::No), args.push(buf), Seq::empty(), false)
                } else {
                    (TokenizerState::Normal(Backslash::No), args, buf, quoted)
                }
            } else if c == '\\' {
                (TokenizerState::Normal(Backslash::Yes), args, buf, quoted)
            } else if c == '"' {
                (TokenizerState::InDoubleQuote(Backslash::No), args, buf, quoted)
            } else if c == '\'' {
                (TokenizerState::InSingleQuote, args, buf, quoted)
            } else if c == '~' && buf.len() == 0 && home is Some {
                (TokenizerState::Normal(Backslash::No), args, buf + home->0, quoted)
            } else {
                with_char(p, TokenizerState::Normal(Backslash::No), c)
            }
        },
        TokenizerState::Normal(Backslash::Yes) => with_char(
            p,
            TokenizerState::Normal(Backslash::No),
            c,
        ),
        TokenizerState::InDoubleQuote(Backslash::No) => {
            if c == '\\' {
                (TokenizerState::InDoubleQuote(Backslash::Yes), args, buf, quoted)
            } else if c == '"' {
                (TokenizerState::Normal(Backslash::No), args, buf, true)
            } else {
                with_char(p, TokenizerState::InDoubleQuote(Backslash::No), c)
            }
        },
        TokenizerState::InDoubleQuote(Backslash::Yes) => {
            if escapable_in_double_quotes(c) {
                with_char(p, TokenizerState::InDoubleQuote(Backslash::No), c)
            } else {
                (TokenizerState::InDoubleQuote(Backslash::No), args, buf.push('\\').push(c), quoted)
            }
        },
        TokenizerState::InSingleQuote => {
            if c == '\'' {
                (TokenizerState::Normal(Backslash::No), args, buf, true)
            } else {
                with_char(p, TokenizerState::InSingleQuote, c)
            }
        },
    }
}

/// The progress after reading all of `s` from the start.
pub open spec fn run(s: Seq<char>, home: Option<Seq<char>>) -> Progress
    decreases s.len(),
{
    if s.len() == 0 {
        (TokenizerState::Normal(Backslash::No), Seq::empty(), Seq::empty(), false)
    } else {
        step(run(s.drop_last(), home), s.last(), home)
    }
}

/// The words of the command line `s`: the finished words, and the word being
/// built if it holds anything or was quoted.
pub open spec fn tokenize_spec(s: Seq<char>, home: Option<Seq<char>>) -> Seq<Seq<char>> {
    let (_, args, buf, quoted) = run(s, home);
    if buf.len() > 0 || quoted {
        args.push(buf)
    } else {
        args
    }
}

/// The pieces that hold at least one character.
pub open spec fn nonempty_pieces(parts: Seq<Seq<char>>) -> Seq<Seq<char>> {
    parts.filter(|w: Seq<char>| w.len() > 0)
}

/// Whether `c` is one of the characters that quote, escape or expand.
pub open spec fn special_char(c: char) -> bool {
    c == '"' || c == '\'' || c == '\\' || c == '~'
}

proof fn lemma_run_plain(s: Seq<char>, home: Option<Seq<char>>)
    requires
        forall|i: int| 0 <= i < s.len() ==> !special_char(#[trigger] s[i]),
    ensures
        run(s, home) == (
            TokenizerState::Normal(Backslash::No),
            nonempty_pieces(split_spec(s, ' ').drop_last()),
            split_spec(s, ' ').last(),
            false,
        ),
    decreases s.len(),
{
    reveal(Seq::filter);
    let parts = split_spec(s, ' ');
    if s.len() == 0 {
        assert(parts.drop_last() =~= Seq::<Seq<char>>::empty());
    } else {
        let t = s.drop_last();
        let prev = split_spec(t, ' ');
        lemma_split_nonempty(t, ' ');
        assert forall|i: int| 0 <= i < t.len() implies !special_char(#[trigger] t[i]) by {
            assert(t[i] == s[i]);
        }
        lemma_run_plain(t, home);
        assert(!special_char(s[s.len() - 1]));
        if s.last() == ' ' {
            assert(parts.drop_last() =~= prev);
            assert(prev =~= prev.drop_last().push(prev.last()));
        } else {
            assert(parts.drop_last() =~= prev.drop_last());
        }
    }
}

/// A command line free of quotes, backslashes and tildes is split at its
/// spaces, and the empty pieces dropped.
pub proof fn law_plain_words_split_at_spaces(s: Seq<char>, home: Option<Seq<char>>)
    requires
        forall|i: int| 0 <= i < s.len() ==> !special_char(#[trigger] s[i]),
    ensures
        tokenize_spec(s, home) == nonempty_pieces(split_spec(s, ' ')),
{
    reveal(Seq::filter);
    lemma_run_plain(s, home);
    let parts = split_spec(s, ' ');
    lemma_split_nonempty(s, ' ');
    assert(parts =~= parts.drop_last().push(parts.last()));
}

proof fn lemma_run_single_quoted(s: Seq<char>, home: Option<Seq<char>>)
    requires
        forall|i: int| 0 <= i < s.len() ==> #[trigger] s[i] != '\'',
    ensures
        run(seq!['\''] + s, home) == (
            TokenizerState::InSingleQuote,
            Seq::<Seq<char>>::empty(),
            s,
            false,
        ),
    decreases s.len(),
{
    let q = seq!['\''] + s;
    if s.len() == 0 {
        reveal_with_fuel(run, 2);
        assert(q =~= seq!['\'']);
        assert(q.drop_last() =~= Seq::<char>::empty());
    } else {
        let t = s.drop_last();
        assert forall|i: int| 0 <= i < t.len() implies #[trigger] t[i] != '\'' by {
            assert(t[i] == s[i]);
        }
        lemma_run_single_quoted(t, home);
        assert(q.drop_last() =~= seq!['\''] + t);
        assert(q.last() == s.last());
        assert(s.last() == s[s.len() - 1]);
        assert(t.push(s.last()) =~= s);
    }
}

/// Single quotes keep everything between them literally, spaces included,
/// as one word.
pub proof fn law_single_quotes_keep_text(s: Seq<char>, home: Option<Seq<char>>)
    requires
        forall|i: int| 0 <= i < s.len() ==> #[trigger] s[i] != '\'',
    ensures
        tokenize_spec(seq!['\''] + s + seq!['\''], home) == seq![s],
{
    lemma_run_single_quoted(s, home);
    let line = seq!['\''] + s + seq!['\''];
    assert(line.drop_last() =~= seq!['\''] + s);
    assert(line.last() == '\'');
    assert(Seq::<Seq<char>>::empty().push(s) =~= seq![s]);
}

proof fn lemma_run_double_quoted(s: Seq<char>, home: Option<Seq<char>>)
    requires
        forall|i: int| 0 <= i < s.len() ==> #[trigger] s[i] != '"' && s[i] != '\\',
    ensures
        run(seq!['"'] + s, home) == (
            TokenizerState::InDoubleQuote(Backslash::No),
            Seq::<Seq<char>>::empty(),
            s,
            false,
        ),
    decreases s.len(),
{
    let q = seq!['"'] + s;
    if s.len() == 0 {
        reveal_with_fuel(run, 2);
        assert(q =~= seq!['"']);
        assert(q.drop_last() =~= Seq::<char>::empty());
    } else {
        let t = s.drop_last();
        assert forall|i: int| 0 <= i < t.len() implies #[trigger] t[i] != '"' && t[i] != '\\' by {
            assert(t[i] == s[i]);
        }
        lemma_run_double_quoted(t, home);
        assert(q.drop_last() =~= seq!['"'] + t);
        assert(q.last() == s.last());
        assert(s.last() == s[s.len() - 1]);
        assert(t.push(s.last()) =~= s);
    }
}

/// Double quotes keep every character between them literally (spaces,
/// single quotes, `~`, `$` and the rest), as one word, when no backslash
/// escape stands inside.
pub proof fn law_double_quotes_keep_text(s: Seq<char>, home: Option<Seq<char>>)
    requires
        forall|i: int| 0 <= i < s.len() ==> #[trigger] s[i] != '"' && s[i] != '\\',
    ensures
        tokenize_spec(seq!['"'] + s + seq!['"'], home) == seq![s],
{
    lemma_run_double_quoted(s, home);
    let line = seq!['"'] + s + seq!['"'];
    assert(line.drop_last() =~= seq!['"'] + s);
    assert(line.last() == '"');
    assert(Seq::<Seq<char>>::empty().push(s) =~= seq![s]);
}

/// A backslash outside quotes makes the character after it a word of its
/// own, taken literally.
pub proof fn law_backslash_makes_literal(c: char, home: Option<Seq<char>>)
    ensures
        tokenize_spec(seq!['\\', c], home) == seq![seq![c]],
{
    reveal_with_fuel(run, 3);
    let line = seq!['\\', c];
    assert(line.drop_last() =~= seq!['\\']);
    assert(line.drop_last().drop_last() =~= Seq::<char>::empty());
    assert(Seq::<Seq<char>>::empty().push(Seq::<char>::empty().push(c)) =~= seq![seq![c]]);
}

/// Splits a command line into words as a POSIX shell does for simple
/// commands: spaces separate words; single quotes keep everything literal;
/// double quotes keep everything but backslash escapes of `"`, `\`, `$`,
/// `` ` `` and newline; a backslash outside quotes makes the next character
/// literal; a `~` that begins a word becomes `home` when there is one.
pub fn tokenize(command: &str, home: Option<&str>) -> (r: Vec<String>)
    ensures
        views(r@) == tokenize_spec(command@, opt_view(home)),
{
    let ghost h = opt_view(home);
    let cs = chars_of(command);
    let mut state = TokenizerState::Normal(Backslash::No);
    let mut args: Vec<String> = Vec::new();
    let mut buffer = String::new();
    let mut has_quotes = false;
    let n = cs.len();
    assert(cs@.take(0) =~= Seq::<char>::empty());
    for i in 0..n
        invariant
            n == cs@.len(),
            cs@ == command@,
            h == opt_view(home),
            (state, views(args@), buffer@, has_quotes) == run(cs@.take(i as int), h),
    {
        let ch = cs[i];
        let ghost before = (state, views(args@), buffer@, has_quotes);
        let ghost t = cs@.take(i + 1);
        assert(t.drop_last() =~= cs@.take(i as int));
        assert(t.last() == ch);
        state = match state {
            TokenizerState::Normal(Backslash::No) => {
                if ch == ' ' {
                    if !buffer.as_str().is_empty() || has_quotes {
                        args.push(buffer);
                        buffer = String::new();
                        has_quotes = false;
                    }
                    TokenizerState::Normal(Backslash::No)
                } else if ch == '\\' {
                    TokenizerState::Normal(Backslash::Yes)
                } else if ch == '"' {
                    TokenizerState::InDoubleQuote(Backslash::No)
                } else if ch == '\'' {
                    TokenizerState::InSingleQuote
                } else if ch == '~' {
                    if !buffer.as_str().is_empty() {
                        push_char(&mut buffer, ch);
                    } else {
                        match home {
                            Some(dir) => buffer.append(dir),
                            None => push_char(&mut buffer, ch),
                        }
                    }
                    TokenizerState::Normal(Backslash::No)
                } else {
                    push_char(&mut buffer, ch);
                    TokenizerState::Normal(Backslash::No)
                }
            },
            TokenizerState::Normal(Backslash::Yes) => {
                push_char(&mut buffer, ch);
                TokenizerState::Normal(Backslash::No)
            },
            TokenizerState::InDoubleQuote(Backslash::No) => {
                if ch == '\\' {
                    TokenizerState::InDoubleQuote(Backslash::Yes)
                } else if ch == '"' {
                    has_quotes = true;
                    TokenizerState::Normal(Backslash::No)
                } else {
                    push_char(&mut buffer, ch);
                    TokenizerState::InDoubleQuote(Backslash::No)
                }
            },
            TokenizerState::InDoubleQuote(Backslash::Yes) => {
                if ch == '"' || ch == '\\' || ch == '$' || ch == '`' || ch == '\n' {
                    push_char(&mut buffer, ch);
                } else {
                    push_char(&mut buffer, '\\');
                    push_char(&mut buffer, ch);
                }
                TokenizerState::InDoubleQuote(Backslash::No)
            },
            TokenizerState::InSingleQuote => {
                if ch == '\'' {
                    has_quotes = true;
                    TokenizerState::Normal(Backslash::No)
                } else {
                    push_char(&mut buffer, ch);
                    TokenizerState::InSingleQuote
                }
            },
        };
        assert((state, views(args@), buffer@, has_quotes) == step(before, ch, h));
    }
    assert(cs@.take(n as int) =~= cs@);
    if !buffer.as_str().is_empty() || has_quotes {
        args.push(buffer);
    }
    args
}

} // verus!
