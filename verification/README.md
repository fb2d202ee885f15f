# tinysh

The computing core of a small interactive shell, written in Verus and
verified against its contracts, with the terminal, file-system and process
plumbing around it in `app/`.

## Layout

- `src/tokenizer.rs` — splitting a command line into words (quotes,
  backslashes, `~`), specified as a state machine over the line's characters.
- `src/parser.rs` — reading words as a builtin or a program, with `>`, `>>`,
  `2>`, `2>>` redirections and a trailing `&`.
- `src/trie.rs` — the trie of program names, modelled as the set of words it
  stores.
- `src/completion.rs` — what tab does: which names are candidates, the
  longest common prefix, and the choice between expanding the line and
  listing the candidates; the completion engine itself.
- `src/complete_db.rs` — the completer scripts registered with `complete -C`.
- `src/editor.rs` — the line editor's reaction to each key.
- `src/builtins.rs` — what `echo`, `type`, `cd`, `complete` and `jobs` print
  and decide.
- `src/env.rs`, `src/paths.rs`, `src/order.rs`, `src/text.rs` — builtin
  names, search-path handling, the order of names, and text helpers.
- `app/` — the program: raw terminal mode, reading keys, running completer
  scripts, listing directories, spawning programs and tracking jobs.
