//! The computing core of a small interactive shell: splitting command lines
//! into words, reading words as commands with redirections, the trie of
//! program names, what tab completion does, the line editor's reaction to
//! each key, and the bookkeeping of the builtin commands and jobs.

mod builtins;
mod complete_db;
mod completion;
mod editor;
mod env;
mod order;
mod parser;
mod paths;
mod text;
mod tokenizer;
mod trie;

pub use builtins::{
    background_command_line, cd_failure, command_not_found, cd_target, complete_args_ok, complete_args_valid,
    complete_builtin, decimal, decimal_string, digit_char, done_line, echo_line, job_line,
    job_line_spec, job_marker, law_job_markers, jobs_listing, launch_line, next_job_id, padded, type_line,
    CompleteReply,
};
pub use complete_db::{law_first_script_runs, with_script, CompleteDb};
pub use completion::{
    chars_starts_with, complete_from_listing, completer_argv, completer_argv_spec,
    completion_prefix, decide, decided, ends_with_slash, ends_with_space, entry_views,
    is_common_prefix, is_longest_common_prefix, is_white_space, white_space, keep_prefixed,
    law_longest_common_prefix_unique, law_outcome_independent_of_order, lcp, listing_dir,
    listing_names, listing_of, law_listing_offers_every_entry, offers, parse_script_output, same_outcome, trim_line, trimmed,
    CompCandidate, Completion, CompletionEngine, ListingSource,
};
pub use editor::{byte_char, law_byte_is_its_own_character, law_erase_undoes_typing, Buffer, EditorAction, LineEditor};
pub use env::{builtin_names, builtins, is_builtin, is_builtin_name, is_executable, split_path_list};
pub use order::{chars_le, lex_le, sort_words, sorted};
pub use parser::{
    command_agrees, destination, first_operator_at, foreground_args, in_background,
    is_any_operator, is_operator, law_plain_words_are_arguments,
    law_trailing_ampersand_means_background, law_no_ampersand_means_foreground,
    law_program_with_ampersand, redirect_view, redirects_spec,
    take_redirect_spec, Command, FileMode, ParseError, ParsedCommand, Redirect, RedirectKind,
};
pub use paths::{
    file_name, join_path, last_named, opt_string_view, path_file_name, path_joined, path_parent,
};
pub use text::{
    char_views, chars_eq, chars_of, join_spec, join_strings, law_split_join, same_text, split_chars, split_spec,
    string_of, views,
};
pub use tokenizer::{
    law_backslash_makes_literal, law_double_quotes_keep_text, law_plain_words_split_at_spaces, law_single_quotes_keep_text,
    escapable_in_double_quotes, nonempty_pieces, opt_view, run, special_char, step, tokenize,
    tokenize_spec, with_char, Backslash, Progress, TokenizerState,
};
pub use trie::{
    law_empty_search_finds_all, law_insert_idempotent, law_inserted_word_is_found,
    prefixed_words, words_with_prefix, TrieNode,
};
