//! A small line-oriented text search: report the lines of a text that
//! contain a query, with or without regard to letter case.

mod config;
mod lines;
mod search;
mod text;

pub use config::{search, Config, NOT_ENOUGH_ARGUMENTS};
pub use lines::{line_end, lines_of, split_lines, strip_cr};
pub use search::{
    holds_exactly, holds_folded, insensitive_matches, lemma_empty_contents_finds_nothing,
    lemma_empty_query_finds_every_line, lemma_insensitive_includes_sensitive,
    lemma_search_idempotent, search_case_insensitive, search_case_sensitive, sensitive_matches,
};
pub use text::{
    chars_of, contains, contains_text, fold_case, fold_chars, lemma_fold_case_concat, lower_char,
};
