//! Parsing, checking and sorting of bibliography files made of brace-delimited entries.

pub mod text;
pub mod field;
pub mod pattern;
pub mod error;
pub mod author;
pub mod lines;
pub mod entry;
pub mod order;
pub mod sort;
pub mod dedup;
pub mod pipeline;

pub use author::{
    clean_string, clean_string_keep_escapes, first_author_first_name, first_author_from_content,
    first_name_of,
};
pub use dedup::{find_doi, find_duplicate_dois, find_duplicate_keys, DoiLookup};
pub use entry::{parse_entries, read_entry, BibEntry, ParseOptions};
pub use error::{BibError, Problem};
pub use field::{first_author_field_content, BracketOrQuote};
pub use lines::{BracketCounter, LineIterHelper};
pub use order::less_than;
pub use pipeline::{check_duplicates, render_entries, sort_bib, Opts};
pub use sort::{
    get_string_case_fn, sort_by_first_author_field, sort_by_first_author_first_name, sort_by_key,
    sort_by_keys, CaseFn, SortBy,
};
