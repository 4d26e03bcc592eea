//! The whole run: read the entries, sort them, check them, and sort them again by the
//! chosen author key.
use vstd::prelude::*;
use crate::dedup::{doi_problems_upto, duplicate_keys_upto, find_duplicate_dois, find_duplicate_keys, issues, Issue};
use crate::author::{first_author_text, reordered_name};
use crate::entry::{entry_views, parse_all, parse_entries, reports, BibEntry, ParseOptions};
use crate::error::{BibError, Problem};
use crate::lines::line_views;
use crate::sort::{
    get_string_case_fn, keys_of, sort_by_first_author_field, sort_by_first_author_first_name,
    sort_by_key, stably_sorted, SortBy,
};
use crate::text::{chars_of, string_of, trimmed};

verus! {

/// The options of a run.
#[derive(Debug, Clone, Copy)]
pub struct Opts {
    /// Keep keys and author sort keys as written instead of folding them to lower case.
    pub case_sensitive: bool,
    /// Skip the checks for duplicate keys and DOIs.
    pub no_duplicate_detection: bool,
    /// Accept entries without a key; they are exempt from the duplicate checks.
    pub allow_empty_keys: bool,
    /// Skip the check for duplicate DOIs.
    pub allow_doi_duplicates: bool,
    /// Accept a `doi =` field that holds no DOI.
    pub allow_empty_doi: bool,
    /// Sort by the cleaned text of the first author.
    pub sort_by_first_author_field: bool,
    /// Sort by the first author's name with the first name in front.
    pub sort_by_first_author_first_name: bool,
}

/// How a run reads keys.
pub open spec fn parse_options(opts: Opts) -> ParseOptions {
    ParseOptions { case_sensitive: opts.case_sensitive, allow_empty_keys: opts.allow_empty_keys }
}

/// The problems that the checks find in entries sorted by key.
pub open spec fn problems_of(sorted: Seq<BibEntry>, opts: Opts) -> Seq<Issue> {
    if opts.no_duplicate_detection {
        Seq::empty()
    } else {
        duplicate_keys_upto(sorted, sorted.len() as int) + if opts.allow_doi_duplicates {
            Seq::empty()
        } else {
            doi_problems_upto(sorted, sorted.len() as int, opts.allow_empty_doi)
        }
    }
}

/// Every first author of the entries can be put in "First Last" order.
pub open spec fn names_reorderable(es: Seq<BibEntry>) -> bool {
    forall|j: int|
        0 <= j < es.len() ==> reordered_name(trimmed(first_author_text((#[trigger] es[j]).content@)))
            is Some
}

/// Runs the checks that the options ask for on entries sorted by key.
pub fn check_duplicates(entries: &Vec<BibEntry>, opts: &Opts) -> (r: Vec<Problem>)
    ensures
        issues(r@) == problems_of(entries@, *opts),
{
    if opts.no_duplicate_detection {
        let r: Vec<Problem> = Vec::new();
        proof {
            assert(issues(r@) =~= Seq::<Issue>::empty());
        }
        return r;
    }
    let mut r = find_duplicate_keys(entries);
    let ghost keys_part = r@;
    if !opts.allow_doi_duplicates {
        let mut dois = find_duplicate_dois(entries, opts.allow_empty_doi);
        r.append(&mut dois);
    }
    proof {
        assert(issues(r@) =~= problems_of(entries@, *opts));
    }
    r
}

/// Reads the entries from the lines of a bibliography, sorts them by key, checks them for
/// duplicates, and sorts them by the author key that the options choose, if any. Nothing
/// is returned but the entries read, each once and unchanged.
pub fn sort_bib(lines: Vec<String>, opts: &Opts) -> (r: Result<Vec<BibEntry>, BibError>)
    ensures
        match parse_all(line_views(lines@), parse_options(*opts)) {
            Err(f) => r matches Err(e) && reports(e, f),
            Ok(es) => exists|parsed: Seq<BibEntry>, sorted: Seq<BibEntry>|
                {
                    &&& entry_views(parsed) == es
                    &&& stably_sorted(parsed, keys_of(parsed, SortBy::Key, false), sorted)
                    &&& sorted.to_multiset() == parsed.to_multiset()
                    &&& problems_of(sorted, *opts).len() > 0 ==> (r matches Err(e) && (e matches BibError::Validation(ps)
                        && issues(ps@) == problems_of(sorted, *opts)))
                    &&& problems_of(sorted, *opts).len() == 0 ==> (r matches Err(e) ==> e is AmbiguousAuthor)
                    &&& r is Ok <==> problems_of(sorted, *opts).len() == 0 && (
                    opts.sort_by_first_author_first_name ==> names_reorderable(sorted))
                    &&& r matches Ok(v) ==> {
                        &&& v@.to_multiset() == parsed.to_multiset()
                        &&& if opts.sort_by_first_author_first_name {
                            stably_sorted(
                                sorted,
                                keys_of(sorted, SortBy::FirstAuthorFirstName, opts.case_sensitive),
                                v@,
                            )
                        } else if opts.sort_by_first_author_field {
                            stably_sorted(
                                sorted,
                                keys_of(sorted, SortBy::FirstAuthorField, opts.case_sensitive),
                                v@,
                            )
                        } else {
                            v@ == sorted
                        }
                    }
                },
        },
{
    let popts = ParseOptions { case_sensitive: opts.case_sensitive, allow_empty_keys: opts.allow_empty_keys };
    let mut entries = match parse_entries(lines, popts) {
        Err(e) => {
            return Err(e);
        },
        Ok(v) => v,
    };
    let ghost parsed = entries@;
    sort_by_key(&mut entries);
    let ghost sorted = entries@;
    let problems = check_duplicates(&entries, opts);
    if problems.len() > 0 {
        return Err(BibError::Validation(problems));
    }
    let case_fn = get_string_case_fn(opts.case_sensitive);
    if opts.sort_by_first_author_first_name {
        match sort_by_first_author_first_name(&mut entries, case_fn) {
            Err(e) => {
                return Err(e);
            },
            Ok(()) => {},
        }
    } else if opts.sort_by_first_author_field {
        sort_by_first_author_field(&mut entries, case_fn);
    }
    Ok(entries)
}

/// The output text of the entries: each entry's text followed by a blank line.
pub open spec fn rendered(es: Seq<BibEntry>) -> Seq<char>
    decreases es.len(),
{
    if es.len() == 0 {
        Seq::empty()
    } else {
        rendered(es.drop_last()) + es.last().content@ + seq!['\n', '\n']
    }
}

/// The output text of the entries: each entry's text followed by a blank line.
pub fn render_entries(entries: &Vec<BibEntry>) -> (r: String)
    ensures
        r@ == rendered(entries@),
{
    let mut out: Vec<char> = Vec::new();
    for i in 0..entries.len()
        invariant
            out@ == rendered(entries@.take(i as int)),
    {
        let mut text = chars_of(entries[i].content.as_str());
        out.append(&mut text);
        out.push('\n');
        out.push('\n');
        proof {
            assert(entries@.take(i + 1).drop_last() =~= entries@.take(i as int));
        }
    }
    proof {
        assert(entries@.take(entries@.len() as int) =~= entries@);
    }
    string_of(&out)
}

} // verus!
