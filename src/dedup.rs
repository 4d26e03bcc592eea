//! Detection of duplicate keys and duplicate DOIs.
use vstd::prelude::*;
use crate::entry::BibEntry;
use crate::error::Problem;
use crate::pattern::{find_match, leftmost_match};
use crate::text::{chars_of, find_char, find_char_from, lemma_find_char};

verus! {

/// Where the DOI field's value starts: the word `doi`, any case, then `=`.
pub const DOI_POSITION: &'static str = "(?i)\\bdoi\\s*=\\s*";

/// The shape of a DOI: `10.` and then word characters, `/`, `-`, `:`, `.` or parentheses.
pub const DOI_TOKEN: &'static str = "10\\.[\\)\\(\\.\\w/\\-:]+";

/// A problem, as text.
pub enum Issue {
    DuplicateKey(Seq<char>),
    DuplicateDoi(Seq<char>),
    UnparseableDoi(Seq<char>),
}

impl View for Problem {
    type V = Issue;

    open spec fn view(&self) -> Issue {
        match self {
            Problem::DuplicateKey(k) => Issue::DuplicateKey(k@),
            Problem::DuplicateDoi(d) => Issue::DuplicateDoi(d@),
            Problem::UnparseableDoi(k) => Issue::UnparseableDoi(k@),
        }
    }
}

/// The texts of the given problems.
pub open spec fn issues(ps: Seq<Problem>) -> Seq<Issue> {
    ps.map_values(|p: Problem| p@)
}

/// The keys of the adjacent pairs among the first `i` entries that share a non-empty key.
pub open spec fn duplicate_keys_upto(es: Seq<BibEntry>, i: int) -> Seq<Issue>
    decreases i,
{
    if i < 2 || i > es.len() {
        Seq::empty()
    } else {
        let k = es[i - 2].id@;
        duplicate_keys_upto(es, i - 1) + if k.len() > 0 && k == es[i - 1].id@ {
            seq![Issue::DuplicateKey(k)]
        } else {
            Seq::empty()
        }
    }
}

/// Reports each adjacent pair of entries that share a non-empty key. On entries sorted by
/// key this finds every repeated key.
pub fn find_duplicate_keys(entries: &Vec<BibEntry>) -> (r: Vec<Problem>)
    ensures
        issues(r@) == duplicate_keys_upto(entries@, entries@.len() as int),
{
    let mut r: Vec<Problem> = Vec::new();
    let mut i: usize = 1;
    if entries.len() < 2 {
        return r;
    }
    while i < entries.len()
        invariant
            1 <= i <= entries.len(),
            issues(r@) == duplicate_keys_upto(entries@, i as int),
        decreases entries.len() - i,
    {
        let ghost before = r@;
        if entries[i - 1].id.as_str().unicode_len() > 0 && entries[i - 1].id == entries[i].id {
            r.push(Problem::DuplicateKey(entries[i - 1].id.clone()));
        }
        proof {
            assert(issues(r@) =~= duplicate_keys_upto(entries@, i + 1));
        }
        i = i + 1;
    }
    r
}

/// What the DOI field of an entry holds.
pub enum DoiField {
    /// There is no `doi =`.
    Absent,
    /// There is a `doi =` but no DOI before the next comma.
    Unreadable,
    /// The DOI found.
    Doi(Seq<char>),
}

/// The text after a DOI field's `=`, up to the first comma if there is one.
pub open spec fn up_to_comma(s: Seq<char>) -> Seq<char> {
    match find_char(s, ',', 0) {
        Some(k) => s.subrange(0, k),
        None => s,
    }
}

/// The DOI field of an entry's text.
pub open spec fn doi_of(content: Seq<char>) -> DoiField {
    match leftmost_match(DOI_POSITION@, content) {
        None => DoiField::Absent,
        Some((_, e)) => {
            let part = up_to_comma(content.subrange(e, content.len() as int));
            match leftmost_match(DOI_TOKEN@, part) {
                None => DoiField::Unreadable,
                Some((a, b)) => DoiField::Doi(part.subrange(a, b)),
            }
        },
    }
}

/// The DOIs of the first `i` entries that take part in the check: those with a
/// non-empty key and a DOI.
pub open spec fn dois_upto(es: Seq<BibEntry>, i: int) -> Set<Seq<char>>
    decreases i,
{
    if i <= 0 || i > es.len() {
        Set::empty()
    } else {
        let prev = dois_upto(es, i - 1);
        if es[i - 1].id@.len() > 0 {
            match doi_of(es[i - 1].content@) {
                DoiField::Doi(d) => prev.insert(d),
                _ => prev,
            }
        } else {
            prev
        }
    }
}

/// The DOI problems among the first `i` entries: a DOI already seen, or a DOI field
/// without a DOI unless that is allowed. Entries with the empty key are not checked.
pub open spec fn doi_problems_upto(es: Seq<BibEntry>, i: int, allow_empty_doi: bool) -> Seq<Issue>
    decreases i,
{
    if i <= 0 || i > es.len() {
        Seq::empty()
    } else {
        let prev = doi_problems_upto(es, i - 1, allow_empty_doi);
        let e = es[i - 1];
        if e.id@.len() == 0 {
            prev
        } else {
            match doi_of(e.content@) {
                DoiField::Absent => prev,
                DoiField::Unreadable => if allow_empty_doi {
                    prev
                } else {
                    prev.push(Issue::UnparseableDoi(e.id@))
                },
                DoiField::Doi(d) => if dois_upto(es, i - 1).contains(d) {
                    prev.push(Issue::DuplicateDoi(d))
                } else {
                    prev
                },
            }
        }
    }
}

/// Whether `s` is among `v`.
fn contains_text(v: &Vec<String>, s: &String) -> (r: bool)
    ensures
        r == exists|j: int| 0 <= j < v@.len() && (#[trigger] v@[j])@ == s@,
{
    let mut j: usize = 0;
    while j < v.len()
        invariant
            j <= v.len(),
            forall|q: int| 0 <= q < j ==> (#[trigger] v@[q])@ != s@,
        decreases v.len() - j,
    {
        if v[j] == *s {
            return true;
        }
        j = j + 1;
    }
    false
}

/// What the DOI field of an entry holds, as found.
#[derive(Debug, Clone)]
pub enum DoiLookup {
    Absent,
    Unreadable,
    Found(String),
}

/// Looks up the DOI field of an entry's text: the first `doi =`, then a DOI before the
/// next comma.
pub fn find_doi(content: &str) -> (r: DoiLookup)
    ensures
        match doi_of(content@) {
            DoiField::Absent => r is Absent,
            DoiField::Unreadable => r is Unreadable,
            DoiField::Doi(d) => r matches DoiLookup::Found(x) && x@ == d,
        },
{
    match find_match(DOI_POSITION, content) {
        None => DoiLookup::Absent,
        Some(f) => {
            let rest = chars_of(f.after);
            proof {
                lemma_find_char(rest@, ',', 0);
            }
            let part = match find_char_from(&rest, ',', 0) {
                Some(k) => f.after.substring_char(0, k),
                None => f.after,
            };
            match find_match(DOI_TOKEN, part) {
                None => DoiLookup::Unreadable,
                Some(g) => DoiLookup::Found(g.matched.to_owned()),
            }
        },
    }
}

/// Reports, in the order of the entries, each DOI seen before and, unless
/// `allow_empty_doi`, each DOI field without a DOI. Entries with the empty key are not
/// checked.
pub fn find_duplicate_dois(entries: &Vec<BibEntry>, allow_empty_doi: bool) -> (r: Vec<Problem>)
    ensures
        issues(r@) == doi_problems_upto(entries@, entries@.len() as int, allow_empty_doi),
{
    let mut r: Vec<Problem> = Vec::new();
    let mut seen: Vec<String> = Vec::new();
    let mut i: usize = 0;
    while i < entries.len()
        invariant
            i <= entries.len(),
            issues(r@) == doi_problems_upto(entries@, i as int, allow_empty_doi),
            forall|d: Seq<char>|
                #[trigger] dois_upto(entries@, i as int).contains(d) <==> exists|j: int|
                    0 <= j < seen@.len() && (#[trigger] seen@[j])@ == d,
        decreases entries.len() - i,
    {
        let ghost before = r@;
        let ghost seen_before = seen@;
        let e = &entries[i];
        proof {
            let es = entries@;
            assert(dois_upto(es, i + 1) == if es[i as int].id@.len() > 0 {
                match doi_of(es[i as int].content@) {
                    DoiField::Doi(d) => dois_upto(es, i as int).insert(d),
                    _ => dois_upto(es, i as int),
                }
            } else {
                dois_upto(es, i as int)
            });
        }
        if e.id.as_str().unicode_len() > 0 {
            match find_doi(e.content.as_str()) {
                DoiLookup::Absent => {},
                DoiLookup::Unreadable => {
                    if !allow_empty_doi {
                        r.push(Problem::UnparseableDoi(e.id.clone()));
                    }
                },
                DoiLookup::Found(d) => {
                    if contains_text(&seen, &d) {
                        r.push(Problem::DuplicateDoi(d));
                    } else {
                        let ghost dv = d@;
                        seen.push(d);
                        proof {
                            assert forall|x: Seq<char>|
                                #[trigger] dois_upto(entries@, i + 1).contains(x) <==> exists|j: int|
                                    0 <= j < seen@.len() && (#[trigger] seen@[j])@ == x by {
                                assert(dois_upto(entries@, i as int).contains(x) <==> exists|j: int|
                                    0 <= j < seen_before.len() && (#[trigger] seen_before[j])@ == x);
                                assert(dois_upto(entries@, i + 1) == dois_upto(entries@, i as int).insert(dv));
                                assert(seen@[seen_before.len() as int]@ == dv);
                                if exists|j: int| 0 <= j < seen_before.len() && (#[trigger] seen_before[j])@ == x {
                                    let j = choose|j: int| 0 <= j < seen_before.len() && (#[trigger] seen_before[j])@ == x;
                                    assert(seen@[j] == seen_before[j]);
                                }
                                if exists|j: int| 0 <= j < seen@.len() && (#[trigger] seen@[j])@ == x {
                                    let j = choose|j: int| 0 <= j < seen@.len() && (#[trigger] seen@[j])@ == x;
                                    if j < seen_before.len() {
                                        assert(seen_before[j] == seen@[j]);
                                    }
                                }
                            }
                        }
                    }
                },
            }
        }
        proof {
            assert(issues(r@) =~= doi_problems_upto(entries@, i + 1, allow_empty_doi));
        }
        i = i + 1;
    }
    r
}

} // verus!
