//! Cutting a bibliography into entries, each with its key.
use vstd::prelude::*;
use crate::error::BibError;
use crate::lines::{line_views, lemma_scan_bounds, scan, BracketCounter, LineIterHelper};
use crate::text::{
    chars_of, find_char, find_char_from, is_white_space, lemma_find_char, lemma_trim_front_suffix,
    lower_of, lowercase, string_of, trim_front, trim_start, white_space,
};

verus! {

/// One bibliography record: its key and its text as it stood in the input.
#[derive(Debug, Clone)]
pub struct BibEntry {
    pub id: String,
    pub content: String,
}

/// The keys and texts of the given entries.
pub open spec fn entry_views(es: Seq<BibEntry>) -> Seq<(Seq<char>, Seq<char>)> {
    es.map_values(|e: BibEntry| (e.id@, e.content@))
}

/// How keys are read.
#[derive(Debug, Clone, Copy)]
pub struct ParseOptions {
    /// Keep keys as written instead of folding them to lower case.
    pub case_sensitive: bool,
    /// Accept entries without a key, giving them the empty key.
    pub allow_empty_keys: bool,
}

/// Why the input was refused, as text.
pub enum Failure {
    LineOutsideEntry(Seq<char>),
    MissingOpeningBrace(Seq<char>),
    MissingKey(Seq<char>),
    ClosedBeforeOpened(Seq<char>),
    UnexpectedEndOfInput,
}

/// The error `e` reports the failure `f`.
pub open spec fn reports(e: BibError, f: Failure) -> bool {
    match (e, f) {
        (BibError::LineOutsideEntry(a), Failure::LineOutsideEntry(b)) => a@ == b,
        (BibError::MissingOpeningBrace(a), Failure::MissingOpeningBrace(b)) => a@ == b,
        (BibError::MissingKey(a), Failure::MissingKey(b)) => a@ == b,
        (BibError::ClosedBeforeOpened(a), Failure::ClosedBeforeOpened(b)) => a@ == b,
        (BibError::UnexpectedEndOfInput, Failure::UnexpectedEndOfInput) => true,
        _ => false,
    }
}

/// The outcome of reading the rest of an entry: its text and the lines that remain
/// after it, or why it could not be read.
pub enum Gathered {
    Done(Seq<char>, Seq<Seq<char>>),
    OverClosed(Seq<char>),
    Unfinished,
}

/// `g` with `text` and a line break put before the text it read.
pub open spec fn glue(text: Seq<char>, g: Gathered) -> Gathered {
    match g {
        Gathered::Done(t, after) => Gathered::Done(text + seq!['\n'] + t, after),
        _ => g,
    }
}

/// Reads the line `l`, then as many of `rest` as the braces need, starting from the
/// given counts. The part of a line after the balancing `}` is put back in front of
/// the lines that remain.
pub open spec fn absorb(l: Seq<char>, rest: Seq<Seq<char>>, open: nat, close: nat) -> Gathered
    decreases rest.len(), 1nat,
{
    let (stop, o, c) = scan(l, 0, open, close);
    if c > o {
        Gathered::OverClosed(l)
    } else if stop < l.len() {
        Gathered::Done(l.subrange(0, stop), seq![l.subrange(stop, l.len() as int)] + rest)
    } else if o == c {
        Gathered::Done(l, rest)
    } else {
        glue(l, absorb_rest(rest, o, c))
    }
}

/// Reads the lines `rest` as the continuation of an entry with the given counts.
pub open spec fn absorb_rest(rest: Seq<Seq<char>>, open: nat, close: nat) -> Gathered
    decreases rest.len(), 0nat,
{
    if rest.len() == 0 {
        Gathered::Unfinished
    } else {
        absorb(rest[0], rest.drop_first(), open, close)
    }
}

/// Index just past the run of characters other than commas and white space that starts
/// at `i`.
pub open spec fn key_end(s: Seq<char>, i: int) -> int
    decreases s.len() - i,
{
    if i < 0 || i >= s.len() || s[i] == ',' || white_space(s[i]) {
        i
    } else {
        key_end(s, i + 1)
    }
}

/// The key as it is stored: folded to lower case unless case matters.
pub open spec fn folded(s: Seq<char>, case_sensitive: bool) -> Seq<char> {
    if case_sensitive { s } else { lower_of(s) }
}

/// What one line of input, with the lines after it, gives.
pub enum Stepped {
    /// The line is blank.
    Blank,
    /// An entry with this key and text, and the lines that remain after it.
    Entry(Seq<char>, Seq<char>, Seq<Seq<char>>),
    Failed(Failure),
}

/// Reads the entry that starts at `line`: the line, stripped of leading white space,
/// must start with `@` and hold a `{`; the key is the run of characters other than
/// commas and white space right after that first `{`.
pub open spec fn entry_step(line: Seq<char>, rest: Seq<Seq<char>>, opts: ParseOptions) -> Stepped {
    let t = trim_front(line);
    if t.len() == 0 {
        Stepped::Blank
    } else if t[0] != '@' {
        Stepped::Failed(Failure::LineOutsideEntry(line))
    } else {
        match find_char(t, '{', 0) {
            None => Stepped::Failed(Failure::MissingOpeningBrace(line)),
            Some(b) => {
                let e = key_end(t, b + 1);
                if e == b + 1 && !opts.allow_empty_keys {
                    Stepped::Failed(Failure::MissingKey(line))
                } else {
                    let key = if e == b + 1 {
                        Seq::empty()
                    } else {
                        folded(t.subrange(b + 1, e), opts.case_sensitive)
                    };
                    match absorb(t, rest, 0, 0) {
                        Gathered::Done(text, after) => Stepped::Entry(key, text, after),
                        Gathered::OverClosed(l) => Stepped::Failed(Failure::ClosedBeforeOpened(l)),
                        Gathered::Unfinished => Stepped::Failed(Failure::UnexpectedEndOfInput),
                    }
                }
            },
        }
    }
}

/// The size of a sequence of lines: their characters and line ends.
pub open spec fn supply_size(lines: Seq<Seq<char>>) -> nat
    decreases lines.len(),
{
    if lines.len() == 0 {
        0
    } else {
        lines[0].len() + 1 + supply_size(lines.drop_first())
    }
}

proof fn lemma_absorb_shrinks(l: Seq<char>, rest: Seq<Seq<char>>, open: nat, close: nat)
    ensures
        absorb(l, rest, open, close) matches Gathered::Done(_, after) ==> supply_size(after)
            < l.len() + 1 + supply_size(rest),
    decreases rest.len(),
{
    let (stop, o, c) = scan(l, 0, open, close);
    lemma_scan_bounds(l, 0, open, close);
    if c <= o && stop < l.len() {
        let after = seq![l.subrange(stop, l.len() as int)] + rest;
        assert(after.drop_first() =~= rest);
    } else if c <= o && o != c && rest.len() > 0 {
        lemma_absorb_shrinks(rest[0], rest.drop_first(), o, c);
    }
}

/// The entries of a sequence of lines, in order, each as its key and text; or the first
/// failure met.
pub open spec fn parse_all(lines: Seq<Seq<char>>, opts: ParseOptions) -> Result<
    Seq<(Seq<char>, Seq<char>)>,
    Failure,
>
    decreases supply_size(lines),
    via parse_all_decreases
{
    if lines.len() == 0 {
        Ok(Seq::empty())
    } else {
        match entry_step(lines[0], lines.drop_first(), opts) {
            Stepped::Blank => parse_all(lines.drop_first(), opts),
            Stepped::Entry(key, text, after) => match parse_all(after, opts) {
                Ok(es) => Ok(seq![(key, text)] + es),
                Err(f) => Err(f),
            },
            Stepped::Failed(f) => Err(f),
        }
    }
}

proof fn lemma_step_shrinks(lines: Seq<Seq<char>>, opts: ParseOptions)
    requires
        lines.len() > 0,
    ensures
        supply_size(lines.drop_first()) < supply_size(lines),
        entry_step(lines[0], lines.drop_first(), opts) matches Stepped::Entry(_, _, after)
            ==> supply_size(after) < supply_size(lines),
{
    let t = trim_front(lines[0]);
    lemma_trim_front_suffix(lines[0]);
    lemma_absorb_shrinks(t, lines.drop_first(), 0, 0);
}

#[via_fn]
proof fn parse_all_decreases(lines: Seq<Seq<char>>, opts: ParseOptions) {
    if lines.len() > 0 {
        lemma_step_shrinks(lines, opts);
    }
}

proof fn lemma_glue_glue(a: Seq<char>, b: Seq<char>, g: Gathered)
    ensures
        glue(a, glue(b, g)) == glue(a + seq!['\n'] + b, g),
{
    if let Gathered::Done(t, after) = g {
        assert(a + seq!['\n'] + (b + seq!['\n'] + t) =~= (a + seq!['\n'] + b) + seq!['\n'] + t);
    }
}

/// Index just past the run of characters other than commas and white space that starts
/// at `i`.
fn find_key_end(s: &Vec<char>, i: usize) -> (r: usize)
    requires
        i <= s.len(),
    ensures
        r == key_end(s@, i as int),
        i <= r <= s.len(),
{
    let mut j: usize = i;
    while j < s.len() && s[j] != ',' && !is_white_space(s[j])
        invariant
            i <= j <= s.len(),
            key_end(s@, i as int) == key_end(s@, j as int),
        decreases s.len() - j,
    {
        j = j + 1;
    }
    j
}

/// The key folded to lower case unless case matters.
fn fold_key(s: &str, case_sensitive: bool) -> (r: String)
    ensures
        r@ == folded(s@, case_sensitive),
{
    if case_sensitive {
        s.to_owned()
    } else {
        lowercase(s)
    }
}

/// Reads the entry that starts with `line`, taking further lines from the supply as the
/// braces need. `None` stands for a blank line.
pub fn read_entry(line: &str, line_iter_helper: &mut LineIterHelper, opts: ParseOptions) -> (r:
    Result<Option<BibEntry>, BibError>)
    requires
        old(line_iter_helper).wf(),
        old(line_iter_helper).can_push_back(),
    ensures
        final(line_iter_helper).wf(),
        match entry_step(line@, old(line_iter_helper)@, opts) {
            Stepped::Blank => r matches Ok(None) && final(line_iter_helper)@ == old(
                line_iter_helper,
            )@ && final(line_iter_helper).can_push_back(),
            Stepped::Entry(key, text, after) => r matches Ok(Some(e)) && e.id@ == key
                && e.content@ == text && final(line_iter_helper)@ == after,
            Stepped::Failed(f) => r matches Err(e) && reports(e, f),
        },
{
    let t = trim_start(line);
    let tv = chars_of(t);
    if tv.len() == 0 {
        return Ok(None);
    }
    if tv[0] != '@' {
        return Err(BibError::LineOutsideEntry(line.to_owned()));
    }
    proof {
        lemma_find_char(tv@, '{', 0);
    }
    let b = match find_char_from(&tv, '{', 0) {
        None => {
            return Err(BibError::MissingOpeningBrace(line.to_owned()));
        },
        Some(b) => b,
    };
    let e = find_key_end(&tv, b + 1);
    let id = if e == b + 1 {
        if !opts.allow_empty_keys {
            return Err(BibError::MissingKey(line.to_owned()));
        }
        String::new()
    } else {
        fold_key(t.substring_char(b + 1, e), opts.case_sensitive)
    };
    let ghost rest0 = line_iter_helper@;
    let mut counter = BracketCounter::fresh();
    let mut content: Vec<char> = Vec::new();
    proof {
        lemma_scan_bounds(t@, 0, 0, 0);
    }
    match counter.count_brackets_return_content(t, line_iter_helper, &mut content) {
        Err(err) => {
            return Err(err);
        },
        Ok(()) => {},
    }
    proof {
        assert(content@ =~= t@.subrange(0, scan(t@, 0, 0, 0).0));
        if scan(t@, 0, 0, 0).0 >= t@.len() {
            assert(content@ =~= t@);
        }
    }
    let ghost outcome = match absorb(t@, rest0, 0, 0) {
        Gathered::Done(text, after) => Stepped::Entry(id@, text, after),
        Gathered::OverClosed(l) => Stepped::Failed(Failure::ClosedBeforeOpened(l)),
        Gathered::Unfinished => Stepped::Failed(Failure::UnexpectedEndOfInput),
    };
    assert(entry_step(line@, old(line_iter_helper)@, opts) == outcome);
    while !counter.equal_brackets()
        invariant
            entry_step(line@, old(line_iter_helper)@, opts) == outcome,
            outcome == match absorb(t@, rest0, 0, 0) {
                Gathered::Done(text, after) => Stepped::Entry(id@, text, after),
                Gathered::OverClosed(l) => Stepped::Failed(Failure::ClosedBeforeOpened(l)),
                Gathered::Unfinished => Stepped::Failed(Failure::UnexpectedEndOfInput),
            },
            line_iter_helper.wf(),
            counter.close <= counter.open,
            counter.open + counter.close <= content.len(),
            counter.open != counter.close ==> line_iter_helper.can_push_back(),
            absorb(t@, rest0, 0, 0) == if counter.open == counter.close {
                Gathered::Done(content@, line_iter_helper@)
            } else {
                glue(content@, absorb_rest(line_iter_helper@, counter.open as nat, counter.close as nat))
            },
        decreases if counter.open == counter.close {
            0
        } else {
            line_iter_helper@.len() + 1
        },
    {
        let next = match line_iter_helper.next() {
            None => {
                assert(absorb_rest(line_iter_helper@, counter.open as nat, counter.close as nat) == Gathered::Unfinished);
                return Err(BibError::UnexpectedEndOfInput);
            },
            Some(next) => next,
        };
        let ghost before = content@;
        let ghost counts = (counter.open as nat, counter.close as nat);
        let ghost rest = line_iter_helper@;
        content.push('\n');
        proof {
            lemma_scan_bounds(next@, 0, counts.0, counts.1);
        }
        match counter.count_brackets_return_content(next.as_str(), line_iter_helper, &mut content) {
            Err(err) => {
                return Err(err);
            },
            Ok(()) => {},
        }
        proof {
            let stop = scan(next@, 0, counts.0, counts.1).0;
            assert(content@ =~= before + seq!['\n'] + next@.subrange(0, stop));
            if stop >= next@.len() {
                assert(next@.subrange(0, stop) =~= next@);
                lemma_glue_glue(before, next@, absorb_rest(rest, counter.open as nat, counter.close as nat));
            }
        }
    }
    Ok(Some(BibEntry { id, content: string_of(&content) }))
}

/// Cuts the lines of a bibliography into entries. Blank lines between entries are
/// skipped; every other line outside an entry must start one.
pub fn parse_entries(lines: Vec<String>, opts: ParseOptions) -> (r: Result<Vec<BibEntry>, BibError>)
    ensures
        match parse_all(line_views(lines@), opts) {
            Ok(es) => r matches Ok(v) && entry_views(v@) == es,
            Err(f) => r matches Err(e) && reports(e, f),
        },
{
    let ghost all = line_views(lines@);
    let mut line_iter_helper = LineIterHelper::new(lines);
    let mut entries: Vec<BibEntry> = Vec::new();
    loop
        invariant
            line_iter_helper.wf(),
            all == line_views(lines@),
            parse_all(all, opts) == match parse_all(line_iter_helper@, opts) {
                Ok(es) => Ok(entry_views(entries@) + es),
                Err(f) => Err(f),
            },
        decreases supply_size(line_iter_helper@),
    {
        let ghost supply = line_iter_helper@;
        let line = match line_iter_helper.next() {
            None => {
                proof {
                    assert(parse_all(line_iter_helper@, opts) == Ok::<Seq<(Seq<char>, Seq<char>)>, Failure>(Seq::empty()));
                    assert(entry_views(entries@) + Seq::empty()
                        =~= entry_views(entries@));
                    assert(parse_all(all, opts) == Ok::<Seq<(Seq<char>, Seq<char>)>, Failure>(entry_views(entries@)));
                    assert(all == line_views(lines@));
                }
                return Ok(entries);
            },
            Some(line) => line,
        };
        let ghost rest = line_iter_helper@;
        proof {
            lemma_step_shrinks(supply, opts);
            assert(supply[0] == line@ && supply.drop_first() == rest);
            assert(parse_all(supply, opts) == match entry_step(line@, rest, opts) {
                Stepped::Blank => parse_all(rest, opts),
                Stepped::Entry(key, text, after) => match parse_all(after, opts) {
                    Ok(es) => Ok(seq![(key, text)] + es),
                    Err(f) => Err(f),
                },
                Stepped::Failed(f) => Err(f),
            });
        }
        match read_entry(line.as_str(), &mut line_iter_helper, opts) {
            Err(e) => {
                return Err(e);
            },
            Ok(None) => {},
            Ok(Some(entry)) => {
                let ghost done = entry_views(entries@);
                entries.push(entry);
                proof {
                    let now = entry_views(entries@);
                    assert(now =~= done + seq![(entry.id@, entry.content@)]);
                    if let Ok(es) = parse_all(line_iter_helper@, opts) {
                        assert(done + (seq![(entry.id@, entry.content@)] + es) =~= now + es);
                    }
                }
            },
        }
    }
}

} // verus!
