//! The first author of an entry, cleaned of decoration and optionally reordered.
use vstd::prelude::*;
use crate::error::BibError;
use crate::field::{delim_end, delim_start, field_value, first_author_field_content};
use crate::lines::scan;
use crate::pattern::{find_match, leftmost_match};
use crate::text::{chars_of, find_char, find_char_from, lemma_find_char, string_of, trim, trimmed};

verus! {

/// Where the author field's value starts: the word `author`, any case, then `=`.
pub const AUTHOR_POSITION: &'static str = "(?i)\\bauthor\\s*=\\s*";

/// The separator between authors: the word `and`, in any case.
pub const AND_WORD: &'static str = "(?i)\\band\\b";

/// Characters that decorate a field value and are removed by cleaning.
pub open spec fn is_decoration(c: char) -> bool {
    c == '{' || c == '}' || c == '\'' || c == '"'
}

/// `s` without its unescaped braces and quotes. A backslash escapes the next character,
/// which is kept; the backslash itself is kept only when `keep_escapes` holds.
pub open spec fn cleaned(s: Seq<char>, keep_escapes: bool) -> Seq<char>
    decreases s.len(),
{
    if s.len() == 0 {
        s
    } else if s[0] == '\\' {
        let mark = if keep_escapes { seq!['\\'] } else { Seq::empty() };
        if s.len() == 1 {
            mark
        } else {
            mark + seq![s[1]] + cleaned(s.subrange(2, s.len() as int), keep_escapes)
        }
    } else if is_decoration(s[0]) {
        cleaned(s.drop_first(), keep_escapes)
    } else {
        seq![s[0]] + cleaned(s.drop_first(), keep_escapes)
    }
}

fn clean(s: &str, keep_escapes: bool) -> (r: String)
    ensures
        r@ == cleaned(s@, keep_escapes),
{
    let v = chars_of(s);
    let n = v.len();
    let mut out: Vec<char> = Vec::new();
    let mut i: usize = 0;
    proof {
        assert(v@.subrange(0, n as int) =~= v@);
    }
    while i < n
        invariant
            v@ == s@,
            n == v@.len(),
            i <= n,
            cleaned(s@, keep_escapes) == out@ + cleaned(v@.subrange(i as int, n as int), keep_escapes),
        decreases n - i,
    {
        let ghost rest = v@.subrange(i as int, n as int);
        let ghost out0 = out@;
        let c = v[i];
        if c == '\\' {
            if keep_escapes {
                out.push('\\');
            }
            if i + 1 < n {
                out.push(v[i + 1]);
                proof {
                    assert(rest.subrange(2, rest.len() as int) =~= v@.subrange(i + 2, n as int));
                }
                i = i + 2;
            } else {
                proof {
                    assert(v@.subrange(n as int, n as int) =~= Seq::<char>::empty());
                }
                i = n;
            }
        } else {
            if !(c == '{' || c == '}' || c == '\'' || c == '"') {
                out.push(c);
            }
            proof {
                assert(rest.drop_first() =~= v@.subrange(i + 1, n as int));
            }
            i = i + 1;
        }
        proof {
            let next = cleaned(v@.subrange(i as int, n as int), keep_escapes);
            assert(cleaned(rest, keep_escapes) == out@.subrange(out0.len() as int, out@.len() as int) + next);
            assert(out0 + (out@.subrange(out0.len() as int, out@.len() as int) + next) =~= out@ + next);
        }
    }
    proof {
        assert(v@.subrange(n as int, n as int) =~= Seq::<char>::empty());
        assert(out@ + Seq::<char>::empty() =~= out@);
    }
    string_of(&out)
}

/// A backslash and the character it escapes count for nothing when braces are balanced
/// or a value is delimited, and cleaning keeps the escaped character as it is: with
/// the backslash where escapes are kept, without it where decoration is stripped.
pub proof fn lemma_escape_skipped(s: Seq<char>, i: int, depth: int, close: char, opened: nat, closed: nat)
    requires
        0 <= i,
        i + 2 <= s.len(),
        s[i] == '\\',
    ensures
        delim_start(s, i) == delim_start(s, i + 2),
        delim_end(s, i, depth, close) == delim_end(s, i + 2, depth, close),
        scan(s, i, opened, closed) == scan(s, i + 2, opened, closed),
        cleaned(s.subrange(i, s.len() as int), false) == seq![s[i + 1]] + cleaned(
            s.subrange(i + 2, s.len() as int),
            false,
        ),
        cleaned(s.subrange(i, s.len() as int), true) == seq!['\\', s[i + 1]] + cleaned(
            s.subrange(i + 2, s.len() as int),
            true,
        ),
{
    let t = s.subrange(i, s.len() as int);
    assert(t.subrange(2, t.len() as int) =~= s.subrange(i + 2, s.len() as int));
    assert(Seq::<char>::empty() + seq![t[1]] =~= seq![t[1]]);
    assert(seq!['\\'] + seq![t[1]] =~= seq!['\\', t[1]]);
}

/// Removes unescaped braces and quotes from `s`. An escaped character is kept as it is,
/// and the backslash that escaped it is dropped.
pub fn clean_string(s: &str) -> (r: String)
    ensures
        r@ == cleaned(s@, false),
{
    clean(s, false)
}

/// Removes unescaped braces and quotes from `s`, keeping escaped characters together
/// with the backslash before them.
pub fn clean_string_keep_escapes(s: &str) -> (r: String)
    ensures
        r@ == cleaned(s@, true),
{
    clean(s, true)
}

/// The text of a first-author value up to the first separating `and`, if there is one.
pub open spec fn before_and(v: Seq<char>) -> Seq<char> {
    match leftmost_match(AND_WORD@, v) {
        Some((a, _)) => v.subrange(0, a),
        None => v,
    }
}

/// The first author of an entry's text: the value of its `author` field, cut before
/// the first `and`, cleaned and trimmed; empty where the entry has no `author` field.
pub open spec fn first_author_text(content: Seq<char>) -> Seq<char> {
    match leftmost_match(AUTHOR_POSITION@, content) {
        None => Seq::empty(),
        Some((_, e)) => trimmed(
            cleaned(before_and(field_value(content.subrange(e, content.len() as int))), false),
        ),
    }
}

/// A first-author name with "Last, First" turned into "First Last"; `None` where the
/// name holds more than one comma.
pub open spec fn reordered_name(t: Seq<char>) -> Option<Seq<char>> {
    match find_char(t, ',', 0) {
        None => Some(trimmed(t)),
        Some(k) => {
            let rest = t.subrange(k + 1, t.len() as int);
            if find_char(rest, ',', 0) is Some {
                None
            } else {
                Some(trimmed(rest) + seq![' '] + trimmed(t.subrange(0, k)))
            }
        },
    }
}

/// The first author named in the text of an entry, cleaned of braces and quotes and
/// trimmed of surrounding white space. Empty where the entry has no `author` field.
pub fn first_author_from_content(content: &str) -> (r: String)
    ensures
        r@ == first_author_text(content@),
{
    match find_match(AUTHOR_POSITION, content) {
        None => String::new(),
        Some(f) => {
            let value = first_author_field_content(f.after);
            let first = match find_match(AND_WORD, value) {
                Some(g) => g.before,
                None => value,
            };
            let cleaned_text = clean_string(first);
            trim(cleaned_text.as_str()).to_owned()
        },
    }
}

/// Turns a first author written "Last, First" into "First Last", after trimming white
/// space; a name without a comma is only trimmed. More than one comma is refused.
pub fn first_name_of(author: &str) -> (r: Result<String, BibError>)
    ensures
        r matches Ok(x) ==> reordered_name(trimmed(author@)) == Some(x@),
        r is Err <==> reordered_name(trimmed(author@)) is None,
        r matches Err(e) ==> e matches BibError::AmbiguousAuthor(a) && a@ == trimmed(author@),
{
    let t = trim(author);
    let v = chars_of(t);
    let n = v.len();
    proof {
        lemma_find_char(v@, ',', 0);
    }
    match find_char_from(&v, ',', 0) {
        None => Ok(string_of(&chars_of(trim(t)))),
        Some(k) => {
            let rest = t.substring_char(k + 1, n);
            let rv = chars_of(rest);
            match find_char_from(&rv, ',', 0) {
                Some(_) => Err(BibError::AmbiguousAuthor(string_of(&v))),
                None => {
                    let mut out = chars_of(trim(rest));
                    out.push(' ');
                    let mut last = chars_of(trim(t.substring_char(0, k)));
                    out.append(&mut last);
                    Ok(string_of(&out))
                },
            }
        },
    }
}

/// The first author of an entry with "Last, First" turned into "First Last". More than
/// one comma in the first author is refused.
pub fn first_author_first_name(content: &str) -> (r: Result<String, BibError>)
    ensures
        r matches Ok(x) ==> reordered_name(trimmed(first_author_text(content@))) == Some(x@),
        r is Err <==> reordered_name(trimmed(first_author_text(content@))) is None,
        r matches Err(e) ==> e is AmbiguousAuthor,
{
    let author = first_author_from_content(content);
    first_name_of(author.as_str())
}

} // verus!
