//! Extraction of delimited field values and removal of their decoration.
use vstd::prelude::*;
use crate::text::{chars_of, string_of};

verus! {

/// Where the field extractor stands: outside any delimiter, inside braces of the given
/// depth, or inside single or double quotes.
#[derive(Debug, Clone, Copy, PartialEq, Eq)]
pub enum BracketOrQuote {
    Unopened,
    OpenBracket(usize),
    SingleQuote,
    DoubleQuote,
}

/// Characters that open a delimited value.
pub open spec fn is_opening(c: char) -> bool {
    c == '{' || c == '\'' || c == '"'
}

/// The character that closes a value opened by `c`.
pub open spec fn closing_of(c: char) -> char {
    if c == '{' { '}' } else { c }
}

/// Index of the first unescaped opening delimiter at or after `i`; a backslash escapes
/// the character after it.
pub open spec fn delim_start(s: Seq<char>, i: int) -> Option<int>
    decreases s.len() - i,
{
    if i < 0 || i >= s.len() {
        None
    } else if s[i] == '\\' {
        if i + 2 <= s.len() { delim_start(s, i + 2) } else { None }
    } else if is_opening(s[i]) {
        Some(i)
    } else {
        delim_start(s, i + 1)
    }
}

/// Index just past the unescaped character that closes a value, scanning from `i`.
/// For braces (`close == '}'`) `depth` is the current nesting depth; quotes do not nest.
pub open spec fn delim_end(s: Seq<char>, i: int, depth: int, close: char) -> Option<int>
    decreases s.len() - i,
{
    if i < 0 || i >= s.len() {
        None
    } else if s[i] == '\\' {
        if i + 2 <= s.len() { delim_end(s, i + 2, depth, close) } else { None }
    } else if close == '}' {
        if s[i] == '{' {
            delim_end(s, i + 1, depth + 1, close)
        } else if s[i] == '}' {
            if depth <= 1 { Some(i + 1) } else { delim_end(s, i + 1, depth - 1, close) }
        } else {
            delim_end(s, i + 1, depth, close)
        }
    } else if s[i] == close {
        Some(i + 1)
    } else {
        delim_end(s, i + 1, depth, close)
    }
}

/// The span of the first delimited value of `s`, delimiters included, if one is opened
/// and closed.
pub open spec fn delimited_span(s: Seq<char>) -> Option<(int, int)> {
    match delim_start(s, 0) {
        Some(a) => match delim_end(s, a + 1, 1, closing_of(s[a])) {
            Some(b) => Some((a, b)),
            None => None,
        },
        None => None,
    }
}

/// The value of a field whose text starts at `s`: the first delimited value with its
/// delimiters, or all of `s` where no value is opened and closed.
pub open spec fn field_value(s: Seq<char>) -> Seq<char> {
    match delimited_span(s) {
        Some((a, b)) => s.subrange(a, b),
        None => s,
    }
}

proof fn lemma_delim_start_bounds(s: Seq<char>, i: int)
    requires
        0 <= i,
    ensures
        delim_start(s, i) matches Some(a) ==> i <= a < s.len() && is_opening(s[a]),
    decreases s.len() - i,
{
    if i < s.len() {
        if s[i] == '\\' {
            if i + 2 <= s.len() {
                lemma_delim_start_bounds(s, i + 2);
            }
        } else if !is_opening(s[i]) {
            lemma_delim_start_bounds(s, i + 1);
        }
    }
}

proof fn lemma_delim_end_bounds(s: Seq<char>, i: int, depth: int, close: char)
    requires
        0 <= i,
    ensures
        delim_end(s, i, depth, close) matches Some(b) ==> i < b <= s.len(),
    decreases s.len() - i,
{
    if i < s.len() {
        if s[i] == '\\' {
            if i + 2 <= s.len() {
                lemma_delim_end_bounds(s, i + 2, depth, close);
            }
        } else if close == '}' {
            if s[i] == '{' {
                lemma_delim_end_bounds(s, i + 1, depth + 1, close);
            } else if s[i] == '}' {
                if depth > 1 {
                    lemma_delim_end_bounds(s, i + 1, depth - 1, close);
                }
            } else {
                lemma_delim_end_bounds(s, i + 1, depth, close);
            }
        } else if s[i] != close {
            lemma_delim_end_bounds(s, i + 1, depth, close);
        }
    }
}

/// The span of the first delimited value lies within the text.
pub proof fn lemma_delimited_span_bounds(s: Seq<char>)
    ensures
        delimited_span(s) matches Some((a, b)) ==> 0 <= a < b <= s.len(),
{
    lemma_delim_start_bounds(s, 0);
    if let Some(a) = delim_start(s, 0) {
        lemma_delim_end_bounds(s, a + 1, 1, closing_of(s[a]));
    }
}

/// Cuts the value of a field out of the text that follows its `=`: the first value
/// delimited by braces (nested braces counted), single or double quotes, delimiters
/// included. A backslash escapes the character after it, which then never opens or
/// closes a value. Where no value is opened and closed, the whole text is returned.
pub fn first_author_field_content(field: &str) -> (r: &str)
    ensures
        r@ == field_value(field@),
{
    let s = chars_of(field);
    let n = s.len();
    let mut state = BracketOrQuote::Unopened;
    let mut start: usize = 0;
    let mut i: usize = 0;
    let mut end: usize = 0;
    let mut found = false;
    while i < n
        invariant
            n == s@.len(),
            s@ == field@,
            i <= n,
            found ==> i == n && delimited_span(s@) == Some((start as int, end as int)) && start < end <= n,
            !found && (state matches BracketOrQuote::Unopened) ==> delim_start(s@, 0) == delim_start(s@, i as int),
            !found && !(state matches BracketOrQuote::Unopened) ==> {
                &&& delim_start(s@, 0) == Some(start as int)
                &&& start < i
                &&& delimited_span(s@) == match delim_end(s@, i as int,
                    match state { BracketOrQuote::OpenBracket(d) => d as int, _ => 1 },
                    closing_of(s@[start as int])) {
                    Some(b) => Some((start as int, b)),
                    None => None,
                }
            },
            state matches BracketOrQuote::OpenBracket(d) ==> 1 <= d <= i && s@[start as int]
                == '{',
            state matches BracketOrQuote::SingleQuote ==> s@[start as int] == '\'',
            state matches BracketOrQuote::DoubleQuote ==> s@[start as int] == '"',
        decreases n - i,
    {
        let c = s[i];
        if c == '\\' {
            if i + 1 < n {
                i = i + 2;
            } else {
                i = n;
            }
            continue;
        }
        match state {
            BracketOrQuote::Unopened => {
                start = i;
                if c == '{' {
                    state = BracketOrQuote::OpenBracket(1);
                } else if c == '\'' {
                    state = BracketOrQuote::SingleQuote;
                } else if c == '"' {
                    state = BracketOrQuote::DoubleQuote;
                }
            },
            BracketOrQuote::OpenBracket(d) => {
                if c == '{' {
                    state = BracketOrQuote::OpenBracket(d + 1);
                } else if c == '}' {
                    if d == 1 {
                        end = i + 1;
                        found = true;
                    } else {
                        state = BracketOrQuote::OpenBracket(d - 1);
                    }
                }
            },
            BracketOrQuote::SingleQuote => {
                if c == '\'' {
                    end = i + 1;
                    found = true;
                }
            },
            BracketOrQuote::DoubleQuote => {
                if c == '"' {
                    end = i + 1;
                    found = true;
                }
            },
        }
        if found {
            i = n;
        } else {
            i = i + 1;
        }
    }
    proof {
        lemma_delimited_span_bounds(s@);
    }
    if found {
        field.substring_char(start, end)
    } else {
        field
    }
}

} // verus!
