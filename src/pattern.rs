//! Regular-expression lookups, through the `regex` crate.
use vstd::prelude::*;

verus! {

/// The span, counted in characters, of the leftmost-first match of `pattern` in `hay`
/// as `regex::Regex::find` reports it; `None` where nothing matches or the pattern does
/// not compile.
pub uninterp spec fn leftmost_match(pattern: Seq<char>, hay: Seq<char>) -> Option<(int, int)>;

/// A matched pattern: the text before the match, the match, and the text after it.
pub struct Found<'a> {
    pub before: &'a str,
    pub matched: &'a str,
    pub after: &'a str,
}

/// The split of `hay` that the match `m` describes.
pub open spec fn split_at_match(hay: Seq<char>, m: Option<(int, int)>, r: Option<Found>) -> bool {
    match m {
        None => r is None,
        Some((a, b)) => r matches Some(f) && 0 <= a <= b <= hay.len() && f.before@ == hay.subrange(0, a)
            && f.matched@ == hay.subrange(a, b) && f.after@ == hay.subrange(b, hay.len() as int),
    }
}

/// Relies on regex::Regex::new and regex::Regex::find: the leftmost-first match of the
/// pattern in the text, cut out of it at the match's boundaries.
#[verifier::external_body]
pub(crate) fn find_match<'a>(pattern: &str, hay: &'a str) -> (r: Option<Found<'a>>)
    ensures
        split_at_match(hay@, leftmost_match(pattern@, hay@), r),
{
    let re = regex::Regex::new(pattern).ok()?;
    let m = re.find(hay)?;
    Some(Found { before: &hay[..m.start()], matched: m.as_str(), after: &hay[m.end()..] })
}

} // verus!
