//! The line supply with one line of pushback, and the brace balancer that cuts an entry
//! out of it.
use vstd::prelude::*;
use crate::error::BibError;
use crate::text::{chars_of, string_of};

verus! {

/// The texts of the given lines.
pub open spec fn line_views(lines: Seq<String>) -> Seq<Seq<char>> {
    lines.map_values(|l: String| l@)
}

/// A source of lines that can take back one line, which it then hands out first.
pub struct LineIterHelper {
    line_iter: Vec<String>,
    pos: usize,
    leftover: Option<String>,
}

impl View for LineIterHelper {
    type V = Seq<Seq<char>>;

    /// The lines still to come, a pushed-back line first.
    closed spec fn view(&self) -> Seq<Seq<char>> {
        let rest = self.line_iter@.subrange(self.pos as int, self.line_iter@.len() as int).map_values(
            |l: String| l@,
        );
        match self.leftover {
            Some(l) => seq![l@] + rest,
            None => rest,
        }
    }
}

impl LineIterHelper {
    /// The position lies within the lines.
    pub closed spec fn wf(&self) -> bool {
        self.pos <= self.line_iter.len()
    }

    /// No line has been pushed back since the last one was handed out.
    pub closed spec fn can_push_back(&self) -> bool {
        self.leftover is None
    }

    /// A supply of the given lines, in order.
    pub fn new(line_iter: Vec<String>) -> (r: Self)
        ensures
            r.wf(),
            r.can_push_back(),
            r@ == line_views(line_iter@),
    {
        let r = Self { leftover: None, line_iter, pos: 0 };
        proof {
            assert(r.line_iter@.subrange(0, r.line_iter@.len() as int) =~= r.line_iter@);
        }
        r
    }

    /// The next line: the pushed-back one if there is one, else the next of the source.
    pub fn next(&mut self) -> (r: Option<String>)
        requires
            old(self).wf(),
        ensures
            final(self).wf(),
            final(self).can_push_back(),
            old(self)@.len() == 0 ==> r is None && final(self)@ == old(self)@,
            old(self)@.len() > 0 ==> (r matches Some(l) && l@ == old(self)@[0] && final(self)@
                == old(self)@.drop_first()),
    {
        match self.leftover.take() {
            Some(l) => {
                proof {
                    assert(self@ =~= old(self)@.drop_first());
                }
                Some(l)
            },
            None => {
                if self.pos < self.line_iter.len() {
                    let l = self.line_iter[self.pos].clone();
                    self.pos = self.pos + 1;
                    proof {
                        assert(self@ =~= old(self)@.drop_first());
                    }
                    Some(l)
                } else {
                    None
                }
            },
        }
    }

    /// Returns `l` to the supply, to be handed out next.
    pub fn push_back(&mut self, l: String)
        requires
            old(self).wf(),
            old(self).can_push_back(),
        ensures
            final(self).wf(),
            !final(self).can_push_back(),
            final(self)@ == seq![l@] + old(self)@,
    {
        self.leftover = Some(l);
    }
}

/// Where scanning `s` from index `i` with the given brace counts stops: just after the
/// `}` that balances the braces or closes more than were opened, else at the end. A
/// backslash escapes the next character, which is not counted. Returns that index and
/// the counts there.
pub open spec fn scan(s: Seq<char>, i: int, open: nat, close: nat) -> (int, nat, nat)
    decreases s.len() - i,
{
    if i < 0 || i >= s.len() {
        (s.len() as int, open, close)
    } else if s[i] == '\\' {
        if i + 2 <= s.len() {
            scan(s, i + 2, open, close)
        } else {
            (s.len() as int, open, close)
        }
    } else if s[i] == '{' {
        scan(s, i + 1, open + 1, close)
    } else if s[i] == '}' {
        if close + 1 >= open {
            (i + 1, open, close + 1)
        } else {
            scan(s, i + 1, open, close + 1)
        }
    } else {
        scan(s, i + 1, open, close)
    }
}

pub(crate) proof fn lemma_scan_bounds(s: Seq<char>, i: int, open: nat, close: nat)
    requires
        0 <= i <= s.len(),
    ensures
        i <= scan(s, i, open, close).0 <= s.len(),
        scan(s, i, open, close).0 < s.len() ==> scan(s, i, open, close).2 >= scan(s, i, open, close).1
            && scan(s, i, open, close).0 > i,
        close <= open ==> scan(s, i, open, close).2 <= scan(s, i, open, close).1 + 1,
        close <= open && scan(s, i, open, close).0 < s.len() ==> scan(s, i, open, close).2 >= scan(s, i, open, close).1,
    decreases s.len() - i,
{
    if i < s.len() {
        if s[i] == '\\' {
            if i + 2 <= s.len() {
                lemma_scan_bounds(s, i + 2, open, close);
            }
        } else if s[i] == '{' {
            lemma_scan_bounds(s, i + 1, open + 1, close);
        } else if s[i] == '}' {
            if close + 1 < open {
                lemma_scan_bounds(s, i + 1, open, close + 1);
            }
        } else {
            lemma_scan_bounds(s, i + 1, open, close);
        }
    }
}

/// Counts of the opening and closing braces of the entry being read.
#[derive(Clone, Copy, Debug, Default)]
pub struct BracketCounter {
    pub open: usize,
    pub close: usize,
}

impl BracketCounter {
    /// A counter that has seen no brace.
    pub fn fresh() -> (r: Self)
        ensures
            r.open == 0 && r.close == 0,
    {
        BracketCounter { open: 0, close: 0 }
    }

    /// As many braces were closed as opened.
    pub fn equal_brackets(&self) -> (r: bool)
        ensures
            r == (self.open == self.close),
    {
        self.open == self.close
    }

    /// Scans `s`, counting its unescaped braces, and appends what belongs to the entry to
    /// `content`: all of `s`, or its part up to the `}` that balances the entry, in which
    /// case the rest of `s`, if any, goes back to the supply. A `}` that closes more
    /// braces than were opened is refused.
    pub fn count_brackets_return_content(
        &mut self,
        s: &str,
        line_iter_helper: &mut LineIterHelper,
        content: &mut Vec<char>,
    ) -> (r: Result<(), BibError>)
        requires
            old(self).open + old(self).close <= old(content).len(),
            old(self).close <= old(self).open,
            old(line_iter_helper).wf(),
            old(line_iter_helper).can_push_back(),
        ensures
            ({
                let (stop, o, c) = scan(s@, 0, old(self).open as nat, old(self).close as nat);
                &&& final(line_iter_helper).wf()
                &&& c > o ==> (r matches Err(e) && (e matches BibError::ClosedBeforeOpened(l)
                    && l@ == s@))
                &&& c <= o ==> {
                    &&& r is Ok
                    &&& final(self).open == o
                    &&& final(self).close == c
                    &&& final(self).open + final(self).close <= final(content).len()
                    &&& final(content)@ == old(content)@ + s@.subrange(0, stop)
                    &&& final(line_iter_helper).wf()
                    &&& stop < s@.len() ==> final(line_iter_helper)@ == seq![
                        s@.subrange(stop, s@.len() as int),
                    ] + old(line_iter_helper)@
                    &&& stop >= s@.len() ==> final(line_iter_helper)@ == old(line_iter_helper)@
                        && final(line_iter_helper).can_push_back()
                }
            }),
    {
        let v = chars_of(s);
        let n = v.len();
        let mut i: usize = 0;
        let ghost start_content = content@;
        proof {
            lemma_scan_bounds(s@, 0, self.open as nat, self.close as nat);
        }
        while i < n
            invariant
                v@ == s@,
                n == v@.len(),
                i <= n,
                self.close <= self.open,
                self.open + self.close <= content.len(),
                content@ == start_content + s@.subrange(0, i as int),
                start_content == old(content)@,
                scan(s@, 0, old(self).open as nat, old(self).close as nat) == scan(
                    s@,
                    i as int,
                    self.open as nat,
                    self.close as nat,
                ),
                line_iter_helper.wf(),
                line_iter_helper.can_push_back(),
                line_iter_helper@ == old(line_iter_helper)@,
            decreases n - i,
        {
            let c = v[i];
            content.push(c);
            let pushed = content.len();
            if c == '\\' {
                if i + 1 < n {
                    content.push(v[i + 1]);
                    i = i + 2;
                } else {
                    i = n;
                }
            } else if c == '{' {
                self.open = self.open + 1;
                i = i + 1;
            } else if c == '}' {
                if self.close + 1 >= self.open {
                    self.close = self.close + 1;
                    proof {
                        assert(content@ =~= start_content + s@.subrange(0, i + 1));
                    }
                    if self.close > self.open {
                        return Err(BibError::ClosedBeforeOpened(string_of(&v)));
                    }
                    if i + 1 < n {
                        let rest = s.substring_char(i + 1, n);
                        line_iter_helper.push_back(rest.to_owned());
                    }
                    return Ok(());
                }
                self.close = self.close + 1;
                i = i + 1;
            } else {
                i = i + 1;
            }
            proof {
                assert(content@ =~= start_content + s@.subrange(0, i as int));
            }
        }
        proof {
            assert(s@.subrange(0, n as int) =~= s@);
        }
        Ok(())
    }
}

} // verus!
