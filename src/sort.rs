//! Stable sorting of entries by precomputed keys.
use vstd::prelude::*;
use crate::author::{first_author_first_name, first_author_from_content, first_author_text, reordered_name};
use crate::entry::{folded, BibEntry};
use crate::error::BibError;
use crate::text::{chars_of, trimmed};
use crate::order::{less_than, lemma_text_lt_total, lemma_text_lt_transitive, lemma_text_lt_irreflexive, text_lt};

verus! {

/// Entry `i` goes before entry `j` when sorting stably by `keys`: its key is smaller, or
/// the keys are equal and it came first.
pub open spec fn before(keys: Seq<Seq<char>>, i: int, j: int) -> bool {
    text_lt(keys[i], keys[j]) || (keys[i] == keys[j] && i < j)
}

/// `idx` lists every position of `keys` once, in the order of a stable sort by the keys.
pub open spec fn is_stable_order(keys: Seq<Seq<char>>, idx: Seq<int>) -> bool {
    &&& idx.len() == keys.len()
    &&& forall|p: int| 0 <= p < idx.len() ==> 0 <= #[trigger] idx[p] < keys.len()
    &&& idx.no_duplicates()
    &&& forall|p: int, q: int|
        0 <= p < q < idx.len() ==> before(keys, #[trigger] idx[p], #[trigger] idx[q])
}

/// `out` holds the items of `items` in the order `idx`.
pub open spec fn arranged<T>(items: Seq<T>, idx: Seq<int>, out: Seq<T>) -> bool {
    &&& out.len() == idx.len()
    &&& forall|p: int| 0 <= p < out.len() ==> out[p] == items[#[trigger] idx[p]]
}

/// The texts of the given keys.
pub open spec fn key_views(keys: Seq<Vec<char>>) -> Seq<Seq<char>> {
    keys.map_values(|k: Vec<char>| k@)
}

/// `out` holds the entries of `items` in the order of a stable sort by `keys`.
pub open spec fn stably_sorted(items: Seq<BibEntry>, keys: Seq<Seq<char>>, out: Seq<BibEntry>) -> bool {
    exists|idx: Seq<int>| is_stable_order(keys, idx) && arranged(items, idx, out)
}

/// What entries are sorted by.
#[derive(Debug, Clone, Copy, PartialEq, Eq)]
pub enum SortBy {
    /// The entry's key.
    Key,
    /// The cleaned text of the first author.
    FirstAuthorField,
    /// The first author's name with the first name in front.
    FirstAuthorFirstName,
}

/// The sort key of an entry. Keys are folded when the entry is read, so `case_sensitive`
/// concerns the author-based keys only. A first author that cannot be reordered has the
/// empty key; sorting by first name refuses such entries.
pub open spec fn key_of(e: BibEntry, by: SortBy, case_sensitive: bool) -> Seq<char> {
    match by {
        SortBy::Key => e.id@,
        SortBy::FirstAuthorField => folded(first_author_text(e.content@), case_sensitive),
        SortBy::FirstAuthorFirstName => folded(
            match reordered_name(trimmed(first_author_text(e.content@))) {
                Some(name) => name,
                None => Seq::empty(),
            },
            case_sensitive,
        ),
    }
}

/// The sort keys of the given entries.
pub open spec fn keys_of(es: Seq<BibEntry>, by: SortBy, case_sensitive: bool) -> Seq<Seq<char>> {
    es.map_values(|e: BibEntry| key_of(e, by, case_sensitive))
}

/// Case handling of sort keys: keep them, or fold them to lower case.
#[derive(Debug, Clone, Copy)]
pub struct CaseFn {
    pub case_sensitive: bool,
}

impl CaseFn {
    /// `s` folded to lower case unless case matters.
    pub fn apply(&self, s: String) -> (r: String)
        ensures
            r@ == folded(s@, self.case_sensitive),
    {
        if self.case_sensitive {
            s
        } else {
            crate::text::lowercase(s.as_str())
        }
    }
}

/// The case handling that the option asks for.
pub fn get_string_case_fn(case_sensitive: bool) -> (r: CaseFn)
    ensures
        r.case_sensitive == case_sensitive,
{
    CaseFn { case_sensitive }
}

/// A copy of `e`.
pub fn copy_entry(e: &BibEntry) -> (r: BibEntry)
    ensures
        r == *e,
{
    BibEntry { id: e.id.clone(), content: e.content.clone() }
}

/// The entries in the order of a stable sort by `keys`, the key of `entries[i]` being
/// `keys[i]`; no entry is gained or lost.
pub fn sort_by_keys(entries: &Vec<BibEntry>, keys: &Vec<Vec<char>>) -> (r: Vec<BibEntry>)
    requires
        keys.len() == entries.len(),
    ensures
        exists|idx: Seq<int>| is_stable_order(key_views(keys@), idx) && arranged(entries@, idx, r@),
        r@.to_multiset() == entries@.to_multiset(),
{
    let ghost k = key_views(keys@);
    let n = entries.len();
    let mut order: Vec<usize> = Vec::new();
    let mut out: Vec<BibEntry> = Vec::new();
    let ghost mut idx: Seq<int> = Seq::empty();
    let mut i: usize = 0;
    proof {
        assert(out@ =~= entries@.take(0));
    }
    while i < n
        invariant
            n == entries.len(),
            n == keys.len(),
            k == key_views(keys@),
            i <= n,
            idx.len() == i,
            order@.len() == i,
            forall|p: int| 0 <= p < i ==> order@[p] as int == #[trigger] idx[p],
            forall|p: int| 0 <= p < i ==> 0 <= #[trigger] idx[p] < i,
            idx.no_duplicates(),
            forall|p: int, q: int| 0 <= p < q < i ==> before(k, #[trigger] idx[p], #[trigger] idx[q]),
            arranged(entries@, idx, out@),
            out@.to_multiset() == entries@.take(i as int).to_multiset(),
        decreases n - i,
    {
        let mut pos: usize = 0;
        assert forall|p: int| 0 <= p < i implies #[trigger] order@[p] < i by {
            assert(order@[p] as int == idx[p]);
        }
        while pos < i && !less_than(&keys[i], &keys[order[pos]])
            invariant
                i < n,
                n == keys.len(),
                k == key_views(keys@),
                order@.len() == i,
                idx.len() == i,
                forall|p: int| 0 <= p < i ==> order@[p] as int == #[trigger] idx[p],
                forall|p: int| 0 <= p < i ==> 0 <= #[trigger] idx[p] < i,
                pos <= i,
                forall|p: int| 0 <= p < i ==> #[trigger] order@[p] < i,
                forall|q: int| 0 <= q < pos ==> !text_lt(k[i as int], k[#[trigger] idx[q]]),
            decreases i - pos,
        {
            pos = pos + 1;
        }
        let e = copy_entry(&entries[i]);
        let ghost old_idx = idx;
        let ghost old_out = out@;
        proof {
            assert forall|p: int, q: int|
                0 <= p < q < i + 1 implies before(k, #[trigger] old_idx.insert(pos as int, i as int)[p],
                #[trigger] old_idx.insert(pos as int, i as int)[q]) by {
                let ni = old_idx.insert(pos as int, i as int);
                if p < pos && q == pos {
                    lemma_text_lt_total(k[i as int], k[old_idx[p]]);
                } else if p == pos && q > pos {
                    let first = old_idx[pos as int];
                    assert(text_lt(k[i as int], k[first]));
                    assert(ni[q] == old_idx[q - 1]);
                    if q - 1 > pos {
                        assert(before(k, old_idx[pos as int], old_idx[q - 1]));
                        if text_lt(k[first], k[old_idx[q - 1]]) {
                            lemma_text_lt_transitive(k[i as int], k[first], k[old_idx[q - 1]]);
                        }
                    }
                } else if p < pos && q < pos {
                    assert(ni[p] == old_idx[p] && ni[q] == old_idx[q]);
                } else if p < pos {
                    assert(ni[p] == old_idx[p] && ni[q] == old_idx[q - 1]);
                } else {
                    assert(ni[p] == old_idx[p - 1] && ni[q] == old_idx[q - 1]);
                }
            }
            idx = old_idx.insert(pos as int, i as int);
            assert(!old_idx.contains(i as int));
            assert(idx.no_duplicates()) by {
                assert forall|p: int, q: int| 0 <= p < idx.len() && 0 <= q < idx.len() && p != q
                    implies idx[p] != idx[q] by {
                    if p != pos as int && q != pos as int {
                        let op = if p < pos { p } else { p - 1 };
                        let oq = if q < pos { q } else { q - 1 };
                        assert(idx[p] == old_idx[op] && idx[q] == old_idx[oq]);
                    } else if p == pos as int {
                        let oq = if q < pos { q } else { q - 1 };
                        assert(idx[q] == old_idx[oq]);
                    } else {
                        let op = if p < pos { p } else { p - 1 };
                        assert(idx[p] == old_idx[op]);
                    }
                }
            }
        }
        let ghost old_order = order@;
        order.insert(pos, i);
        out.insert(pos, e);
        proof {
            vstd::seq_lib::to_multiset_insert(old_out, pos as int, e);
            assert(entries@.take(i + 1) =~= entries@.take(i as int).push(entries@[i as int]));
            vstd::seq_lib::to_multiset_build(entries@.take(i as int), entries@[i as int]);
            assert forall|p: int| 0 <= p < i + 1 implies order@[p] as int == #[trigger] idx[p] by {
                if p < pos {
                    assert(order@[p] == old_order[p] && idx[p] == old_idx[p]);
                } else if p > pos {
                    assert(order@[p] == old_order[p - 1] && idx[p] == old_idx[p - 1]);
                }
            }
            assert forall|p: int| 0 <= p < i + 1 implies 0 <= #[trigger] idx[p] < i + 1 by {
                if p < pos {
                    assert(idx[p] == old_idx[p]);
                } else if p > pos {
                    assert(idx[p] == old_idx[p - 1]);
                }
            }
            assert forall|p: int| 0 <= p < out@.len() implies out@[p] == entries@[#[trigger] idx[p]] by {
                if p < pos {
                    assert(idx[p] == old_idx[p] && out@[p] == old_out[p]);
                } else if p > pos {
                    assert(idx[p] == old_idx[p - 1] && out@[p] == old_out[p - 1]);
                }
            }
        }
        i = i + 1;
    }
    proof {
        assert(entries@.take(n as int) =~= entries@);
        assert(is_stable_order(k, idx));
    }
    out
}

/// Sorts the entries stably by their keys.
pub fn sort_by_key(entries: &mut Vec<BibEntry>)
    ensures
        stably_sorted(old(entries)@, keys_of(old(entries)@, SortBy::Key, false), final(entries)@),
        final(entries)@.to_multiset() == old(entries)@.to_multiset(),
{
    let mut keys: Vec<Vec<char>> = Vec::new();
    for i in 0..entries.len()
        invariant
            keys.len() == i,
            forall|j: int| 0 <= j < i ==> (#[trigger] keys@[j])@ == key_of(entries@[j], SortBy::Key, false),
    {
        keys.push(chars_of(entries[i].id.as_str()));
    }
    let sorted = sort_by_keys(entries, &keys);
    proof {
        assert(key_views(keys@) =~= keys_of(entries@, SortBy::Key, false));
    }
    *entries = sorted;
}

/// Sorts the entries stably by the cleaned text of their first author, folded by
/// `case_fn`.
pub fn sort_by_first_author_field(to_sort: &mut Vec<BibEntry>, case_fn: CaseFn)
    ensures
        stably_sorted(
            old(to_sort)@,
            keys_of(old(to_sort)@, SortBy::FirstAuthorField, case_fn.case_sensitive),
            final(to_sort)@,
        ),
        final(to_sort)@.to_multiset() == old(to_sort)@.to_multiset(),
{
    let mut keys: Vec<Vec<char>> = Vec::new();
    for i in 0..to_sort.len()
        invariant
            keys.len() == i,
            forall|j: int|
                0 <= j < i ==> (#[trigger] keys@[j])@ == key_of(
                    to_sort@[j],
                    SortBy::FirstAuthorField,
                    case_fn.case_sensitive,
                ),
    {
        let k = case_fn.apply(first_author_from_content(to_sort[i].content.as_str()));
        keys.push(chars_of(k.as_str()));
    }
    let sorted = sort_by_keys(to_sort, &keys);
    proof {
        assert(key_views(keys@) =~= keys_of(to_sort@, SortBy::FirstAuthorField, case_fn.case_sensitive));
    }
    *to_sort = sorted;
}

/// Sorts the entries stably by their first author's name, first name in front, folded by
/// `case_fn`. Where a first author holds more than one comma nothing is sorted and that
/// error is returned.
pub fn sort_by_first_author_first_name(to_sort: &mut Vec<BibEntry>, case_fn: CaseFn) -> (r: Result<
    (),
    BibError,
>)
    ensures
        r is Ok <==> forall|j: int|
            0 <= j < old(to_sort)@.len() ==> reordered_name(
                trimmed(first_author_text((#[trigger] old(to_sort)@[j]).content@)),
            ) is Some,
        r is Ok ==> stably_sorted(
            old(to_sort)@,
            keys_of(old(to_sort)@, SortBy::FirstAuthorFirstName, case_fn.case_sensitive),
            final(to_sort)@,
        ),
        r is Ok ==> final(to_sort)@.to_multiset() == old(to_sort)@.to_multiset(),
        r is Err ==> final(to_sort)@ == old(to_sort)@,
        r matches Err(e) ==> e is AmbiguousAuthor,
{
    let mut keys: Vec<Vec<char>> = Vec::new();
    for i in 0..to_sort.len()
        invariant
            keys.len() == i,
            forall|j: int|
                0 <= j < i ==> (#[trigger] keys@[j])@ == key_of(
                    to_sort@[j],
                    SortBy::FirstAuthorFirstName,
                    case_fn.case_sensitive,
                ),
            forall|j: int|
                0 <= j < i ==> reordered_name(
                    trimmed(first_author_text((#[trigger] to_sort@[j]).content@)),
                ) is Some,
    {
        match first_author_first_name(to_sort[i].content.as_str()) {
            Err(e) => {
                return Err(e);
            },
            Ok(name) => {
                let k = case_fn.apply(name);
                keys.push(chars_of(k.as_str()));
            },
        }
    }
    let sorted = sort_by_keys(to_sort, &keys);
    proof {
        assert(key_views(keys@) =~= keys_of(to_sort@, SortBy::FirstAuthorFirstName, case_fn.case_sensitive));
    }
    *to_sort = sorted;
    Ok(())
}

/// After a stable sort the keys of the entries, taken in their new order, never decrease.
pub proof fn lemma_sorted_keys_in_order(
    items: Seq<BibEntry>,
    by: SortBy,
    case_sensitive: bool,
    out: Seq<BibEntry>,
)
    requires
        stably_sorted(items, keys_of(items, by, case_sensitive), out),
    ensures
        forall|p: int, q: int|
            0 <= p < q < out.len() ==> !text_lt(
                key_of(#[trigger] out[q], by, case_sensitive),
                key_of(#[trigger] out[p], by, case_sensitive),
            ),
{
    let keys = keys_of(items, by, case_sensitive);
    let idx = choose|idx: Seq<int>| is_stable_order(keys, idx) && arranged(items, idx, out);
    assert forall|p: int, q: int| 0 <= p < q < out.len() implies !text_lt(
        key_of(#[trigger] out[q], by, case_sensitive),
        key_of(#[trigger] out[p], by, case_sensitive),
    ) by {
        assert(before(keys, idx[p], idx[q]));
        assert(key_of(out[p], by, case_sensitive) == keys[idx[p]]);
        assert(key_of(out[q], by, case_sensitive) == keys[idx[q]]);
        lemma_text_lt_total(keys[idx[p]], keys[idx[q]]);
        lemma_text_lt_irreflexive(keys[idx[p]]);
    }
}

proof fn lemma_increasing_is_identity(idx: Seq<int>, n: int)
    requires
        idx.len() == n,
        forall|p: int| 0 <= p < n ==> 0 <= #[trigger] idx[p] < n,
        forall|p: int, q: int| 0 <= p < q < n ==> #[trigger] idx[p] < #[trigger] idx[q],
    ensures
        forall|p: int| 0 <= p < n ==> #[trigger] idx[p] == p,
{
    assert forall|p: int| 0 <= p < n implies #[trigger] idx[p] == p by {
        lemma_at_least(idx, n, p);
        lemma_at_most(idx, n, p);
    }
}

proof fn lemma_at_least(idx: Seq<int>, n: int, p: int)
    requires
        idx.len() == n,
        0 <= p < n,
        forall|p: int| 0 <= p < n ==> 0 <= #[trigger] idx[p] < n,
        forall|p: int, q: int| 0 <= p < q < n ==> #[trigger] idx[p] < #[trigger] idx[q],
    ensures
        idx[p] >= p,
    decreases p,
{
    if p > 0 {
        lemma_at_least(idx, n, p - 1);
        assert(idx[p - 1] < idx[p]);
    }
}

proof fn lemma_at_most(idx: Seq<int>, n: int, p: int)
    requires
        idx.len() == n,
        0 <= p < n,
        forall|p: int| 0 <= p < n ==> 0 <= #[trigger] idx[p] < n,
        forall|p: int, q: int| 0 <= p < q < n ==> #[trigger] idx[p] < #[trigger] idx[q],
    ensures
        idx[p] <= p,
    decreases n - p,
{
    if p < n - 1 {
        lemma_at_most(idx, n, p + 1);
        assert(idx[p] < idx[p + 1]);
    }
}

/// Sorting again, by the same key and options, what a stable sort put out changes
/// nothing.
pub proof fn lemma_sort_idempotent(
    items: Seq<BibEntry>,
    by: SortBy,
    case_sensitive: bool,
    once: Seq<BibEntry>,
    twice: Seq<BibEntry>,
)
    requires
        stably_sorted(items, keys_of(items, by, case_sensitive), once),
        stably_sorted(once, keys_of(once, by, case_sensitive), twice),
    ensures
        twice == once,
{
    lemma_sorted_keys_in_order(items, by, case_sensitive, once);
    let keys = keys_of(once, by, case_sensitive);
    let idx = choose|idx: Seq<int>| is_stable_order(keys, idx) && arranged(once, idx, twice);
    let n = once.len() as int;
    assert forall|p: int, q: int| 0 <= p < q < n implies #[trigger] idx[p] < #[trigger] idx[q] by {
        assert(before(keys, idx[p], idx[q]));
        if idx[q] < idx[p] {
            assert(!text_lt(key_of(once[idx[p]], by, case_sensitive), key_of(once[idx[q]], by, case_sensitive)));
        }
        assert(idx[p] != idx[q]);
    }
    lemma_increasing_is_identity(idx, n);
    assert(keys.len() == n);
    assert forall|p: int| 0 <= p < n implies twice[p] == once[p] by {
        assert(twice[p] == once[idx[p]]);
    }
    assert(twice =~= once);
}

} // verus!
