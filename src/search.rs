//! Line search over a text, case-sensitive or case-insensitive.

use vstd::prelude::*;

use crate::text::{contains, has_substring, lines, lines_of, occurs_at, views_of};

verus! {

/// The lowercase form of a text, as `str::to_lowercase` computes it.
pub uninterp spec fn lower_of(s: Seq<char>) -> Seq<char>;

/// Relies on `str::to_lowercase`: the locale-independent lowercase mapping,
/// whose result depends on the characters of the text alone.
#[verifier::external_body]
fn lowercase(s: &str) -> (r: String)
    ensures
        r@ == lower_of(s@),
{
    s.to_lowercase()
}

/// The lines among `ls` that hold `query`, in their order.
pub open spec fn selected(query: Seq<char>, ls: Seq<Seq<char>>) -> Seq<Seq<char>> {
    ls.filter(|l: Seq<char>| has_substring(l, query))
}

/// The lines among `ls` whose lowercase form holds `folded_query`, in their
/// order.
pub open spec fn selected_folded(folded_query: Seq<char>, ls: Seq<Seq<char>>) -> Seq<Seq<char>> {
    ls.filter(|l: Seq<char>| has_substring(lower_of(l), folded_query))
}

/// The lines of `contents` that hold `query`, compared exactly.
pub open spec fn matching_lines(query: Seq<char>, contents: Seq<char>) -> Seq<Seq<char>> {
    selected(query, lines_of(contents))
}

/// The lines of `contents` that hold `query` when both are lowercased.
pub open spec fn matching_lines_ignoring_case(query: Seq<char>, contents: Seq<char>) -> Seq<
    Seq<char>,
> {
    selected_folded(lower_of(query), lines_of(contents))
}

/// The lines of `contents` that contain `query` as a contiguous substring,
/// compared exactly (case-sensitive), in file order. Each is a slice of
/// `contents` without its line ending.
pub fn search<'a>(query: &str, contents: &'a str) -> (r: Vec<&'a str>)
    ensures
        views_of(r@) == matching_lines(query@, contents@),
{
    let ls = lines(contents);
    let ghost all = views_of(ls@);
    let mut results: Vec<&'a str> = Vec::new();
    let mut i: usize = 0;
    proof {
        reveal(Seq::filter);
        assert(views_of(results@) =~= selected(query@, all.take(0)));
    }
    while i < ls.len()
        invariant
            all == views_of(ls@),
            all == lines_of(contents@),
            i <= ls@.len(),
            views_of(results@) == selected(query@, all.take(i as int)),
        decreases ls@.len() - i,
    {
        let line = ls[i];
        let found = contains(line, query);
        proof {
            reveal(Seq::filter);
            assert(all.take(i + 1).drop_last() =~= all.take(i as int));
            assert(all.take(i + 1).last() == line@);
        }
        if found {
            let ghost before = results@;
            results.push(line);
            assert(views_of(results@) =~= views_of(before).push(line@));
        }
        i = i + 1;
    }
    assert(all.take(i as int) =~= all);
    results
}

/// The lines of `contents` that contain `query` when both are lowercased,
/// in file order. The lines returned keep their original casing: each is a
/// slice of `contents` without its line ending.
pub fn search_case_insensitive<'a>(query: &str, contents: &'a str) -> (r: Vec<&'a str>)
    ensures
        views_of(r@) == matching_lines_ignoring_case(query@, contents@),
{
    let folded_query = lowercase(query);
    let ls = lines(contents);
    let ghost all = views_of(ls@);
    let mut results: Vec<&'a str> = Vec::new();
    let mut i: usize = 0;
    proof {
        reveal(Seq::filter);
        assert(views_of(results@) =~= selected_folded(folded_query@, all.take(0)));
    }
    while i < ls.len()
        invariant
            all == views_of(ls@),
            all == lines_of(contents@),
            folded_query@ == lower_of(query@),
            i <= ls@.len(),
            views_of(results@) == selected_folded(folded_query@, all.take(i as int)),
        decreases ls@.len() - i,
    {
        let line = ls[i];
        let folded_line = lowercase(line);
        let found = contains(folded_line.as_str(), folded_query.as_str());
        proof {
            reveal(Seq::filter);
            assert(all.take(i + 1).drop_last() =~= all.take(i as int));
            assert(all.take(i + 1).last() == line@);
        }
        if found {
            let ghost before = results@;
            results.push(line);
            assert(views_of(results@) =~= views_of(before).push(line@));
        }
        i = i + 1;
    }
    assert(all.take(i as int) =~= all);
    results
}

proof fn lemma_select_all(ls: Seq<Seq<char>>)
    ensures
        selected(Seq::empty(), ls) == ls,
    decreases ls.len(),
{
    reveal(Seq::filter);
    if ls.len() > 0 {
        lemma_select_all(ls.drop_last());
        assert(ls.last().subrange(0, 0) =~= Seq::<char>::empty());
        assert(occurs_at(ls.last(), Seq::empty(), 0));
        assert(ls.drop_last().push(ls.last()) =~= ls);
    }
}

/// The empty query matches every line: searching for it gives all the lines
/// of the text, unchanged and in order.
pub proof fn law_empty_query_selects_every_line(contents: Seq<char>)
    ensures
        matching_lines(Seq::empty(), contents) == lines_of(contents),
{
    lemma_select_all(lines_of(contents));
}

/// An empty text has no lines, so no query matches anything in it.
pub proof fn law_empty_contents_match_nothing(query: Seq<char>)
    ensures
        lines_of(Seq::empty()) == Seq::<Seq<char>>::empty(),
        matching_lines(query, Seq::empty()) == Seq::<Seq<char>>::empty(),
        matching_lines_ignoring_case(query, Seq::empty()) == Seq::<Seq<char>>::empty(),
{
    reveal(Seq::filter);
    let p = crate::text::newline_pieces(Seq::<char>::empty());
    assert(p.drop_last() =~= Seq::<Seq<char>>::empty());
    assert(lines_of(Seq::empty()) =~= Seq::<Seq<char>>::empty());
}

/// Searching twice with the same query and text gives the same lines.
pub proof fn law_search_is_repeatable(query: &str, contents: &str, first: Seq<&str>, second: Seq<&str>)
    requires
        views_of(first) == matching_lines(query@, contents@),
        views_of(second) == matching_lines(query@, contents@),
    ensures
        views_of(first) == views_of(second),
{
}

} // verus!
