use vstd::prelude::*;
use vstd::utf8::encode_utf8;

use crate::config::Config;
use crate::slicing::{char_offsets, slice_chars};
use crate::text::{chars_of, contains, line_spans, lines_of, occurs, occurs_within, span_holds};

verus! {

/// The text of each line in a list of borrowed lines.
pub open spec fn views_of(lines: Seq<&str>) -> Seq<Seq<char>> {
    lines.map_values(|l: &str| l@)
}

/// The lines of `contents` that contain `query`, in their original order.
pub open spec fn matching_lines(query: Seq<char>, contents: Seq<char>) -> Seq<Seq<char>> {
    lines_of(contents).filter(|l: Seq<char>| occurs(l, query))
}

/// What lowercasing makes of a text.
pub uninterp spec fn lower_of(s: Seq<char>) -> Seq<char>;

/// The lines of `contents` whose lowercase form contains the lowercase form
/// of `query`, in their original order and with their original text.
pub open spec fn matching_lines_folded(query: Seq<char>, contents: Seq<char>) -> Seq<Seq<char>> {
    lines_of(contents).filter(|l: Seq<char>| occurs(lower_of(l), lower_of(query)))
}

/// Relies on str::to_lowercase: the lowercase form of a text depends on its
/// characters alone, and the empty text stays empty.
#[verifier::external_body]
fn lowercase(s: &str) -> (r: String)
    ensures
        r@ == lower_of(s@),
        s@.len() == 0 ==> r@.len() == 0,
{
    s.to_lowercase()
}

proof fn lemma_filter_step(s: Seq<Seq<char>>, f: spec_fn(Seq<char>) -> bool, k: int)
    requires
        0 <= k < s.len(),
    ensures
        s.subrange(0, k + 1).filter(f) == if f(s[k]) {
            s.subrange(0, k).filter(f).push(s[k])
        } else {
            s.subrange(0, k).filter(f)
        },
{
    reveal(Seq::filter);
    assert(s.subrange(0, k + 1).drop_last() =~= s.subrange(0, k));
}

proof fn lemma_views_push(lines: Seq<&str>, line: &str)
    ensures
        views_of(lines.push(line)) == views_of(lines).push(line@),
{
    assert(views_of(lines.push(line)) =~= views_of(lines).push(line@));
}

/// Every line of `contents` that contains `query`, in order, each borrowed
/// from `contents` without its line terminator.
pub fn search<'a>(query: &str, contents: &'a str) -> (r: Vec<&'a str>)
    ensures
        views_of(r@) == matching_lines(query@, contents@),
        query@.len() == 0 ==> views_of(r@) == lines_of(contents@),
{
    let text = chars_of(contents);
    let pattern = chars_of(query);
    let spans = line_spans(&text);
    let offsets = char_offsets(contents);
    let ghost lines = lines_of(contents@);
    let ghost keep = |l: Seq<char>| occurs(l, query@);
    let mut found: Vec<&'a str> = Vec::new();
    let mut k: usize = 0;
    assert(lines.subrange(0, 0).filter(keep) =~= Seq::<Seq<char>>::empty()) by {
        reveal(Seq::filter);
    }
    assert(views_of(found@) =~= Seq::<Seq<char>>::empty());
    while k < spans.len()
        invariant
            text@ == contents@,
            pattern@ == query@,
            lines == lines_of(contents@),
            keep == (|l: Seq<char>| occurs(l, query@)),
            spans@.len() == lines.len(),
            k <= spans@.len(),
            forall|j: int| 0 <= j < spans@.len() ==> span_holds(text@, #[trigger] spans@[j], lines[j]),
            offsets@.len() == contents@.len() + 1,
            forall|j: int|
                0 <= j <= contents@.len() ==> #[trigger] offsets@[j] as int == encode_utf8(
                    contents@.subrange(0, j),
                ).len(),
            views_of(found@) == lines.subrange(0, k as int).filter(keep),
        decreases spans@.len() - k,
    {
        let (a, b) = spans[k];
        assert(span_holds(text@, spans@[k as int], lines[k as int]));
        proof {
            lemma_filter_step(lines, keep, k as int);
        }
        if occurs_within(&text, a, b, &pattern) {
            let line = slice_chars(contents, a, b, offsets[a], offsets[b]);
            proof {
                lemma_views_push(found@, line);
            }
            found.push(line);
        }
        k = k + 1;
    }
    assert(lines.subrange(0, lines.len() as int) =~= lines);
    proof {
        if query@.len() == 0 {
            assert(query@ =~= Seq::<char>::empty());
            lemma_empty_query_keeps_every_line(contents@);
        }
    }
    found
}

/// Every line of `contents` whose lowercase form contains the lowercase form
/// of `query`, in order, each borrowed from `contents` with its original text.
pub fn search_case_insensitive<'a>(query: &str, contents: &'a str) -> (r: Vec<&'a str>)
    ensures
        views_of(r@) == matching_lines_folded(query@, contents@),
        query@.len() == 0 ==> views_of(r@) == lines_of(contents@),
{
    let folded_query = lowercase(query);
    let text = chars_of(contents);
    let spans = line_spans(&text);
    let offsets = char_offsets(contents);
    let ghost lines = lines_of(contents@);
    let ghost keep = |l: Seq<char>| occurs(lower_of(l), lower_of(query@));
    let mut found: Vec<&'a str> = Vec::new();
    let mut k: usize = 0;
    assert(lines.subrange(0, 0).filter(keep) =~= Seq::<Seq<char>>::empty()) by {
        reveal(Seq::filter);
    }
    assert(views_of(found@) =~= Seq::<Seq<char>>::empty());
    while k < spans.len()
        invariant
            text@ == contents@,
            folded_query@ == lower_of(query@),
            lines == lines_of(contents@),
            keep == (|l: Seq<char>| occurs(lower_of(l), lower_of(query@))),
            spans@.len() == lines.len(),
            k <= spans@.len(),
            forall|j: int| 0 <= j < spans@.len() ==> span_holds(text@, #[trigger] spans@[j], lines[j]),
            offsets@.len() == contents@.len() + 1,
            forall|j: int|
                0 <= j <= contents@.len() ==> #[trigger] offsets@[j] as int == encode_utf8(
                    contents@.subrange(0, j),
                ).len(),
            views_of(found@) == lines.subrange(0, k as int).filter(keep),
        decreases spans@.len() - k,
    {
        let (a, b) = spans[k];
        assert(span_holds(text@, spans@[k as int], lines[k as int]));
        proof {
            lemma_filter_step(lines, keep, k as int);
        }
        let line = slice_chars(contents, a, b, offsets[a], offsets[b]);
        let folded_line = lowercase(line);
        if contains(folded_line.as_str(), folded_query.as_str()) {
            proof {
                lemma_views_push(found@, line);
            }
            found.push(line);
        }
        k = k + 1;
    }
    assert(lines.subrange(0, lines.len() as int) =~= lines);
    proof {
        if query@.len() == 0 {
            assert forall|l: Seq<char>| #[trigger] keep(l) by {
                let q = lower_of(query@);
                assert(lower_of(l).subrange(0, 0 + q.len() as int) =~= q);
            }
            lemma_everything_kept(lines, keep);
        }
    }
    found
}

/// The lines of `contents` that `config` asks for: its query is matched
/// ignoring case exactly when the configuration says so.
pub fn select_lines<'a>(config: &Config, contents: &'a str) -> (r: Vec<&'a str>)
    ensures
        views_of(r@) == if config.ignore_case {
            matching_lines_folded(config.query@, contents@)
        } else {
            matching_lines(config.query@, contents@)
        },
{
    if config.ignore_case {
        search_case_insensitive(config.query.as_str(), contents)
    } else {
        search(config.query.as_str(), contents)
    }
}

/// Searching for the empty query selects every line: the empty text occurs
/// in every line.
pub proof fn lemma_empty_query_keeps_every_line(contents: Seq<char>)
    ensures
        matching_lines(Seq::empty(), contents) == lines_of(contents),
{
    let keep = |l: Seq<char>| occurs(l, Seq::empty());
    assert forall|l: Seq<char>| #[trigger] keep(l) by {
        assert(l.subrange(0, 0 + Seq::<char>::empty().len() as int) =~= Seq::<char>::empty());
    }
    lemma_everything_kept(lines_of(contents), keep);
}

/// A search is repeatable: two searches with the same query over the same
/// contents select the same lines in the same order.
pub proof fn lemma_search_repeatable(
    query: Seq<char>,
    contents: Seq<char>,
    first: Seq<&str>,
    second: Seq<&str>,
)
    requires
        views_of(first) == matching_lines(query, contents),
        views_of(second) == matching_lines(query, contents),
    ensures
        views_of(first) == views_of(second),
{
}

proof fn lemma_everything_kept(s: Seq<Seq<char>>, f: spec_fn(Seq<char>) -> bool)
    requires
        forall|l: Seq<char>| #[trigger] f(l),
    ensures
        s.filter(f) == s,
    decreases s.len(),
{
    reveal(Seq::filter);
    if s.len() > 0 {
        lemma_everything_kept(s.drop_last(), f);
        assert(s.drop_last().push(s.last()) =~= s);
    }
}

} // verus!
