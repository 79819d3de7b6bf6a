use vstd::prelude::*;

verus! {

/// `pattern` occurs in `text` as a contiguous run of characters.
pub open spec fn occurs(text: Seq<char>, pattern: Seq<char>) -> bool {
    exists|i: int|
        0 <= i && i + pattern.len() <= text.len() && #[trigger] text.subrange(i, i + pattern.len())
            == pattern
}

/// The pieces of `text` between line feeds, in order; there is always one
/// more piece than there are line feeds.
pub open spec fn pieces(text: Seq<char>) -> Seq<Seq<char>>
    decreases text.len(),
{
    if text.len() == 0 {
        seq![Seq::empty()]
    } else {
        let p = pieces(text.drop_last());
        if text.last() == '\n' {
            p.push(Seq::empty())
        } else {
            p.update(p.len() - 1, p.last().push(text.last()))
        }
    }
}

/// A line that was ended by a line feed loses the carriage return before it.
pub open spec fn strip_cr(line: Seq<char>) -> Seq<char> {
    if line.len() > 0 && line.last() == '\r' {
        line.drop_last()
    } else {
        line
    }
}

/// The lines of `text`: split at `\n` or `\r\n`, terminators removed. A final
/// terminator ends the last line and starts no empty one; an empty text has
/// no lines.
pub open spec fn lines_of(text: Seq<char>) -> Seq<Seq<char>> {
    let p = pieces(text);
    let ended = p.drop_last().map_values(|l: Seq<char>| strip_cr(l));
    if p.last().len() == 0 {
        ended
    } else {
        ended.push(p.last())
    }
}

/// Whether `pattern` occurs in `text[lo..hi]`.
pub(crate) fn occurs_within(text: &Vec<char>, lo: usize, hi: usize, pattern: &Vec<char>) -> (r: bool)
    requires
        lo <= hi <= text@.len(),
    ensures
        r == occurs(text@.subrange(lo as int, hi as int), pattern@),
{
    let ghost t = text@.subrange(lo as int, hi as int);
    let m = pattern.len();
    if m > hi - lo {
        return false;
    }
    let mut i: usize = lo;
    while i <= hi - m
        invariant
            lo <= i <= hi <= text@.len(),
            m == pattern@.len(),
            m <= hi - lo,
            t == text@.subrange(lo as int, hi as int),
            forall|k: int|
                0 <= k < i - lo && k + m <= t.len() ==> #[trigger] t.subrange(k, k + m)
                    != pattern@,
        decreases hi - i,
    {
        let mut j: usize = 0;
        while j < m && text[i + j] == pattern[j]
            invariant
                lo <= i,
                i + m <= hi <= text@.len(),
                m == pattern@.len(),
                j <= m,
                forall|q: int| 0 <= q < j ==> text@[i + q] == pattern@[q],
            decreases m - j,
        {
            j = j + 1;
        }
        if j == m {
            assert(t.subrange(i - lo, i - lo + m) =~= pattern@);
            return true;
        }
        assert(t.subrange(i - lo, i - lo + m)[j as int] != pattern@[j as int]);
        i = i + 1;
    }
    assert forall|k: int|
        0 <= k && k + m <= t.len() implies #[trigger] t.subrange(k, k + m) != pattern@ by {
        assert(k < i - lo);
    }
    false
}

/// Whether `needle` occurs in `haystack` as a contiguous run of characters.
/// The empty needle occurs in every text.
pub fn contains(haystack: &str, needle: &str) -> (r: bool)
    ensures
        r == occurs(haystack@, needle@),
{
    let t = chars_of(haystack);
    let p = chars_of(needle);
    let r = occurs_within(&t, 0, t.len(), &p);
    assert(t@.subrange(0, t@.len() as int) =~= haystack@);
    r
}

/// Copies the characters of `s` into a vector, in order.
pub fn chars_of(s: &str) -> (r: Vec<char>)
    ensures
        r@ == s@,
{
    let mut out: Vec<char> = Vec::new();
    for c in it: s.chars()
        invariant
            out@ == it.seq().subrange(0, it.index() as int),
    {
        out.push(c);
    }
    out
}

/// `spans` marks the lines of `text`: one pair of bounds per line, in order.
pub open spec fn spans_of_lines(text: Seq<char>, spans: Seq<(usize, usize)>) -> bool {
    &&& spans.len() == lines_of(text).len()
    &&& forall|k: int|
        0 <= k < spans.len() ==> {
            &&& #[trigger] spans[k].0 <= spans[k].1 <= text.len()
            &&& text.subrange(spans[k].0 as int, spans[k].1 as int) == lines_of(text)[k]
        }
}

/// `span` bounds `line` in `text`.
pub open spec fn span_holds(text: Seq<char>, span: (usize, usize), line: Seq<char>) -> bool {
    &&& span.0 <= span.1 <= text.len()
    &&& text.subrange(span.0 as int, span.1 as int) == line
}

/// The bounds of each line of `text`, in order.
pub fn line_spans(text: &Vec<char>) -> (r: Vec<(usize, usize)>)
    ensures
        r@.len() == lines_of(text@).len(),
        forall|k: int| 0 <= k < r@.len() ==> span_holds(text@, #[trigger] r@[k], lines_of(text@)[k]),
{
    let ghost t = text@;
    let mut spans: Vec<(usize, usize)> = Vec::new();
    let mut start: usize = 0;
    let mut i: usize = 0;
    proof {
        assert(t.subrange(0, 0) =~= Seq::<char>::empty());
    }
    while i < text.len()
        invariant
            t == text@,
            start <= i <= t.len(),
            pieces(t.subrange(0, i as int)).len() == spans@.len() + 1,
            pieces(t.subrange(0, i as int)).last() == t.subrange(start as int, i as int),
            forall|k: int|
                0 <= k < spans@.len() ==> span_holds(
                    t,
                    #[trigger] spans@[k],
                    strip_cr(pieces(t.subrange(0, i as int))[k]),
                ),
        decreases t.len() - i,
    {
        let ghost p = pieces(t.subrange(0, i as int));
        let ghost old_spans = spans@;
        let ghost next = t.subrange(0, i + 1);
        assert(next.drop_last() =~= t.subrange(0, i as int));
        if text[i] == '\n' {
            let end: usize = if i > start && text[i - 1] == '\r' {
                i - 1
            } else {
                i
            };
            assert(t.subrange(start as int, end as int) =~= strip_cr(p.last()));
            spans.push((start, end));
            start = i + 1;
            assert(pieces(next) == p.push(Seq::empty()));
            assert(t.subrange(start as int, i + 1) =~= Seq::<char>::empty());
            assert forall|k: int| 0 <= k < spans@.len() implies span_holds(
                t,
                #[trigger] spans@[k],
                strip_cr(pieces(next)[k]),
            ) by {
                if k < old_spans.len() {
                    assert(spans@[k] == old_spans[k]);
                    assert(pieces(next)[k] == p[k]);
                }
            }
        } else {
            assert(t.subrange(start as int, i + 1) =~= t.subrange(start as int, i as int).push(
                t[i as int],
            ));
            assert(pieces(next) == p.update(p.len() - 1, p.last().push(t[i as int])));
            assert forall|k: int| 0 <= k < spans@.len() implies span_holds(
                t,
                #[trigger] spans@[k],
                strip_cr(pieces(next)[k]),
            ) by {
                assert(pieces(next)[k] == p[k]);
            }
        }
        i = i + 1;
    }
    let ghost p = pieces(t);
    let ghost old_spans = spans@;
    assert(t.subrange(0, t.len() as int) =~= t);
    if start < text.len() {
        spans.push((start, text.len()));
    }
    proof {
        let lines = lines_of(t);
        let ended = p.drop_last().map_values(|l: Seq<char>| strip_cr(l));
        assert(lines.len() == spans@.len());
        assert forall|k: int| 0 <= k < spans@.len() implies span_holds(
            t,
            #[trigger] spans@[k],
            lines[k],
        ) by {
            if k < p.len() - 1 {
                assert(spans@[k] == old_spans[k]);
                assert(lines[k] == ended[k]);
            } else {
                assert(lines[k] == p.last());
            }
        }
    }
    spans
}

} // verus!
