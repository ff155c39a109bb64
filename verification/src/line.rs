//! The lines of a text, and the comment lines of a commit message.
//!
//! A line ends with a line feed; a carriage return right before the line
//! feed belongs to the line ending. Text after the last line feed is a line
//! of its own. A line is a comment when the first thing on it that is not
//! white space is `#`.
use vstd::prelude::*;
use vstd::string::StringExecFns;
use crate::glyph::{chars_of, classify, glyphs_of, text_between, Glyph};
use crate::run::{lead, lead_end, Pattern, Span};
use crate::token::{bounds_of, cut, lemma_cut, stretches};

verus! {

/// Where the lines of a text stand from position `from` on, first to last.
/// A line runs up to the next line feed, or up to the carriage return before
/// it; what follows the last line feed is a line if it is not empty.
pub open spec fn line_bounds(g: Seq<Glyph>, from: int) -> Seq<(int, int)>
    decreases g.len() - from,
{
    if from < 0 || from >= g.len() {
        Seq::empty()
    } else {
        let stop = from + lead(g.skip(from), Pattern::NonBreak);
        if stop >= g.len() {
            seq![(from, g.len() as int)]
        } else {
            let end = if stop > from && g[stop - 1].ch == '\r' {
                stop - 1
            } else {
                stop
            };
            seq![(from, end)] + line_bounds(g, stop + 1)
        }
    }
}

/// The lines of a text, first to last, without their line endings.
pub open spec fn lines(g: Seq<Glyph>) -> Seq<Seq<Glyph>> {
    stretches(g, line_bounds(g, 0))
}

/// Whether a line is a comment.
pub open spec fn is_comment(line: Seq<Glyph>) -> bool {
    let k = lead(line, Pattern::Space) as int;
    k < line.len() && line[k].ch == '#'
}

/// The lines one after the other, with a line feed between each two.
pub open spec fn joined(lines: Seq<Seq<char>>) -> Seq<char>
    decreases lines.len(),
{
    if lines.len() == 0 {
        Seq::empty()
    } else if lines.len() == 1 {
        lines[0]
    } else {
        joined(lines.drop_last()) + seq!['\n'] + lines.last()
    }
}

/// The lines of a message that are not comments.
pub open spec fn message_lines(g: Seq<Glyph>) -> Seq<Seq<Glyph>> {
    lines(g).filter(|l: Seq<Glyph>| !is_comment(l))
}

/// The text of a message without its comment lines.
pub open spec fn uncommented(g: Seq<Glyph>) -> Seq<char> {
    joined(message_lines(g).map_values(|l: Seq<Glyph>| chars_of(l)))
}

/// Where the lines of a text stand.
pub fn line_spans(glyphs: &Vec<Glyph>) -> (spans: Vec<Span>)
    ensures
        bounds_of(spans@) == line_bounds(glyphs@, 0),
        cut(glyphs@, spans@) == lines(glyphs@),
        forall|k: int| 0 <= k < spans.len() ==> (#[trigger] spans[k]).fits(glyphs@.len()),
{
    let n = glyphs.len();
    let mut spans: Vec<Span> = Vec::new();
    let mut i: usize = 0;
    assert(bounds_of(spans@) + line_bounds(glyphs@, 0) =~= line_bounds(glyphs@, 0));
    while i < n
        invariant
            i <= n == glyphs.len(),
            line_bounds(glyphs@, 0) == bounds_of(spans@) + line_bounds(glyphs@, i as int),
            forall|k: int| 0 <= k < spans.len() ==> (#[trigger] spans[k]).fits(glyphs@.len()),
        decreases n - i,
    {
        assert(glyphs@.skip(i as int) =~= glyphs@.subrange(i as int, n as int));
        let stop = lead_end(glyphs, i, n, Pattern::NonBreak);
        let end = if stop < n && stop > i && glyphs[stop - 1].ch == '\r' {
            stop - 1
        } else {
            stop
        };
        let span = Span { start: i, end };
        proof {
            let b = (i as int, end as int);
            let next = if stop < n {
                stop + 1
            } else {
                n as int
            };
            assert(line_bounds(glyphs@, i as int) =~= seq![b] + line_bounds(glyphs@, next));
            assert(bounds_of(spans@.push(span)) =~= bounds_of(spans@) + seq![b]);
            assert(bounds_of(spans@) + (seq![b] + line_bounds(glyphs@, next)) =~= bounds_of(
                spans@.push(span),
            ) + line_bounds(glyphs@, next));
        }
        spans.push(span);
        i = if stop < n {
            stop + 1
        } else {
            n
        };
    }
    proof {
        assert(bounds_of(spans@) + line_bounds(glyphs@, i as int) =~= bounds_of(spans@));
        lemma_cut(glyphs@, spans@);
    }
    spans
}

/// Whether the line that stands at `span` is a comment.
pub fn comment_at(glyphs: &Vec<Glyph>, span: Span) -> (b: bool)
    requires
        span.fits(glyphs@.len()),
    ensures
        b == is_comment(span.of(glyphs@)),
{
    let k = lead_end(glyphs, span.start, span.end, Pattern::Space);
    k < span.end && glyphs[k].ch == '#'
}

/// The text of a classified message without its comment lines.
pub fn message_text(glyphs: &Vec<Glyph>) -> (out: String)
    ensures
        out@ == uncommented(glyphs@),
{
    let spans = line_spans(glyphs);
    let ghost all = lines(glyphs@);
    let ghost keep = |l: Seq<Glyph>| !is_comment(l);
    let ghost text = |l: Seq<Glyph>| chars_of(l);
    let mut out = String::new();
    let mut first = true;
    let mut i: usize = 0;
    proof {
        reveal(Seq::filter);
        assert(all.take(0) =~= Seq::empty());
    }
    while i < spans.len()
        invariant
            i <= spans.len(),
            all == lines(glyphs@),
            cut(glyphs@, spans@) == all,
            forall|k: int| 0 <= k < spans.len() ==> (#[trigger] spans[k]).fits(glyphs@.len()),
            keep == |l: Seq<Glyph>| !is_comment(l),
            text == |l: Seq<Glyph>| chars_of(l),
            first == (all.take(i as int).filter(keep).len() == 0),
            out@ == joined(all.take(i as int).filter(keep).map_values(text)),
        decreases spans.len() - i,
    {
        let span = spans[i];
        let ghost line = all[i as int];
        let ghost kept = all.take(i as int).filter(keep);
        proof {
            reveal(Seq::filter);
            assert(cut(glyphs@, spans@).len() == spans.len());
            assert(cut(glyphs@, spans@)[i as int] == span.of(glyphs@));
            assert(all.take(i + 1).drop_last() =~= all.take(i as int));
            assert(all.take(i + 1).last() == line);
        }
        if !comment_at(glyphs, span) {
            let ghost before = out@;
            if !first {
                out.push('\n');
            }
            let s = text_between(glyphs, span.start, span.end);
            out.append(s.as_str());
            first = false;
            proof {
                let now = kept.push(line).map_values(text);
                assert(all.take(i + 1).filter(keep) == kept.push(line));
                assert(now.drop_last() =~= kept.map_values(text));
                assert(now.last() == chars_of(line));
                if kept.len() == 0 {
                    assert(out@ =~= chars_of(line));
                } else {
                    assert(out@ =~= before + seq!['\n'] + chars_of(line));
                }
            }
        } else {
            assert(all.take(i + 1).filter(keep) == kept);
        }
        i += 1;
    }
    assert(all.take(i as int) =~= all);
    out
}

/// The message without its comment lines.
pub fn strip_comments(text: &str) -> (out: String)
    ensures
        out@ == uncommented(glyphs_of(text@)),
{
    let glyphs = classify(text);
    message_text(&glyphs)
}

/// No comment line is left in the message, and every other line is.
pub proof fn lemma_message_lines(g: Seq<Glyph>)
    ensures
        forall|l: Seq<Glyph>|
            #[trigger] message_lines(g).contains(l) <==> lines(g).contains(l) && !is_comment(l),
{
    let keep = |l: Seq<Glyph>| !is_comment(l);
    assert forall|l: Seq<Glyph>| #[trigger]
        message_lines(g).contains(l) <==> lines(g).contains(l) && !is_comment(l) by {
        if message_lines(g).contains(l) {
            let k = choose|k: int| 0 <= k < message_lines(g).len() && message_lines(g)[k] == l;
            lines(g).lemma_filter_pred(keep, k);
            lines(g).lemma_filter_contains_rev(keep, l);
        }
        if lines(g).contains(l) && keep(l) {
            let k = choose|k: int| 0 <= k < lines(g).len() && lines(g)[k] == l;
            lines(g).lemma_filter_contains(keep, k);
        }
    }
}

} // verus!
