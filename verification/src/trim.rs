//! White space at the ends of a text.
use vstd::prelude::*;
use crate::glyph::{chars_of, classify, glyphs_of, text_between};
use crate::run::{trail, trail_start, trim_span, trimmed, Pattern};

verus! {

/// A text without the white space at its start and at its end.
pub open spec fn without_outer_space(text: Seq<char>) -> Seq<char> {
    chars_of(trimmed(glyphs_of(text), Pattern::Space))
}

/// A text without the white space at its end.
pub open spec fn without_trailing_space(text: Seq<char>) -> Seq<char> {
    text.take(text.len() - trail(glyphs_of(text), Pattern::Space))
}

/// Drops the white space at both ends of a text.
pub fn trim(text: &str) -> (out: String)
    ensures
        out@ == without_outer_space(text@),
{
    let glyphs = classify(text);
    let span = trim_span(&glyphs, 0, glyphs.len(), Pattern::Space);
    assert(glyphs@.subrange(0, glyphs.len() as int) =~= glyphs@);
    text_between(&glyphs, span.start, span.end)
}

/// Drops the white space at the end of a text.
pub fn trim_end(text: &str) -> (out: String)
    ensures
        out@ == without_trailing_space(text@),
{
    let glyphs = classify(text);
    let end = trail_start(&glyphs, 0, glyphs.len(), Pattern::Space);
    let out = text_between(&glyphs, 0, end);
    proof {
        assert(glyphs@.subrange(0, glyphs.len() as int) =~= glyphs@);
        assert(chars_of(glyphs@.subrange(0, end as int)) =~= text@.take(end as int));
    }
    out
}

} // verus!
