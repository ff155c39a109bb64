//! Runs of glyphs at either end of a text, and what is left between them.
use vstd::prelude::*;
use crate::glyph::{Glyph, Kind};

verus! {

/// A property of a single glyph, by which runs are measured.
#[derive(Clone, Copy, PartialEq, Eq, Structural, Debug)]
pub enum Pattern {
    /// White space.
    Space,
    /// Anything but white space.
    NonSpace,
    /// Anything but a letter.
    NonLetter,
    /// Anything but a line feed.
    NonBreak,
}

impl Pattern {
    /// Whether the glyph has the property.
    pub open spec fn admits(self, g: Glyph) -> bool {
        match self {
            Pattern::Space => g.kind == Kind::Space,
            Pattern::NonSpace => g.kind != Kind::Space,
            Pattern::NonLetter => g.kind != Kind::Letter,
            Pattern::NonBreak => g.ch != '\n',
        }
    }

    /// Tests a glyph against the pattern.
    pub fn test(self, g: Glyph) -> (b: bool)
        ensures
            b == self.admits(g),
    {
        match self {
            Pattern::Space => g.kind == Kind::Space,
            Pattern::NonSpace => g.kind != Kind::Space,
            Pattern::NonLetter => g.kind != Kind::Letter,
            Pattern::NonBreak => g.ch != '\n',
        }
    }
}

/// A stretch of a text: the positions from `start` up to, not including, `end`.
#[derive(Clone, Copy, PartialEq, Eq, Structural, Debug)]
pub struct Span {
    pub start: usize,
    pub end: usize,
}

impl Span {
    /// The span lies inside a text of `len` glyphs.
    pub open spec fn fits(self, len: nat) -> bool {
        self.start <= self.end <= len
    }

    /// The glyphs of `g` that the span covers.
    pub open spec fn of(self, g: Seq<Glyph>) -> Seq<Glyph> {
        g.subrange(self.start as int, self.end as int)
    }
}

/// How many glyphs at the start of `g` the pattern admits, one after the other.
pub open spec fn lead(g: Seq<Glyph>, p: Pattern) -> nat
    decreases g.len(),
{
    if g.len() == 0 || !p.admits(g[0]) {
        0
    } else {
        1 + lead(g.drop_first(), p)
    }
}

/// How many glyphs at the end of `g` the pattern admits, one before the other.
pub open spec fn trail(g: Seq<Glyph>, p: Pattern) -> nat
    decreases g.len(),
{
    if g.len() == 0 || !p.admits(g.last()) {
        0
    } else {
        1 + trail(g.drop_last(), p)
    }
}

/// Where the rest begins once the leading run is taken off.
pub open spec fn core_start(g: Seq<Glyph>, p: Pattern) -> int {
    lead(g, p) as int
}

/// Where the rest ends once the trailing run is taken off too. Where the
/// pattern admits every glyph, the rest is empty and sits at the end.
pub open spec fn core_end(g: Seq<Glyph>, p: Pattern) -> int {
    if lead(g, p) == g.len() {
        g.len() as int
    } else {
        g.len() - trail(g, p)
    }
}

/// `g` without the runs at its two ends that the pattern admits.
pub open spec fn trimmed(g: Seq<Glyph>, p: Pattern) -> Seq<Glyph> {
    g.subrange(core_start(g, p), core_end(g, p))
}

/// The leading run is the longest prefix that the pattern admits throughout.
pub proof fn lemma_lead(g: Seq<Glyph>, p: Pattern)
    ensures
        lead(g, p) <= g.len(),
        forall|i: int| 0 <= i < lead(g, p) ==> p.admits(#[trigger] g[i]),
        lead(g, p) < g.len() ==> !p.admits(g[lead(g, p) as int]),
    decreases g.len(),
{
    if g.len() == 0 || !p.admits(g[0]) {
    } else {
        let rest = g.drop_first();
        lemma_lead(rest, p);
        assert forall|i: int| 0 <= i < lead(g, p) implies p.admits(#[trigger] g[i]) by {
            if i > 0 {
                assert(g[i] == rest[i - 1]);
            }
        }
        if lead(g, p) < g.len() {
            assert(g[lead(g, p) as int] == rest[lead(rest, p) as int]);
        }
    }
}

/// The trailing run is the longest suffix that the pattern admits throughout.
pub proof fn lemma_trail(g: Seq<Glyph>, p: Pattern)
    ensures
        trail(g, p) <= g.len(),
        forall|i: int| g.len() - trail(g, p) <= i < g.len() ==> p.admits(#[trigger] g[i]),
        trail(g, p) < g.len() ==> !p.admits(g[g.len() - trail(g, p) - 1]),
    decreases g.len(),
{
    if g.len() == 0 || !p.admits(g.last()) {
    } else {
        let rest = g.drop_last();
        lemma_trail(rest, p);
        assert forall|i: int| g.len() - trail(g, p) <= i < g.len() implies p.admits(
            #[trigger] g[i],
        ) by {
            if i < g.len() - 1 {
                assert(g[i] == rest[i]);
            }
        }
        if trail(g, p) < g.len() {
            assert(g[g.len() - trail(g, p) - 1] == rest[rest.len() - trail(rest, p) - 1]);
        }
    }
}

/// A prefix that the pattern admits throughout and that stops at the end or
/// before a glyph that the pattern refuses is the leading run.
pub proof fn lemma_lead_is(g: Seq<Glyph>, p: Pattern, n: int)
    requires
        0 <= n <= g.len(),
        forall|i: int| 0 <= i < n ==> p.admits(#[trigger] g[i]),
        n < g.len() ==> !p.admits(g[n]),
    ensures
        lead(g, p) == n,
{
    lemma_lead(g, p);
    let m = lead(g, p) as int;
    if m < n {
        assert(p.admits(g[m]));
    } else if n < m {
        assert(p.admits(g[n]));
    }
}

/// A suffix that the pattern admits throughout and that starts at the start or
/// after a glyph that the pattern refuses is the trailing run.
pub proof fn lemma_trail_is(g: Seq<Glyph>, p: Pattern, n: int)
    requires
        0 <= n <= g.len(),
        forall|i: int| g.len() - n <= i < g.len() ==> p.admits(#[trigger] g[i]),
        n < g.len() ==> !p.admits(g[g.len() - n - 1]),
    ensures
        trail(g, p) == n,
{
    lemma_trail(g, p);
    let m = trail(g, p) as int;
    if m < n {
        assert(p.admits(g[g.len() - m - 1]));
    } else if n < m {
        assert(p.admits(g[g.len() - n - 1]));
    }
}

/// What trimming leaves lies inside the text; where it is not empty, it begins
/// and ends with a glyph that the pattern refuses, and the pattern admits all
/// that was cut off.
pub proof fn lemma_trimmed(g: Seq<Glyph>, p: Pattern)
    ensures
        0 <= core_start(g, p) <= core_end(g, p) <= g.len(),
        forall|i: int| 0 <= i < core_start(g, p) ==> p.admits(#[trigger] g[i]),
        forall|i: int| core_end(g, p) <= i < g.len() ==> p.admits(#[trigger] g[i]),
        trimmed(g, p).len() > 0 ==> !p.admits(trimmed(g, p).first()) && !p.admits(
            trimmed(g, p).last(),
        ),
        g == g.take(core_start(g, p)) + trimmed(g, p) + g.skip(core_end(g, p)),
{
    lemma_lead(g, p);
    lemma_trail(g, p);
    let a = core_start(g, p);
    if a < g.len() {
        if g.len() - trail(g, p) <= a {
            assert(p.admits(g[a]));
        }
    }
    assert(g =~= g.take(a) + trimmed(g, p) + g.skip(core_end(g, p)));
}

/// Runs that the pattern admits, put before and after a text, are trimmed
/// away with the runs of the text itself.
pub proof fn lemma_trimmed_padded(before: Seq<Glyph>, g: Seq<Glyph>, after: Seq<Glyph>, p: Pattern)
    requires
        forall|i: int| 0 <= i < before.len() ==> p.admits(#[trigger] before[i]),
        forall|i: int| 0 <= i < after.len() ==> p.admits(#[trigger] after[i]),
    ensures
        trimmed(before + g + after, p) == trimmed(g, p),
{
    let whole = before + g + after;
    lemma_lead(g, p);
    lemma_trail(g, p);
    lemma_trimmed(g, p);
    let a = lead(g, p) as int;
    if a == g.len() {
        assert forall|i: int| 0 <= i < whole.len() implies p.admits(#[trigger] whole[i]) by {
            if i < before.len() {
                assert(whole[i] == before[i]);
            } else if i < before.len() + g.len() {
                assert(whole[i] == g[i - before.len()]);
            } else {
                assert(whole[i] == after[i - before.len() - g.len()]);
            }
        }
        lemma_lead_is(whole, p, whole.len() as int);
        assert(trimmed(whole, p) =~= trimmed(g, p));
    } else {
        let t = trail(g, p) as int;
        assert forall|i: int| 0 <= i < before.len() + a implies p.admits(#[trigger] whole[i]) by {
            if i < before.len() {
                assert(whole[i] == before[i]);
            } else {
                assert(whole[i] == g[i - before.len()]);
            }
        }
        assert(whole[before.len() + a] == g[a]);
        lemma_lead_is(whole, p, before.len() + a);
        assert forall|i: int| whole.len() - (after.len() + t) <= i < whole.len() implies p.admits(
            #[trigger] whole[i],
        ) by {
            if i < before.len() + g.len() {
                assert(whole[i] == g[i - before.len()]);
            } else {
                assert(whole[i] == after[i - before.len() - g.len()]);
            }
        }
        assert(whole[whole.len() - (after.len() + t) - 1] == g[g.len() - t - 1]);
        lemma_trail_is(whole, p, after.len() + t);
        assert(trimmed(whole, p) =~= trimmed(g, p));
    }
}

/// Where the leading run of the glyphs between `from` and `to` ends.
pub fn lead_end(glyphs: &Vec<Glyph>, from: usize, to: usize, p: Pattern) -> (i: usize)
    requires
        from <= to <= glyphs.len(),
    ensures
        i == from + lead(glyphs@.subrange(from as int, to as int), p),
        from <= i <= to,
{
    let mut i: usize = from;
    while i < to && p.test(glyphs[i])
        invariant
            from <= i <= to <= glyphs.len(),
            lead(glyphs@.subrange(from as int, to as int), p) == (i - from) + lead(
                glyphs@.subrange(i as int, to as int),
                p,
            ),
        decreases to - i,
    {
        assert(glyphs@.subrange(i as int, to as int).drop_first() =~= glyphs@.subrange(
            i + 1,
            to as int,
        ));
        i += 1;
    }
    i
}

/// Where the trailing run of the glyphs between `from` and `to` begins.
pub fn trail_start(glyphs: &Vec<Glyph>, from: usize, to: usize, p: Pattern) -> (j: usize)
    requires
        from <= to <= glyphs.len(),
    ensures
        j == to - trail(glyphs@.subrange(from as int, to as int), p),
        from <= j <= to,
{
    let mut j: usize = to;
    while j > from && p.test(glyphs[j - 1])
        invariant
            from <= j <= to <= glyphs.len(),
            trail(glyphs@.subrange(from as int, to as int), p) == (to - j) + trail(
                glyphs@.subrange(from as int, j as int),
                p,
            ),
        decreases j - from,
    {
        assert(glyphs@.subrange(from as int, j as int).drop_last() =~= glyphs@.subrange(
            from as int,
            j - 1,
        ));
        j -= 1;
    }
    j
}

/// The stretch of the glyphs between `from` and `to` that trimming leaves.
pub fn trim_span(glyphs: &Vec<Glyph>, from: usize, to: usize, p: Pattern) -> (s: Span)
    requires
        from <= to <= glyphs.len(),
    ensures
        s.start == from + core_start(glyphs@.subrange(from as int, to as int), p),
        s.end == from + core_end(glyphs@.subrange(from as int, to as int), p),
        from <= s.start <= s.end <= to,
        s.of(glyphs@) == trimmed(glyphs@.subrange(from as int, to as int), p),
{
    let start = lead_end(glyphs, from, to, p);
    let end = if start == to {
        to
    } else {
        trail_start(glyphs, from, to, p)
    };
    proof {
        let g = glyphs@.subrange(from as int, to as int);
        lemma_trimmed(g, p);
        assert(glyphs@.subrange(start as int, end as int) =~= g.subrange(
            start - from,
            end - from,
        ));
    }
    Span { start, end }
}

} // verus!
