//! Words and tokens: a text is cut at white space into words, and each word
//! into the punctuation before its letters, the letters themselves with
//! whatever stands between them, and the punctuation after.
use vstd::prelude::*;
use crate::glyph::{chars_of, text_between, Glyph, Kind};
use crate::run::{
    core_end, core_start, lead, lead_end, lemma_lead, lemma_trimmed, trim_span, trimmed, Pattern,
    Span,
};

verus! {

/// Where the words of a text stand from position `from` on, first to last:
/// each word begins at a glyph that is not white space and runs as far as no
/// white space stands.
pub open spec fn word_bounds(g: Seq<Glyph>, from: int) -> Seq<(int, int)>
    decreases g.len() - from,
{
    if from < 0 || from >= g.len() {
        Seq::empty()
    } else if g[from].kind == Kind::Space {
        word_bounds(g, from + 1)
    } else {
        let end = from + lead(g.skip(from), Pattern::NonSpace);
        proof {
            assert(Pattern::NonSpace.admits(g.skip(from)[0]));
            lemma_lead(g.skip(from), Pattern::NonSpace);
        }
        seq![(from, end)] + word_bounds(g, end)
    }
}

/// The stretches of `g` between the given bounds.
pub open spec fn stretches(g: Seq<Glyph>, bounds: Seq<(int, int)>) -> Seq<Seq<Glyph>> {
    bounds.map_values(|b: (int, int)| g.subrange(b.0, b.1))
}

/// The words of a text, first to last: the longest stretches without white
/// space.
pub open spec fn words(g: Seq<Glyph>) -> Seq<Seq<Glyph>> {
    stretches(g, word_bounds(g, 0))
}

/// The bounds of each span of a list.
pub open spec fn bounds_of(spans: Seq<Span>) -> Seq<(int, int)> {
    spans.map_values(|s: Span| (s.start as int, s.end as int))
}

/// The three parts of a word.
pub ghost struct Parts {
    /// What stands before the first letter.
    pub lead: Seq<char>,
    /// From the first letter to the last.
    pub core: Seq<char>,
    /// What stands after the last letter.
    pub trail: Seq<char>,
}

impl Parts {
    /// The word as it stood in the text.
    pub open spec fn text(self) -> Seq<char> {
        self.lead + self.core + self.trail
    }
}

/// A word cut into its parts. A word without a letter is all `lead`.
pub open spec fn split(word: Seq<Glyph>) -> Parts {
    let a = core_start(word, Pattern::NonLetter);
    let b = core_end(word, Pattern::NonLetter);
    Parts {
        lead: chars_of(word.take(a)),
        core: chars_of(word.subrange(a, b)),
        trail: chars_of(word.skip(b)),
    }
}

/// The words of a text, each cut into its parts.
pub open spec fn tokens(g: Seq<Glyph>) -> Seq<Parts> {
    words(g).map_values(|w: Seq<Glyph>| split(w))
}

/// The stretches of `g` that the spans cover, in the order of the spans.
pub open spec fn cut(g: Seq<Glyph>, spans: Seq<Span>) -> Seq<Seq<Glyph>> {
    spans.map_values(|s: Span| s.of(g))
}

/// A word of a message, cut into its parts.
#[derive(Clone, Debug, PartialEq, Eq)]
pub struct Token {
    /// What stands before the first letter.
    pub lead: String,
    /// From the first letter to the last.
    pub core: String,
    /// What stands after the last letter.
    pub trail: String,
}

impl View for Token {
    type V = Parts;

    open spec fn view(&self) -> Parts {
        Parts { lead: self.lead@, core: self.core@, trail: self.trail@ }
    }
}

/// The parts of each token of a list.
pub open spec fn parts_of(tokens: Seq<Token>) -> Seq<Parts> {
    tokens.map_values(|t: Token| t@)
}

/// Whether the bounds are those of the longest stretches without white space
/// from position `from` on: they lie one after the other, none is empty, none
/// holds white space, each ends at the end of the text or before white space,
/// and all that is not white space stands in one of them.
pub open spec fn are_word_bounds(g: Seq<Glyph>, from: int, bounds: Seq<(int, int)>) -> bool {
    &&& forall|k: int|
        0 <= k < bounds.len() ==> {
            let b = #[trigger] bounds[k];
            &&& from <= b.0 < b.1 <= g.len()
            &&& forall|i: int| b.0 <= i < b.1 ==> (#[trigger] g[i]).kind != Kind::Space
            &&& b.1 < g.len() ==> g[b.1].kind == Kind::Space
        }
    &&& forall|j: int, k: int|
        0 <= j < k < bounds.len() ==> (#[trigger] bounds[j]).1 < (#[trigger] bounds[k]).0
    &&& forall|i: int|
        from <= i < g.len() && (#[trigger] g[i]).kind != Kind::Space ==> exists|k: int|
            0 <= k < bounds.len() && (#[trigger] bounds[k]).0 <= i < bounds[k].1
}

/// The words of a text are its longest stretches without white space.
pub proof fn lemma_word_bounds(g: Seq<Glyph>, from: int)
    requires
        0 <= from <= g.len(),
    ensures
        are_word_bounds(g, from, word_bounds(g, from)),
    decreases g.len() - from,
{
    let all = word_bounds(g, from);
    if from >= g.len() {
    } else if g[from].kind == Kind::Space {
        lemma_word_bounds(g, from + 1);
    } else {
        let rest = g.skip(from);
        let p = Pattern::NonSpace;
        assert(p.admits(rest[0]));
        lemma_lead(rest, p);
        let end = from + lead(rest, p);
        let later = word_bounds(g, end);
        lemma_word_bounds(g, end);
        assert(all == seq![(from, end)] + later);
        assert forall|i: int| from <= i < end implies (#[trigger] g[i]).kind != Kind::Space by {
            assert(p.admits(rest[i - from]));
        }
        if end < g.len() {
            assert(!p.admits(rest[end - from]));
        }
        assert forall|k: int| 0 <= k < all.len() implies {
            let b = #[trigger] all[k];
            &&& from <= b.0 < b.1 <= g.len()
            &&& forall|i: int| b.0 <= i < b.1 ==> (#[trigger] g[i]).kind != Kind::Space
            &&& b.1 < g.len() ==> g[b.1].kind == Kind::Space
        } by {
            if k > 0 {
                assert(all[k] == later[k - 1]);
            }
        }
        assert forall|j: int, k: int| 0 <= j < k < all.len() implies (#[trigger] all[j]).1 < (
        #[trigger] all[k]).0 by {
            assert(all[k] == later[k - 1]);
            if j == 0 {
                let next = later[k - 1];
                assert(g[next.0].kind != Kind::Space);
            } else {
                assert(all[j] == later[j - 1]);
            }
        }
        assert forall|i: int|
            from <= i < g.len() && (#[trigger] g[i]).kind != Kind::Space implies exists|k: int|
            0 <= k < all.len() && (#[trigger] all[k]).0 <= i < all[k].1 by {
            if i < end {
                assert(all[0].0 <= i < all[0].1);
            } else {
                let k = choose|k: int|
                    0 <= k < later.len() && (#[trigger] later[k]).0 <= i < later[k].1;
                assert(all[k + 1] == later[k]);
            }
        }
    }
}

/// Only the words of a text are its longest stretches without white space.
pub proof fn lemma_word_bounds_unique(g: Seq<Glyph>, from: int, bounds: Seq<(int, int)>)
    requires
        0 <= from <= g.len(),
        are_word_bounds(g, from, bounds),
    ensures
        bounds == word_bounds(g, from),
    decreases g.len() - from,
{
    if from >= g.len() {
        if bounds.len() > 0 {
            let b = bounds[0];
            assert(false);
        }
        assert(bounds =~= word_bounds(g, from));
    } else if g[from].kind == Kind::Space {
        assert forall|k: int| 0 <= k < bounds.len() implies from + 1 <= (#[trigger] bounds[k]).0 by {
            let b = bounds[k];
            assert(g[b.0].kind != Kind::Space);
        }
        lemma_word_bounds_unique(g, from + 1, bounds);
    } else {
        let k = choose|k: int|
            0 <= k < bounds.len() && (#[trigger] bounds[k]).0 <= from < bounds[k].1;
        if k > 0 {
            let before = bounds[k - 1];
            assert(before.1 < bounds[k].0);
            assert(false);
        }
        let first = bounds[0];
        let end = first.1;
        let rest = g.skip(from);
        let p = Pattern::NonSpace;
        assert forall|i: int| 0 <= i < end - from implies p.admits(#[trigger] rest[i]) by {
            assert(g[from + i].kind != Kind::Space);
        }
        crate::run::lemma_lead_is(rest, p, end - from);
        let later = bounds.skip(1);
        assert forall|j: int| 0 <= j < later.len() implies {
            let b = #[trigger] later[j];
            &&& end <= b.0 < b.1 <= g.len()
            &&& forall|i: int| b.0 <= i < b.1 ==> (#[trigger] g[i]).kind != Kind::Space
            &&& b.1 < g.len() ==> g[b.1].kind == Kind::Space
        } by {
            assert(later[j] == bounds[j + 1]);
            assert(bounds[0].1 < bounds[j + 1].0);
        }
        assert forall|i: int, j: int| 0 <= i < j < later.len() implies (#[trigger] later[i]).1 < (
        #[trigger] later[j]).0 by {
            assert(later[i] == bounds[i + 1]);
            assert(later[j] == bounds[j + 1]);
        }
        assert forall|i: int|
            end <= i < g.len() && (#[trigger] g[i]).kind != Kind::Space implies exists|j: int|
            0 <= j < later.len() && (#[trigger] later[j]).0 <= i < later[j].1 by {
            let m = choose|m: int|
                0 <= m < bounds.len() && (#[trigger] bounds[m]).0 <= i < bounds[m].1;
            assert(m > 0);
            assert(later[m - 1] == bounds[m]);
        }
        lemma_word_bounds_unique(g, end, later);
        assert(bounds =~= seq![first] + later);
    }
}

/// Every word is a non-empty stretch without white space.
pub proof fn lemma_words_hold_no_space(g: Seq<Glyph>)
    ensures
        forall|k: int|
            0 <= k < words(g).len() ==> {
                let w = #[trigger] words(g)[k];
                &&& w.len() > 0
                &&& forall|i: int| 0 <= i < w.len() ==> (#[trigger] w[i]).kind != Kind::Space
            },
{
    lemma_word_bounds(g, 0);
    assert forall|k: int| 0 <= k < words(g).len() implies {
        let w = #[trigger] words(g)[k];
        &&& w.len() > 0
        &&& forall|i: int| 0 <= i < w.len() ==> (#[trigger] w[i]).kind != Kind::Space
    } by {
        let b = word_bounds(g, 0)[k];
        let w = words(g)[k];
        assert(w == g.subrange(b.0, b.1));
        assert forall|i: int| 0 <= i < w.len() implies (#[trigger] w[i]).kind != Kind::Space by {
            assert(w[i] == g[b.0 + i]);
        }
    }
}

/// The parts of a word put together are the word; the core, where there is
/// one, begins and ends with a letter, and no letter stands outside it.
pub proof fn lemma_split(word: Seq<Glyph>)
    ensures
        split(word).text() == chars_of(word),
        split(word).lead.len() == core_start(word, Pattern::NonLetter),
        split(word).core.len() == core_end(word, Pattern::NonLetter) - core_start(
            word,
            Pattern::NonLetter,
        ),
        forall|i: int|
            0 <= i < core_start(word, Pattern::NonLetter) ==> (#[trigger] word[i]).kind
                != Kind::Letter,
        forall|i: int|
            core_end(word, Pattern::NonLetter) <= i < word.len() ==> (#[trigger] word[i]).kind
                != Kind::Letter,
        split(word).core.len() > 0 ==> {
            &&& word[core_start(word, Pattern::NonLetter)].kind == Kind::Letter
            &&& word[core_end(word, Pattern::NonLetter) - 1].kind == Kind::Letter
        },
{
    let p = Pattern::NonLetter;
    let a = core_start(word, p);
    let b = core_end(word, p);
    assert(0 <= a <= b <= word.len()) by {
        lemma_trimmed(word, p);
    }
    assert(split(word).text() == chars_of(word)) by {
        let whole = chars_of(word.take(a)) + chars_of(word.subrange(a, b)) + chars_of(word.skip(b));
        assert(whole.len() == word.len());
        assert forall|i: int| 0 <= i < word.len() implies whole[i] == chars_of(word)[i] by {
            if i < a {
                assert(whole[i] == word.take(a)[i].ch);
            } else if i < b {
                assert(whole[i] == word.subrange(a, b)[i - a].ch);
            } else {
                assert(whole[i] == word.skip(b)[i - b].ch);
            }
        }
        assert(whole =~= chars_of(word));
    }
    assert(split(word).core.len() > 0 ==> word[a].kind == Kind::Letter && word[b - 1].kind
        == Kind::Letter) by {
        lemma_trimmed(word, p);
        if b > a {
            let c = trimmed(word, p);
            assert(c.first() == word[a]);
            assert(c.last() == word[b - 1]);
        }
    }
    assert forall|i: int| 0 <= i < a implies (#[trigger] word[i]).kind != Kind::Letter by {
        lemma_trimmed(word, p);
        assert(p.admits(word[i]));
    }
    assert forall|i: int| b <= i < word.len() implies (#[trigger] word[i]).kind
        != Kind::Letter by {
        lemma_trimmed(word, p);
        assert(p.admits(word[i]));
    }
}

/// Where the words of a text stand.
pub fn word_spans(glyphs: &Vec<Glyph>) -> (spans: Vec<Span>)
    ensures
        bounds_of(spans@) == word_bounds(glyphs@, 0),
        cut(glyphs@, spans@) == words(glyphs@),
        forall|k: int| 0 <= k < spans.len() ==> (#[trigger] spans[k]).fits(glyphs@.len()),
{
    let n = glyphs.len();
    let mut spans: Vec<Span> = Vec::new();
    let mut i: usize = 0;
    assert(bounds_of(spans@) + word_bounds(glyphs@, 0) =~= word_bounds(glyphs@, 0));
    while i < n
        invariant
            i <= n == glyphs.len(),
            word_bounds(glyphs@, 0) == bounds_of(spans@) + word_bounds(glyphs@, i as int),
            forall|k: int| 0 <= k < spans.len() ==> (#[trigger] spans[k]).fits(glyphs@.len()),
        decreases n - i,
    {
        if Pattern::Space.test(glyphs[i]) {
            i += 1;
        } else {
            assert(glyphs@.skip(i as int) =~= glyphs@.subrange(i as int, n as int));
            let end = lead_end(glyphs, i, n, Pattern::NonSpace);
            let span = Span { start: i, end };
            proof {
                let b = (i as int, end as int);
                assert(bounds_of(spans@.push(span)) =~= bounds_of(spans@) + seq![b]);
                assert(bounds_of(spans@) + (seq![b] + word_bounds(glyphs@, end as int))
                    =~= bounds_of(spans@.push(span)) + word_bounds(glyphs@, end as int));
            }
            spans.push(span);
            i = end;
        }
    }
    proof {
        assert(bounds_of(spans@) + word_bounds(glyphs@, i as int) =~= bounds_of(spans@));
        lemma_cut(glyphs@, spans@);
    }
    spans
}

/// What the spans cover are the stretches between their bounds.
pub proof fn lemma_cut(g: Seq<Glyph>, spans: Seq<Span>)
    ensures
        cut(g, spans) == stretches(g, bounds_of(spans)),
{
    assert(cut(g, spans) =~= stretches(g, bounds_of(spans)));
}

/// Cuts the word that stands at `span` into its parts.
pub fn token_at(glyphs: &Vec<Glyph>, span: Span) -> (token: Token)
    requires
        span.fits(glyphs@.len()),
    ensures
        token@ == split(span.of(glyphs@)),
{
    let core = trim_span(glyphs, span.start, span.end, Pattern::NonLetter);
    let token = Token {
        lead: text_between(glyphs, span.start, core.start),
        core: text_between(glyphs, core.start, core.end),
        trail: text_between(glyphs, core.end, span.end),
    };
    proof {
        let w = span.of(glyphs@);
        let a = core_start(w, Pattern::NonLetter);
        let b = core_end(w, Pattern::NonLetter);
        assert(w.take(a) =~= glyphs@.subrange(span.start as int, core.start as int));
        assert(w.subrange(a, b) =~= glyphs@.subrange(core.start as int, core.end as int));
        assert(w.skip(b) =~= glyphs@.subrange(core.end as int, span.end as int));
    }
    token
}

/// The tokens of a text, first to last.
pub fn tokenize(glyphs: &Vec<Glyph>) -> (list: Vec<Token>)
    ensures
        parts_of(list@) == tokens(glyphs@),
{
    let spans = word_spans(glyphs);
    let mut list: Vec<Token> = Vec::new();
    let mut k: usize = 0;
    while k < spans.len()
        invariant
            k <= spans.len(),
            cut(glyphs@, spans@) == words(glyphs@),
            forall|j: int| 0 <= j < spans.len() ==> (#[trigger] spans[j]).fits(glyphs@.len()),
            list.len() == k,
            parts_of(list@) == tokens(glyphs@).take(k as int),
        decreases spans.len() - k,
    {
        let token = token_at(glyphs, spans[k]);
        proof {
            assert(cut(glyphs@, spans@).len() == spans.len());
            assert(cut(glyphs@, spans@)[k as int] == spans[k as int].of(glyphs@));
            assert(tokens(glyphs@)[k as int] == split(words(glyphs@)[k as int]));
            assert(tokens(glyphs@).len() == spans.len());
            assert(parts_of(list@.push(token)) =~= tokens(glyphs@).take(k + 1));
        }
        list.push(token);
        k += 1;
    }
    assert(tokens(glyphs@).take(k as int) =~= tokens(glyphs@));
    list
}

} // verus!
