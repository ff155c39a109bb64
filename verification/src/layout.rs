//! How the words of a message lie in it once it is written out one space
//! apart, and what a scan of that text finds.
use vstd::prelude::*;
use crate::fix::{fixed_text, fixed_word, replacement_for, spaced};
use crate::glyph::{chars_of, glyphs_of, kind_of, Kind};
use crate::run::{lemma_trail_is, lemma_trimmed_padded, Pattern};
use crate::scan::{
    lemma_clean_text_reports_nothing, lemma_misspellings, misspelled, misspellings,
};
use crate::token::{
    are_word_bounds, lemma_split, lemma_word_bounds, lemma_word_bounds_unique,
    lemma_words_hold_no_space, split, tokens, word_bounds, words, Parts,
};
use crate::trim::without_trailing_space;

verus! {

/// Whether a text can stand as one word of a message: it is not empty and
/// holds no white space.
pub open spec fn is_plain_word(w: Seq<char>) -> bool {
    w.len() > 0 && forall|i: int| 0 <= i < w.len() ==> kind_of(#[trigger] w[i]) != Kind::Space
}

/// Where the word at `k` begins in the words written one space apart.
pub open spec fn offset(ws: Seq<Seq<char>>, k: int) -> int {
    spaced(ws.take(k)).len() as int
}

/// The first words written out are the beginning of all words written out.
pub proof fn lemma_spaced_prefix(ws: Seq<Seq<char>>, m: int)
    requires
        0 <= m <= ws.len(),
    ensures
        offset(ws, m) <= spaced(ws).len(),
        spaced(ws).take(offset(ws, m)) == spaced(ws.take(m)),
    decreases ws.len() - m,
{
    if m == ws.len() {
        assert(ws.take(m) =~= ws);
        assert(spaced(ws).take(offset(ws, m)) =~= spaced(ws));
    } else {
        lemma_spaced_prefix(ws, m + 1);
        let longer = ws.take(m + 1);
        assert(longer.drop_last() =~= ws.take(m));
        assert(spaced(longer) == spaced(ws.take(m)) + longer.last() + seq![' ']);
        assert(spaced(ws).take(offset(ws, m)) =~= spaced(ws.take(m)));
    }
}

/// The word at `k` stands at its offset, a blank stands after it, and the
/// next word begins after the blank.
pub proof fn lemma_word_at_offset(ws: Seq<Seq<char>>, k: int)
    requires
        0 <= k < ws.len(),
    ensures
        0 <= offset(ws, k),
        offset(ws, k + 1) == offset(ws, k) + ws[k].len() + 1,
        offset(ws, k + 1) <= spaced(ws).len(),
        spaced(ws).subrange(offset(ws, k), offset(ws, k) + ws[k].len()) == ws[k],
        spaced(ws)[offset(ws, k) + ws[k].len()] == ' ',
{
    let longer = ws.take(k + 1);
    assert(longer.drop_last() =~= ws.take(k));
    assert(longer.last() == ws[k]);
    assert(spaced(longer) == spaced(ws.take(k)) + ws[k] + seq![' ']);
    lemma_spaced_prefix(ws, k + 1);
    let s = spaced(ws);
    let a = offset(ws, k);
    assert(s.take(offset(ws, k + 1)) == spaced(longer));
    assert forall|i: int| 0 <= i < ws[k].len() implies s[a + i] == ws[k][i] by {
        assert(s[a + i] == s.take(offset(ws, k + 1))[a + i]);
    }
    assert(s.subrange(a, a + ws[k].len()) =~= ws[k]);
    assert(s[a + ws[k].len()] == s.take(offset(ws, k + 1))[a + ws[k].len()]);
}

/// A later word begins further on.
pub proof fn lemma_offsets_grow(ws: Seq<Seq<char>>, j: int, k: int)
    requires
        0 <= j <= k <= ws.len(),
    ensures
        offset(ws, j) <= offset(ws, k),
    decreases k - j,
{
    if j < k {
        lemma_word_at_offset(ws, j);
        lemma_offsets_grow(ws, j + 1, k);
    }
}

/// Every position of the text lies in some word or on the blank after it.
pub proof fn lemma_position_has_word(ws: Seq<Seq<char>>, i: int)
    requires
        0 <= i < spaced(ws).len(),
    ensures
        exists|k: int| 0 <= k < ws.len() && offset(ws, k) <= i < #[trigger] offset(ws, k + 1),
    decreases ws.len(),
{
    let n = ws.len() as int;
    assert(n > 0);
    assert(ws.take(n) =~= ws);
    if i >= offset(ws, n - 1) {
        assert(offset(ws, n - 1) <= i < offset(ws, (n - 1) + 1));
    } else {
        let init = ws.drop_last();
        assert(ws.take(n - 1) =~= init);
        lemma_position_has_word(init, i);
        let k = choose|k: int|
            0 <= k < init.len() && offset(init, k) <= i < #[trigger] offset(init, k + 1);
        assert(init.take(k) =~= ws.take(k));
        assert(init.take(k + 1) =~= ws.take(k + 1));
        assert(offset(ws, k) <= i < offset(ws, k + 1));
    }
}

/// Plain words written one space apart, without the white space at the end,
/// are the words of the text that comes out.
pub proof fn lemma_spaced_words(ws: Seq<Seq<char>>)
    requires
        forall|k: int| 0 <= k < ws.len() ==> is_plain_word(#[trigger] ws[k]),
    ensures
        words(glyphs_of(without_trailing_space(spaced(ws)))) == ws.map_values(
            |w: Seq<char>| glyphs_of(w),
        ),
{
    let s = spaced(ws);
    let out = without_trailing_space(s);
    let g = glyphs_of(out);
    let n = ws.len() as int;
    if n == 0 {
        assert(out =~= Seq::<char>::empty());
        assert(words(g) =~= ws.map_values(|w: Seq<char>| glyphs_of(w)));
    } else {
        let last = ws[n - 1];
        lemma_word_at_offset(ws, n - 1);
        assert(ws.take(n) =~= ws);
        assert(s.len() == offset(ws, n - 1) + last.len() + 1);
        assert(out == s.drop_last()) by {
            let gs = glyphs_of(s);
            assert(gs[gs.len() - 1].kind == Kind::Space);
            let a = offset(ws, n - 1);
            assert(s.subrange(a, a + last.len())[last.len() - 1] == s[a + last.len() - 1]);
            assert(kind_of(last[last.len() - 1]) != Kind::Space);
            assert(gs[gs.len() - 2].kind != Kind::Space);
            lemma_trail_is(gs, Pattern::Space, 1);
            assert(s.take(s.len() - 1) =~= s.drop_last());
        }
        let bounds = Seq::new(ws.len(), |k: int| (offset(ws, k), offset(ws, k) + ws[k].len()));
        assert forall|k: int| 0 <= k < bounds.len() implies {
            let b = #[trigger] bounds[k];
            &&& 0 <= b.0 < b.1 <= g.len()
            &&& forall|i: int| b.0 <= i < b.1 ==> (#[trigger] g[i]).kind != Kind::Space
            &&& b.1 < g.len() ==> g[b.1].kind == Kind::Space
        } by {
            lemma_word_at_offset(ws, k);
            let a = offset(ws, k);
            assert(is_plain_word(ws[k]));
            assert forall|i: int| a <= i < a + ws[k].len() implies (#[trigger] g[i]).kind
                != Kind::Space by {
                assert(s.subrange(a, a + ws[k].len())[i - a] == s[i]);
                assert(kind_of(ws[k][i - a]) != Kind::Space);
            }
        }
        assert forall|j: int, k: int| 0 <= j < k < bounds.len() implies (#[trigger] bounds[j]).1 < (
        #[trigger] bounds[k]).0 by {
            lemma_word_at_offset(ws, j);
            lemma_offsets_grow(ws, j + 1, k);
        }
        assert forall|i: int|
            0 <= i < g.len() && (#[trigger] g[i]).kind != Kind::Space implies exists|k: int|
            0 <= k < bounds.len() && (#[trigger] bounds[k]).0 <= i < bounds[k].1 by {
            lemma_position_has_word(ws, i);
            let k = choose|k: int|
                0 <= k < ws.len() && offset(ws, k) <= i < #[trigger] offset(ws, k + 1);
            lemma_word_at_offset(ws, k);
            assert(bounds[k].0 <= i < bounds[k].1);
        }
        assert(are_word_bounds(g, 0, bounds));
        lemma_word_bounds_unique(g, 0, bounds);
        assert forall|k: int| 0 <= k < ws.len() implies #[trigger] words(g)[k] == glyphs_of(
            ws[k],
        ) by {
            lemma_word_at_offset(ws, k);
            let a = offset(ws, k);
            assert(words(g)[k] == g.subrange(a, a + ws[k].len()));
            assert forall|i: int| 0 <= i < ws[k].len() implies g.subrange(a, a + ws[k].len())[i]
                == glyphs_of(ws[k])[i] by {
                assert(s.subrange(a, a + ws[k].len())[i] == s[a + i]);
            }
            assert(g.subrange(a, a + ws[k].len()) =~= glyphs_of(ws[k]));
        }
        assert(words(g) =~= ws.map_values(|w: Seq<char>| glyphs_of(w)));
    }
}

/// A word of a classified text is plain, and its glyphs are those of its
/// characters.
pub proof fn lemma_word_is_plain(text: Seq<char>, k: int)
    requires
        0 <= k < words(glyphs_of(text)).len(),
    ensures
        is_plain_word(chars_of(words(glyphs_of(text))[k])),
        glyphs_of(chars_of(words(glyphs_of(text))[k])) == words(glyphs_of(text))[k],
{
    let g = glyphs_of(text);
    let w = words(g)[k];
    let b = word_bounds(g, 0)[k];
    lemma_word_bounds(g, 0);
    lemma_words_hold_no_space(g);
    assert(w == g.subrange(b.0, b.1));
    assert forall|i: int| 0 <= i < w.len() implies kind_of(#[trigger] chars_of(w)[i])
        != Kind::Space by {
        assert(w[i] == g[b.0 + i]);
        assert(w[i].kind != Kind::Space);
    }
    assert forall|i: int| 0 <= i < w.len() implies glyphs_of(chars_of(w))[i] == w[i] by {
        assert(w[i] == g[b.0 + i]);
    }
    assert(glyphs_of(chars_of(w)) =~= w);
}

/// Where every word of the fixed message is plain, the tokens of the fixed
/// message are the fixed words of the message, one for one.
pub proof fn lemma_fixed_text_tokens(
    text: Seq<char>,
    lexicon: Set<Seq<char>>,
    ignore: Set<Seq<char>>,
    fixes: Seq<(Seq<char>, Seq<char>)>,
)
    requires
        forall|k: int|
            0 <= k < tokens(glyphs_of(text)).len() ==> is_plain_word(
                fixed_word(#[trigger] tokens(glyphs_of(text))[k], lexicon, ignore, fixes),
            ),
    ensures
        tokens(glyphs_of(fixed_text(text, lexicon, ignore, fixes))) == tokens(
            glyphs_of(text),
        ).map_values(|t: Parts| split(glyphs_of(fixed_word(t, lexicon, ignore, fixes)))),
{
    let ts = tokens(glyphs_of(text));
    let ws = ts.map_values(|t: Parts| fixed_word(t, lexicon, ignore, fixes));
    assert forall|k: int| 0 <= k < ws.len() implies is_plain_word(#[trigger] ws[k]) by {
        assert(ws[k] == fixed_word(ts[k], lexicon, ignore, fixes));
    }
    lemma_spaced_words(ws);
    assert(tokens(glyphs_of(fixed_text(text, lexicon, ignore, fixes))) =~= ts.map_values(
        |t: Parts| split(glyphs_of(fixed_word(t, lexicon, ignore, fixes))),
    ));
}

/// Where no fix applies to a misspelled word of the message, the fixed
/// message has the tokens of the message, and a scan of it finds what a scan
/// of the message finds, whatever the lexicon and the ignore set of that scan.
pub proof fn lemma_unfixed_text_keeps_tokens(
    text: Seq<char>,
    lexicon: Set<Seq<char>>,
    ignore: Set<Seq<char>>,
    fixes: Seq<(Seq<char>, Seq<char>)>,
)
    requires
        forall|k: int|
            0 <= k < tokens(glyphs_of(text)).len() ==> {
                let t = #[trigger] tokens(glyphs_of(text))[k];
                !misspelled(t.core, lexicon, ignore) || replacement_for(fixes, t.core).is_none()
            },
    ensures
        tokens(glyphs_of(fixed_text(text, lexicon, ignore, fixes))) == tokens(glyphs_of(text)),
        forall|other: Set<Seq<char>>, spared: Set<Seq<char>>|
            #[trigger] misspellings(fixed_text(text, lexicon, ignore, fixes), other, spared)
                == misspellings(text, other, spared),
{
    let g = glyphs_of(text);
    let ts = tokens(g);
    assert forall|k: int| 0 <= k < ts.len() implies {
        let w = fixed_word(#[trigger] ts[k], lexicon, ignore, fixes);
        &&& is_plain_word(w)
        &&& split(glyphs_of(w)) == ts[k]
    } by {
        let word = words(g)[k];
        assert(ts[k] == split(word));
        lemma_split(word);
        lemma_word_is_plain(text, k);
        assert(fixed_word(ts[k], lexicon, ignore, fixes) == chars_of(word));
    }
    lemma_fixed_text_tokens(text, lexicon, ignore, fixes);
    assert(tokens(glyphs_of(fixed_text(text, lexicon, ignore, fixes))) =~= ts);
}

/// A word of the message with its core replaced by a plain word is plain, and
/// its core is the core of the replacement.
pub proof fn lemma_mended_word(text: Seq<char>, k: int, replacement: Seq<char>)
    requires
        0 <= k < tokens(glyphs_of(text)).len(),
        is_plain_word(replacement),
    ensures
        ({
            let t = tokens(glyphs_of(text))[k];
            let w = t.lead + replacement + t.trail;
            &&& is_plain_word(w)
            &&& split(glyphs_of(w)).core == split(glyphs_of(replacement)).core
        }),
{
    let g = glyphs_of(text);
    let word = words(g)[k];
    let t = tokens(g)[k];
    assert(t == split(word));
    let w = t.lead + replacement + t.trail;
    let p = Pattern::NonLetter;
    lemma_split(word);
    lemma_word_is_plain(text, k);
    let a = t.lead.len() as int;
    let b = a + t.core.len();
    assert forall|i: int| 0 <= i < t.lead.len() implies kind_of(#[trigger] t.lead[i])
        == word[i].kind by {
        assert(glyphs_of(chars_of(word))[i] == word[i]);
    }
    assert forall|i: int| 0 <= i < t.trail.len() implies kind_of(#[trigger] t.trail[i])
        == word[b + i].kind by {
        assert(glyphs_of(chars_of(word))[b + i] == word[b + i]);
    }
    assert forall|i: int| 0 <= i < w.len() implies kind_of(#[trigger] w[i]) != Kind::Space by {
        if i < a {
            assert(w[i] == t.lead[i]);
            assert(kind_of(chars_of(word)[i]) != Kind::Space);
        } else if i < a + replacement.len() {
            assert(w[i] == replacement[i - a]);
        } else {
            let j = i - a - replacement.len();
            assert(w[i] == t.trail[j]);
            assert(kind_of(chars_of(word)[b + j]) != Kind::Space);
        }
    }
    let before = glyphs_of(t.lead);
    let after = glyphs_of(t.trail);
    let middle = glyphs_of(replacement);
    assert(glyphs_of(w) =~= before + middle + after);
    assert forall|i: int| 0 <= i < before.len() implies p.admits(#[trigger] before[i]) by {
        assert(kind_of(t.lead[i]) == word[i].kind);
    }
    assert forall|i: int| 0 <= i < after.len() implies p.admits(#[trigger] after[i]) by {
        assert(kind_of(t.trail[i]) == word[b + i].kind);
    }
    lemma_trimmed_padded(before, middle, after, p);
}

/// Where every misspelled word of the message has a fix, and each of these
/// fixes puts a plain word with no misspelled core in its place, a scan of
/// the fixed message finds nothing.
pub proof fn lemma_fixes_resolve(
    text: Seq<char>,
    lexicon: Set<Seq<char>>,
    ignore: Set<Seq<char>>,
    fixes: Seq<(Seq<char>, Seq<char>)>,
)
    requires
        forall|w: Seq<char>|
            #[trigger] misspellings(text, lexicon, ignore).contains(w) ==> match replacement_for(
                fixes,
                w,
            ) {
                Some(r) => is_plain_word(r) && !misspelled(
                    split(glyphs_of(r)).core,
                    lexicon,
                    ignore,
                ),
                None => false,
            },
    ensures
        misspellings(fixed_text(text, lexicon, ignore, fixes), lexicon, ignore).len() == 0,
{
    let g = glyphs_of(text);
    let ts = tokens(g);
    let fixed = fixed_text(text, lexicon, ignore, fixes);
    lemma_misspellings(text, lexicon, ignore);
    assert forall|k: int| 0 <= k < ts.len() implies {
        let w = fixed_word(#[trigger] ts[k], lexicon, ignore, fixes);
        &&& is_plain_word(w)
        &&& !misspelled(split(glyphs_of(w)).core, lexicon, ignore)
    } by {
        let t = ts[k];
        let word = words(g)[k];
        assert(t == split(word));
        if misspelled(t.core, lexicon, ignore) {
            assert(misspellings(text, lexicon, ignore).contains(t.core));
            let r = replacement_for(fixes, t.core)->Some_0;
            lemma_mended_word(text, k, r);
        } else {
            lemma_split(word);
            lemma_word_is_plain(text, k);
        }
    }
    lemma_fixed_text_tokens(text, lexicon, ignore, fixes);
    let after = tokens(glyphs_of(fixed));
    assert forall|k: int| 0 <= k < after.len() implies !misspelled(
        (#[trigger] after[k]).core,
        lexicon,
        ignore,
    ) by {
        assert(after[k] == split(glyphs_of(fixed_word(ts[k], lexicon, ignore, fixes))));
    }
    lemma_clean_text_reports_nothing(fixed, lexicon, ignore);
}

/// A message in which the scan finds nothing is, written out again with
/// whatever fixes and scanned again, still a message in which the scan finds
/// nothing.
pub proof fn lemma_clean_message_stays_clean(
    text: Seq<char>,
    lexicon: Set<Seq<char>>,
    ignore: Set<Seq<char>>,
    fixes: Seq<(Seq<char>, Seq<char>)>,
)
    requires
        misspellings(text, lexicon, ignore).len() == 0,
    ensures
        misspellings(fixed_text(text, lexicon, ignore, fixes), lexicon, ignore).len() == 0,
{
    lemma_clean_text_reports_nothing(text, lexicon, ignore);
    lemma_unfixed_text_keeps_tokens(text, lexicon, ignore, fixes);
}

} // verus!
