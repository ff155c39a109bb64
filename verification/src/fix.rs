//! Replacing misspelled words in a message.
//!
//! A fix names a word and what to put in its place. The message is written
//! out again word by word: a token whose core is misspelled and has a fix
//! gets the replacement between the punctuation that stood around the core,
//! every other token stays as it is. The words are set one space apart and
//! white space at the end is dropped.
use vstd::prelude::*;
use vstd::string::StringExecFns;
use crate::glyph::{chars_of, classify, glyphs_of, Glyph, Kind};
use crate::run::{core_end, core_start, lemma_trimmed, Pattern};
use crate::scan::{fold, lemma_misspellings, misspelled, misspellings, select_flagged};
use crate::token::{lemma_split, parts_of, split, tokenize, tokens, Parts, Token};
use crate::trim::{trim_end, without_trailing_space};
use crate::wordset::WordSet;

verus! {

/// A word and what to write in its place.
#[derive(Clone, Debug, PartialEq, Eq)]
pub struct Fix {
    pub word: String,
    pub replacement: String,
}

impl View for Fix {
    type V = (Seq<char>, Seq<char>);

    open spec fn view(&self) -> (Seq<char>, Seq<char>) {
        (self.word@, self.replacement@)
    }
}

/// The fixes of a list as pairs of texts.
pub open spec fn fixes_of(list: Seq<Fix>) -> Seq<(Seq<char>, Seq<char>)> {
    list.map_values(|f: Fix| f@)
}

/// What the first fix for `word` puts in its place, if there is one.
pub open spec fn replacement_for(fixes: Seq<(Seq<char>, Seq<char>)>, word: Seq<char>) -> Option<
    Seq<char>,
>
    decreases fixes.len(),
{
    if fixes.len() == 0 {
        None
    } else if fixes[0].0 == word {
        Some(fixes[0].1)
    } else {
        replacement_for(fixes.drop_first(), word)
    }
}

/// A token with its core replaced, or as it stood where nothing replaces it.
pub open spec fn mend(t: Parts, replacement: Option<Seq<char>>) -> Seq<char> {
    match replacement {
        Some(r) => t.lead + r + t.trail,
        None => t.text(),
    }
}

/// A token as it is written out, given the set of words to replace.
pub open spec fn rewritten(
    t: Parts,
    flagged: Set<Seq<char>>,
    fixes: Seq<(Seq<char>, Seq<char>)>,
) -> Seq<char> {
    if flagged.contains(t.core) {
        mend(t, replacement_for(fixes, t.core))
    } else {
        t.text()
    }
}

/// The words one after the other, each followed by one space.
pub open spec fn spaced(words: Seq<Seq<char>>) -> Seq<char>
    decreases words.len(),
{
    if words.len() == 0 {
        Seq::empty()
    } else {
        spaced(words.drop_last()) + words.last() + seq![' ']
    }
}

/// Looks up the first fix for a word.
pub fn find_fix<'a>(fixes: &'a Vec<Fix>, word: &str) -> (found: Option<&'a Fix>)
    ensures
        match found {
            Some(f) => {
                &&& fixes@.contains(*f)
                &&& f.word@ == word@
                &&& replacement_for(fixes_of(fixes@), word@) == Some(f.replacement@)
            },
            None => replacement_for(fixes_of(fixes@), word@).is_none(),
        },
{
    let w = word.to_owned();
    let mut i: usize = 0;
    assert(fixes_of(fixes@).skip(0) =~= fixes_of(fixes@));
    while i < fixes.len()
        invariant
            i <= fixes.len(),
            w@ == word@,
            replacement_for(fixes_of(fixes@), word@) == replacement_for(
                fixes_of(fixes@).skip(i as int),
                word@,
            ),
        decreases fixes.len() - i,
    {
        let ghost rest = fixes_of(fixes@).skip(i as int);
        assert(rest[0] == fixes[i as int]@);
        if fixes[i].word == w {
            assert(fixes@[i as int] == fixes[i as int]);
            return Some(&fixes[i]);
        }
        assert(rest.drop_first() =~= fixes_of(fixes@).skip(i + 1));
        i += 1;
    }
    None
}

/// Writes the tokens out, one space after each, with the fixes applied to the
/// tokens whose core is in `flagged`.
pub fn rewrite(list: &Vec<Token>, flagged: &WordSet, fixes: &Vec<Fix>) -> (out: String)
    ensures
        out@ == spaced(
            parts_of(list@).map_values(|t: Parts| rewritten(t, flagged@, fixes_of(fixes@))),
        ),
{
    let ghost words = parts_of(list@).map_values(
        |t: Parts| rewritten(t, flagged@, fixes_of(fixes@)),
    );
    let mut out = String::new();
    let mut i: usize = 0;
    assert(words.take(0) =~= Seq::empty());
    while i < list.len()
        invariant
            i <= list.len(),
            words == parts_of(list@).map_values(
                |t: Parts| rewritten(t, flagged@, fixes_of(fixes@)),
            ),
            out@ == spaced(words.take(i as int)),
        decreases list.len() - i,
    {
        let token = &list[i];
        let ghost before = out@;
        let ghost t = token@;
        assert(words[i as int] == rewritten(t, flagged@, fixes_of(fixes@)));
        let fix = if flagged.contains(token.core.as_str()) {
            find_fix(fixes, token.core.as_str())
        } else {
            None
        };
        out.append(token.lead.as_str());
        match fix {
            Some(f) => {
                out.append(f.replacement.as_str());
            },
            None => {
                out.append(token.core.as_str());
            },
        }
        out.append(token.trail.as_str());
        out.push(' ');
        proof {
            let upto = words.take(i + 1);
            assert(upto.drop_last() =~= words.take(i as int));
            assert(upto.last() == words[i as int]);
            assert(out@ =~= before + words[i as int] + seq![' ']);
        }
        i += 1;
    }
    assert(words.take(i as int) =~= words);
    out
}

/// A token as the fixed message holds it: with the replacement of the first
/// fix for its core where the core is misspelled, else unchanged.
pub open spec fn fixed_word(
    t: Parts,
    lexicon: Set<Seq<char>>,
    ignore: Set<Seq<char>>,
    fixes: Seq<(Seq<char>, Seq<char>)>,
) -> Seq<char> {
    if misspelled(t.core, lexicon, ignore) {
        mend(t, replacement_for(fixes, t.core))
    } else {
        t.text()
    }
}

/// The message with the fixes applied.
pub open spec fn fixed_text(
    text: Seq<char>,
    lexicon: Set<Seq<char>>,
    ignore: Set<Seq<char>>,
    fixes: Seq<(Seq<char>, Seq<char>)>,
) -> Seq<char> {
    without_trailing_space(
        spaced(
            tokens(glyphs_of(text)).map_values(|t: Parts| fixed_word(t, lexicon, ignore, fixes)),
        ),
    )
}

/// Applies the fixes to the misspelled words of a message and returns the
/// message, its words one space apart.
pub fn apply_inline_fixes(
    content: &str,
    lexicon: &WordSet,
    ignore: &WordSet,
    fixes: &Vec<Fix>,
) -> (fixed: String)
    ensures
        fixed@ == fixed_text(content@, lexicon@, ignore@, fixes_of(fixes@)),
{
    let glyphs = classify(content);
    let list = tokenize(&glyphs);
    let cands = fold(&list);
    let found = select_flagged(&cands, lexicon, ignore);
    let flagged = WordSet::from_list(&found);
    let joined = rewrite(&list, &flagged, fixes);
    proof {
        let ts = tokens(glyphs_of(content@));
        lemma_misspellings(content@, lexicon@, ignore@);
        assert forall|k: int| 0 <= k < ts.len() implies rewritten(
            #[trigger] ts[k],
            flagged@,
            fixes_of(fixes@),
        ) == fixed_word(ts[k], lexicon@, ignore@, fixes_of(fixes@)) by {
            assert(flagged@.contains(ts[k].core) == misspellings(
                content@,
                lexicon@,
                ignore@,
            ).contains(ts[k].core));
        }
        assert(ts.map_values(|t: Parts| rewritten(t, flagged@, fixes_of(fixes@))) =~= ts.map_values(
            |t: Parts| fixed_word(t, lexicon@, ignore@, fixes_of(fixes@)),
        ));
    }
    trim_end(joined.as_str())
}

/// A replacement leaves the punctuation around a misspelled word as it
/// stood: the fixed word begins with what stood before the first letter, ends
/// with what stood after the last, and holds the replacement between the two;
/// no letter of the word stands in either.
pub proof fn lemma_fix_keeps_punctuation(
    word: Seq<Glyph>,
    lexicon: Set<Seq<char>>,
    ignore: Set<Seq<char>>,
    fixes: Seq<(Seq<char>, Seq<char>)>,
    replacement: Seq<char>,
)
    requires
        misspelled(split(word).core, lexicon, ignore),
        replacement_for(fixes, split(word).core) == Some(replacement),
    ensures
        ({
            let a = core_start(word, Pattern::NonLetter);
            let b = core_end(word, Pattern::NonLetter);
            let fixed = fixed_word(split(word), lexicon, ignore, fixes);
            &&& 0 <= a < b <= word.len()
            &&& fixed.len() == a + replacement.len() + (word.len() - b)
            &&& fixed.take(a) == chars_of(word).take(a)
            &&& fixed.subrange(a, a + replacement.len()) == replacement
            &&& fixed.skip(a + replacement.len()) == chars_of(word).skip(b)
            &&& forall|i: int| 0 <= i < a || b <= i < word.len() ==> (#[trigger] word[i]).kind
                != Kind::Letter
        }),
{
    let a = core_start(word, Pattern::NonLetter);
    let b = core_end(word, Pattern::NonLetter);
    let fixed = fixed_word(split(word), lexicon, ignore, fixes);
    lemma_split(word);
    lemma_trimmed(word, Pattern::NonLetter);
    assert(fixed.take(a) =~= chars_of(word).take(a));
    assert(fixed.subrange(a, a + replacement.len()) =~= replacement);
    assert(fixed.skip(a + replacement.len()) =~= chars_of(word).skip(b));
}

/// A word without a misspelled core, or without a fix for it, stays as it
/// stood.
pub proof fn lemma_unfixed_word_stays(
    word: Seq<Glyph>,
    lexicon: Set<Seq<char>>,
    ignore: Set<Seq<char>>,
    fixes: Seq<(Seq<char>, Seq<char>)>,
)
    requires
        !misspelled(split(word).core, lexicon, ignore) || replacement_for(
            fixes,
            split(word).core,
        ).is_none(),
    ensures
        fixed_word(split(word), lexicon, ignore, fixes) == chars_of(word),
{
    lemma_split(word);
}

/// The core of a word stands in the word once: between the punctuation before
/// it and the punctuation after it, and nowhere else. So to replace the core
/// wherever it stands in the word is to replace it there.
pub proof fn lemma_core_stands_once(text: Seq<char>, k: int)
    requires
        split(glyphs_of(text)).core.len() > 0,
        0 <= k,
        k + split(glyphs_of(text)).core.len() <= text.len(),
        text.subrange(k, k + split(glyphs_of(text)).core.len()) == split(glyphs_of(text)).core,
    ensures
        k == split(glyphs_of(text)).lead.len(),
{
    let word = glyphs_of(text);
    let core = split(word).core;
    let a = core_start(word, Pattern::NonLetter);
    let b = core_end(word, Pattern::NonLetter);
    lemma_split(word);
    let found = text.subrange(k, k + core.len());
    assert(core[0] == word[a].ch);
    assert(core[core.len() - 1] == word[b - 1].ch);
    assert(found[0] == text[k]);
    assert(found[core.len() - 1] == text[k + core.len() - 1]);
    assert(word[k].kind == word[a].kind);
    assert(word[k + core.len() - 1].kind == word[b - 1].kind);
}

} // verus!
