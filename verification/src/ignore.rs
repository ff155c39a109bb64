//! The ignore set of a repository.
//!
//! The ignore file holds one word to a line. White space around a word does
//! not count, nor does the case of its letters; empty lines hold no word.
use vstd::prelude::*;
use crate::glyph::{
    chars_of, classify, glyphs_of, lowercase, str_to_lowercase, text_between, Glyph,
};
use crate::line::{line_spans, lines};
use crate::run::{trim_span, trimmed, Pattern};
use crate::scan::{lemma_ignored_word_not_reported, misspellings};
use crate::token::cut;
use crate::wordset::{texts, WordSet};

verus! {

/// The lines of a text, each without the white space at its ends.
pub open spec fn trimmed_lines(g: Seq<Glyph>) -> Seq<Seq<char>> {
    lines(g).map_values(|l: Seq<Glyph>| chars_of(trimmed(l, Pattern::Space)))
}

/// The words of a list in lower case.
pub open spec fn lowercase_each(words: Seq<Seq<char>>) -> Seq<Seq<char>> {
    words.map_values(|w: Seq<char>| lowercase(w))
}

/// The words of a list that are not empty.
pub open spec fn nonempty_words(words: Seq<Seq<char>>) -> Set<Seq<char>> {
    Set::new(|w: Seq<char>| w.len() > 0 && words.contains(w))
}

/// The ignore set that the text of an ignore file stands for.
pub open spec fn ignore_words(text: Seq<char>) -> Set<Seq<char>> {
    nonempty_words(lowercase_each(trimmed_lines(glyphs_of(text))))
}

/// The lines of a classified text, each without the white space at its ends.
pub fn trimmed_line_texts(glyphs: &Vec<Glyph>) -> (list: Vec<String>)
    ensures
        texts(list@) == trimmed_lines(glyphs@),
{
    let spans = line_spans(glyphs);
    let mut list: Vec<String> = Vec::new();
    let mut i: usize = 0;
    while i < spans.len()
        invariant
            i <= spans.len(),
            list.len() == i,
            cut(glyphs@, spans@) == lines(glyphs@),
            forall|k: int| 0 <= k < spans.len() ==> (#[trigger] spans[k]).fits(glyphs@.len()),
            texts(list@) == trimmed_lines(glyphs@).take(i as int),
        decreases spans.len() - i,
    {
        let span = spans[i];
        let inner = trim_span(glyphs, span.start, span.end, Pattern::Space);
        let word = text_between(glyphs, inner.start, inner.end);
        let ghost before = texts(list@);
        list.push(word);
        proof {
            let all = trimmed_lines(glyphs@);
            assert(cut(glyphs@, spans@).len() == spans.len());
            assert(cut(glyphs@, spans@)[i as int] == span.of(glyphs@));
            assert(all[i as int] == chars_of(trimmed(lines(glyphs@)[i as int], Pattern::Space)));
            assert(texts(list@) =~= before.push(all[i as int]));
            assert(before.push(all[i as int]) =~= all.take(i + 1));
        }
        i += 1;
    }
    assert(trimmed_lines(glyphs@).take(i as int) =~= trimmed_lines(glyphs@));
    list
}

/// The words of a list in lower case.
pub fn lowered_each(words: &Vec<String>) -> (list: Vec<String>)
    ensures
        texts(list@) == lowercase_each(texts(words@)),
{
    let mut list: Vec<String> = Vec::new();
    let mut i: usize = 0;
    while i < words.len()
        invariant
            i <= words.len(),
            list.len() == i,
            texts(list@) == lowercase_each(texts(words@)).take(i as int),
        decreases words.len() - i,
    {
        let ghost before = texts(list@);
        list.push(str_to_lowercase(words[i].as_str()));
        proof {
            let all = lowercase_each(texts(words@));
            assert(all[i as int] == lowercase(words[i as int]@));
            assert(texts(list@) =~= before.push(all[i as int]));
            assert(before.push(all[i as int]) =~= all.take(i + 1));
        }
        i += 1;
    }
    assert(lowercase_each(texts(words@)).take(i as int) =~= lowercase_each(texts(words@)));
    list
}

/// The set of the words of a list that are not empty.
pub fn collect_words(words: &Vec<String>) -> (set: WordSet)
    ensures
        set@ == nonempty_words(texts(words@)),
{
    let mut set = WordSet::new();
    let mut i: usize = 0;
    assert(texts(words@).take(0) =~= Seq::empty());
    assert(set@ =~= nonempty_words(texts(words@).take(0)));
    while i < words.len()
        invariant
            i <= words.len(),
            set@ == nonempty_words(texts(words@).take(i as int)),
        decreases words.len() - i,
    {
        let ghost before = texts(words@).take(i as int);
        let ghost now = texts(words@).take(i + 1);
        let ghost w = words[i as int]@;
        proof {
            assert(now =~= before.push(w));
            assert forall|x: Seq<char>| now.contains(x) <==> before.contains(x) || x == w by {
                if now.contains(x) {
                    let k = choose|k: int| 0 <= k < now.len() && now[k] == x;
                    if k < before.len() {
                        assert(before[k] == x);
                    }
                }
                if before.contains(x) {
                    let k = choose|k: int| 0 <= k < before.len() && before[k] == x;
                    assert(now[k] == x);
                }
                assert(now[before.len() as int] == w);
            }
        }
        if !words[i].as_str().is_empty() {
            set.insert(words[i].as_str());
            assert(set@ =~= nonempty_words(now));
        } else {
            assert(set@ =~= nonempty_words(now));
        }
        i += 1;
    }
    assert(texts(words@).take(i as int) =~= texts(words@));
    set
}

/// Reads the ignore set from the text of an ignore file.
pub fn load_ignore_words(text: &str) -> (set: WordSet)
    ensures
        set@ == ignore_words(text@),
{
    let glyphs = classify(text);
    let trimmed = trimmed_line_texts(&glyphs);
    let lower = lowered_each(&trimmed);
    collect_words(&lower)
}

/// A word is in the ignore set just when it is not empty and is the
/// lower-case form of some line of the file, taken without the white space
/// at its ends.
pub proof fn lemma_ignore_words(text: Seq<char>, word: Seq<char>)
    ensures
        ignore_words(text).contains(word) <==> word.len() > 0 && exists|k: int|
            0 <= k < lines(glyphs_of(text)).len() && word == lowercase(
                chars_of(trimmed(#[trigger] lines(glyphs_of(text))[k], Pattern::Space)),
            ),
{
    let ls = lines(glyphs_of(text));
    let low = lowercase_each(trimmed_lines(glyphs_of(text)));
    if ignore_words(text).contains(word) {
        let k = choose|k: int| 0 <= k < low.len() && low[k] == word;
        assert(word == lowercase(chars_of(trimmed(ls[k], Pattern::Space))));
    }
    if word.len() > 0 && exists|k: int|
        0 <= k < ls.len() && word == lowercase(
            chars_of(trimmed(#[trigger] ls[k], Pattern::Space)),
        ) {
        let k = choose|k: int|
            0 <= k < ls.len() && word == lowercase(
                chars_of(trimmed(#[trigger] ls[k], Pattern::Space)),
            );
        assert(low[k] == word);
    }
}

/// A word that the ignore file lists is never reported, in whatever case
/// the file and the message have it: where the lower-case form of the word
/// is that of a line of the file, and is not empty, no scan under the ignore
/// set of that file reports the word.
pub proof fn lemma_listed_word_not_reported(
    file: Seq<char>,
    k: int,
    text: Seq<char>,
    lexicon: Set<Seq<char>>,
    word: Seq<char>,
)
    requires
        0 <= k < lines(glyphs_of(file)).len(),
        lowercase(word) == lowercase(chars_of(trimmed(lines(glyphs_of(file))[k], Pattern::Space))),
        lowercase(word).len() > 0,
    ensures
        !misspellings(text, lexicon, ignore_words(file)).contains(word),
{
    lemma_ignore_words(file, lowercase(word));
    lemma_ignored_word_not_reported(text, lexicon, ignore_words(file), word);
}

} // verus!
