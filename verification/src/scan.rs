//! The scan of a message for misspelled words.
//!
//! A word is misspelled when it has a letter, its lower-case form is not in
//! the ignore set, and the dictionary does not accept it. The dictionary
//! enters as the set of words that it has accepted.
use vstd::prelude::*;
use crate::glyph::{classify, glyphs_of, lowercase, str_to_lowercase};
use crate::token::{parts_of, tokenize, tokens, Parts, Token};
use crate::wordset::{list_holds, texts, WordSet};

verus! {

/// A word and its lower-case form.
#[derive(Clone, Debug, PartialEq, Eq)]
pub struct Candidate {
    pub word: String,
    pub lower: String,
}

impl View for Candidate {
    type V = (Seq<char>, Seq<char>);

    open spec fn view(&self) -> (Seq<char>, Seq<char>) {
        (self.word@, self.lower@)
    }
}

/// The candidates of a list as pairs of texts.
pub open spec fn pairs_of(list: Seq<Candidate>) -> Seq<(Seq<char>, Seq<char>)> {
    list.map_values(|c: Candidate| c@)
}

/// Whether a word with the given lower-case form is to be reported.
pub open spec fn flagged(
    word: Seq<char>,
    lower: Seq<char>,
    lexicon: Set<Seq<char>>,
    ignore: Set<Seq<char>>,
) -> bool {
    word.len() > 0 && !ignore.contains(lower) && !lexicon.contains(word)
}

/// The words to report among the candidates: each once, in the order in which
/// they first stand in the list.
pub open spec fn picked(
    cands: Seq<(Seq<char>, Seq<char>)>,
    lexicon: Set<Seq<char>>,
    ignore: Set<Seq<char>>,
) -> Seq<Seq<char>>
    decreases cands.len(),
{
    if cands.len() == 0 {
        Seq::empty()
    } else {
        let before = picked(cands.drop_last(), lexicon, ignore);
        let c = cands.last();
        if flagged(c.0, c.1, lexicon, ignore) && !before.contains(c.0) {
            before.push(c.0)
        } else {
            before
        }
    }
}

/// No word is picked twice, and a word is picked just when some candidate
/// with that word is flagged.
pub proof fn lemma_picked(
    cands: Seq<(Seq<char>, Seq<char>)>,
    lexicon: Set<Seq<char>>,
    ignore: Set<Seq<char>>,
)
    ensures
        picked(cands, lexicon, ignore).no_duplicates(),
        forall|w: Seq<char>|
            #[trigger] picked(cands, lexicon, ignore).contains(w) <==> exists|i: int|
                0 <= i < cands.len() && (#[trigger] cands[i]).0 == w && flagged(
                    w,
                    cands[i].1,
                    lexicon,
                    ignore,
                ),
    decreases cands.len(),
{
    if cands.len() > 0 {
        let init = cands.drop_last();
        let before = picked(init, lexicon, ignore);
        let c = cands.last();
        let now = picked(cands, lexicon, ignore);
        lemma_picked(init, lexicon, ignore);
        assert forall|w: Seq<char>| now.contains(w) implies exists|i: int|
            0 <= i < cands.len() && (#[trigger] cands[i]).0 == w && flagged(
                w,
                cands[i].1,
                lexicon,
                ignore,
            ) by {
            if before.contains(w) {
                let i = choose|i: int|
                    0 <= i < init.len() && (#[trigger] init[i]).0 == w && flagged(
                        w,
                        init[i].1,
                        lexicon,
                        ignore,
                    );
                assert(cands[i] == init[i]);
            } else {
                let k = choose|k: int| 0 <= k < now.len() && now[k] == w;
                assert(now == before.push(c.0));
                if k < before.len() {
                    assert(before[k] == w);
                }
                assert(cands[cands.len() - 1] == c);
            }
        }
        assert forall|w: Seq<char>|
            (exists|i: int|
                0 <= i < cands.len() && (#[trigger] cands[i]).0 == w && flagged(
                    w,
                    cands[i].1,
                    lexicon,
                    ignore,
                )) implies now.contains(w) by {
            let i = choose|i: int|
                0 <= i < cands.len() && (#[trigger] cands[i]).0 == w && flagged(
                    w,
                    cands[i].1,
                    lexicon,
                    ignore,
                );
            if i < init.len() {
                assert(init[i] == cands[i]);
                assert(before.contains(w));
                let k = choose|k: int| 0 <= k < before.len() && before[k] == w;
                assert(now[k] == w);
            } else {
                if before.contains(w) {
                    let k = choose|k: int| 0 <= k < before.len() && before[k] == w;
                    assert(now[k] == w);
                } else {
                    assert(now == before.push(w));
                    assert(now[before.len() as int] == w);
                }
            }
        }
    }
}

/// Picks the words to report from a list of candidates.
pub fn select_flagged(cands: &Vec<Candidate>, lexicon: &WordSet, ignore: &WordSet) -> (list: Vec<
    String,
>)
    ensures
        texts(list@) == picked(pairs_of(cands@), lexicon@, ignore@),
{
    let mut list: Vec<String> = Vec::new();
    let mut i: usize = 0;
    assert(pairs_of(cands@).take(0) =~= Seq::empty());
    assert(texts(list@) =~= Seq::empty());
    while i < cands.len()
        invariant
            i <= cands.len(),
            texts(list@) == picked(pairs_of(cands@).take(i as int), lexicon@, ignore@),
        decreases cands.len() - i,
    {
        let c = &cands[i];
        proof {
            let upto = pairs_of(cands@).take(i + 1);
            assert(upto.drop_last() =~= pairs_of(cands@).take(i as int));
            assert(upto.last() == c@);
        }
        if !c.word.as_str().is_empty() && !ignore.contains(c.lower.as_str()) && !lexicon.contains(
            c.word.as_str(),
        ) && !list_holds(&list, c.word.as_str()) {
            let ghost before = texts(list@);
            list.push(c.word.clone());
            assert(texts(list@) =~= before.push(c.word@));
        }
        i += 1;
    }
    assert(pairs_of(cands@).take(i as int) =~= pairs_of(cands@));
    list
}

/// The core of each token with its lower-case form.
pub open spec fn folded(ts: Seq<Parts>) -> Seq<(Seq<char>, Seq<char>)> {
    ts.map_values(|t: Parts| (t.core, lowercase(t.core)))
}

/// Pairs the core of each token with its lower-case form.
pub fn fold(list: &Vec<Token>) -> (cands: Vec<Candidate>)
    ensures
        pairs_of(cands@) == folded(parts_of(list@)),
{
    let mut cands: Vec<Candidate> = Vec::new();
    let mut i: usize = 0;
    while i < list.len()
        invariant
            i <= list.len(),
            cands.len() == i,
            pairs_of(cands@) == folded(parts_of(list@)).take(i as int),
        decreases list.len() - i,
    {
        let word = list[i].core.clone();
        let lower = str_to_lowercase(word.as_str());
        let ghost before = pairs_of(cands@);
        cands.push(Candidate { word, lower });
        proof {
            let all = folded(parts_of(list@));
            assert(all[i as int] == (list[i as int]@.core, lowercase(list[i as int]@.core)));
            assert(pairs_of(cands@) =~= before.push(all[i as int]));
            assert(before.push(all[i as int]) =~= all.take(i + 1));
        }
        i += 1;
    }
    assert(folded(parts_of(list@)).take(i as int) =~= folded(parts_of(list@)));
    cands
}

/// Whether a word is misspelled: it is not empty, its lower-case form is not
/// in the ignore set, and the lexicon does not hold it.
pub open spec fn misspelled(word: Seq<char>, lexicon: Set<Seq<char>>, ignore: Set<Seq<char>>) -> bool {
    flagged(word, lowercase(word), lexicon, ignore)
}

/// The misspelled words of a text: the cores of its tokens that are
/// misspelled, each once, in the order in which they first stand in the text.
pub open spec fn misspellings(
    text: Seq<char>,
    lexicon: Set<Seq<char>>,
    ignore: Set<Seq<char>>,
) -> Seq<Seq<char>> {
    picked(folded(tokens(glyphs_of(text))), lexicon, ignore)
}

/// The list of misspellings holds no word twice, and holds a word just when
/// it is the core of a token of the text and misspelled.
pub proof fn lemma_misspellings(text: Seq<char>, lexicon: Set<Seq<char>>, ignore: Set<Seq<char>>)
    ensures
        misspellings(text, lexicon, ignore).no_duplicates(),
        forall|w: Seq<char>|
            #[trigger] misspellings(text, lexicon, ignore).contains(w) <==> misspelled(
                w,
                lexicon,
                ignore,
            )
                && exists|k: int|
                0 <= k < tokens(glyphs_of(text)).len() && (#[trigger] tokens(
                    glyphs_of(text),
                )[k]).core == w,
{
    let ts = tokens(glyphs_of(text));
    let cands = folded(ts);
    lemma_picked(cands, lexicon, ignore);
    assert forall|w: Seq<char>| misspellings(text, lexicon, ignore).contains(w) implies misspelled(
        w,
        lexicon,
        ignore,
    ) && exists|k: int| 0 <= k < ts.len() && (#[trigger] ts[k]).core == w by {
        let i = choose|i: int|
            0 <= i < cands.len() && (#[trigger] cands[i]).0 == w && flagged(
                w,
                cands[i].1,
                lexicon,
                ignore,
            );
        assert(ts[i].core == w);
    }
    assert forall|w: Seq<char>|
        misspelled(w, lexicon, ignore) && (exists|k: int|
            0 <= k < ts.len() && (#[trigger] ts[k]).core == w) implies misspellings(
        text,
        lexicon,
        ignore,
    ).contains(w) by {
        let k = choose|k: int| 0 <= k < ts.len() && (#[trigger] ts[k]).core == w;
        assert(cands[k].0 == w);
    }
}

/// A word whose lower-case form is in the ignore set is never reported,
/// whatever the text and the lexicon.
pub proof fn lemma_ignored_word_not_reported(
    text: Seq<char>,
    lexicon: Set<Seq<char>>,
    ignore: Set<Seq<char>>,
    word: Seq<char>,
)
    requires
        ignore.contains(lowercase(word)),
    ensures
        !misspellings(text, lexicon, ignore).contains(word),
{
    lemma_misspellings(text, lexicon, ignore);
}

/// The scan of a text reports nothing just when no token of the text has a
/// misspelled core.
pub proof fn lemma_clean_text_reports_nothing(
    text: Seq<char>,
    lexicon: Set<Seq<char>>,
    ignore: Set<Seq<char>>,
)
    ensures
        misspellings(text, lexicon, ignore).len() == 0 <==> forall|k: int|
            0 <= k < tokens(glyphs_of(text)).len() ==> !misspelled(
                (#[trigger] tokens(glyphs_of(text))[k]).core,
                lexicon,
                ignore,
            ),
{
    let ts = tokens(glyphs_of(text));
    let found = misspellings(text, lexicon, ignore);
    lemma_misspellings(text, lexicon, ignore);
    if found.len() > 0 {
        assert(found.contains(found[0]));
    } else {
        assert forall|k: int| 0 <= k < ts.len() implies !misspelled(
            (#[trigger] ts[k]).core,
            lexicon,
            ignore,
        ) by {
            if misspelled(ts[k].core, lexicon, ignore) {
                assert(found.contains(ts[k].core));
            }
        }
    }
}

/// The scan depends on the lexicon only through the candidates: two lexicons
/// that agree on every candidate give the same list.
pub proof fn lemma_picked_agree(
    cands: Seq<(Seq<char>, Seq<char>)>,
    a: Set<Seq<char>>,
    b: Set<Seq<char>>,
    ignore: Set<Seq<char>>,
)
    requires
        forall|i: int|
            0 <= i < cands.len() && flagged(
                (#[trigger] cands[i]).0,
                cands[i].1,
                Set::<Seq<char>>::empty(),
                ignore,
            ) ==> a.contains(cands[i].0) == b.contains(cands[i].0),
    ensures
        picked(cands, a, ignore) == picked(cands, b, ignore),
    decreases cands.len(),
{
    if cands.len() > 0 {
        let init = cands.drop_last();
        assert forall|i: int|
            0 <= i < init.len() && flagged(
                (#[trigger] init[i]).0,
                init[i].1,
                Set::<Seq<char>>::empty(),
                ignore,
            ) implies a.contains(init[i].0) == b.contains(init[i].0) by {
            assert(init[i] == cands[i]);
        }
        lemma_picked_agree(init, a, b, ignore);
        assert(cands.last() == cands[cands.len() - 1]);
    }
}

/// The scan needs the dictionary's answer on the words to check only: two
/// lexicons that agree on every word that the scan reports under the empty
/// lexicon give the same list of misspellings.
pub proof fn lemma_lexicon_counts_on_candidates(
    text: Seq<char>,
    a: Set<Seq<char>>,
    b: Set<Seq<char>>,
    ignore: Set<Seq<char>>,
)
    requires
        forall|w: Seq<char>|
            #[trigger] misspellings(text, Set::<Seq<char>>::empty(), ignore).contains(w)
                ==> a.contains(w) == b.contains(w),
    ensures
        misspellings(text, a, ignore) == misspellings(text, b, ignore),
{
    let cands = folded(tokens(glyphs_of(text)));
    let nothing = Set::<Seq<char>>::empty();
    lemma_picked(cands, nothing, ignore);
    assert forall|i: int|
        0 <= i < cands.len() && flagged(
            (#[trigger] cands[i]).0,
            cands[i].1,
            nothing,
            ignore,
        ) implies a.contains(cands[i].0) == b.contains(cands[i].0) by {
        let w = cands[i].0;
        assert(cands[i].0 == w && flagged(w, cands[i].1, nothing, ignore));
        assert(picked(cands, nothing, ignore).contains(w));
        assert(misspellings(text, nothing, ignore).contains(w));
    }
    lemma_picked_agree(cands, a, b, ignore);
}

/// The misspelled words of a message, each once, in the order in which they
/// first stand in it. `lexicon` holds the words that the dictionary accepts.
pub fn find_misspellings(text: &str, lexicon: &WordSet, ignore: &WordSet) -> (list: Vec<String>)
    ensures
        texts(list@) == misspellings(text@, lexicon@, ignore@),
        texts(list@).no_duplicates(),
        forall|k: int|
            0 <= k < list.len() ==> misspelled((#[trigger] list[k])@, lexicon@, ignore@),
{
    let glyphs = classify(text);
    let list = tokenize(&glyphs);
    let cands = fold(&list);
    let found = select_flagged(&cands, lexicon, ignore);
    proof {
        lemma_misspellings(text@, lexicon@, ignore@);
        assert forall|k: int| 0 <= k < found.len() implies misspelled(
            (#[trigger] found[k])@,
            lexicon@,
            ignore@,
        ) by {
            assert(texts(found@)[k] == found[k]@);
            assert(texts(found@).contains(found[k]@));
        }
    }
    found
}

/// The words of a message on which the dictionary has to be asked: those that
/// the scan would report if the dictionary accepted none.
pub fn words_to_check(text: &str, ignore: &WordSet) -> (list: Vec<String>)
    ensures
        texts(list@) == misspellings(text@, Set::<Seq<char>>::empty(), ignore@),
{
    let nothing = WordSet::new();
    find_misspellings(text, &nothing, ignore)
}

} // verus!
