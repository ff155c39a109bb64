use commit_spell::glyph::classify;
use commit_spell::ignore::lowered_each;
use commit_spell::scan::{find_misspellings, fold, select_flagged, words_to_check, Candidate};
use commit_spell::token::tokenize;
use commit_spell::wordset::WordSet;

fn set_of(words: &[&str]) -> WordSet {
    let mut s = WordSet::new();
    for w in words {
        s.insert(w);
    }
    s
}

fn strings(words: &[&str]) -> Vec<String> {
    words.iter().map(|w| w.to_string()).collect()
}

#[test]
fn both_unknown_words_are_flagged() {
    let lexicon = set_of(&["hello", "world"]);
    let ignore = WordSet::new();
    assert_eq!(find_misspellings("Helo wrold", &lexicon, &ignore), strings(&["Helo", "wrold"]));
}

#[test]
fn empty_lexicon_flags_every_word() {
    let found = find_misspellings("Helo wrold", &WordSet::new(), &WordSet::new());
    assert_eq!(found, strings(&["Helo", "wrold"]));
}

#[test]
fn ignored_word_is_not_reported_in_any_case() {
    let lexicon = WordSet::new();
    let ignore = set_of(&["helo"]);
    assert_eq!(find_misspellings("Helo HELO helo hElO wrold", &lexicon, &ignore), strings(&["wrold"]));
}

#[test]
fn ignore_set_is_matched_against_the_lower_case_form() {
    // An entry that is not in lower case matches no word.
    let ignore = set_of(&["Helo"]);
    assert_eq!(find_misspellings("Helo helo", &WordSet::new(), &ignore), strings(&["Helo", "helo"]));
}

#[test]
fn clean_text_yields_an_empty_list() {
    let lexicon = set_of(&["Fix", "the", "parser"]);
    let ignore = set_of(&["utf"]);
    let text = "Fix the parser (UTF) -- 42 !!";
    assert!(find_misspellings(text, &lexicon, &ignore).is_empty());
    assert!(find_misspellings(text, &lexicon, &ignore).is_empty());
}

#[test]
fn empty_text_yields_an_empty_list() {
    assert!(find_misspellings("", &WordSet::new(), &WordSet::new()).is_empty());
    assert!(find_misspellings(" \n\t ", &WordSet::new(), &WordSet::new()).is_empty());
}

#[test]
fn words_without_letters_are_not_reported() {
    assert!(find_misspellings("123 -- ... 4.5 #", &WordSet::new(), &WordSet::new()).is_empty());
}

#[test]
fn punctuation_around_a_word_is_stripped() {
    let found = find_misspellings("(helo), \"wrold\"! x2y", &WordSet::new(), &WordSet::new());
    assert_eq!(found, strings(&["helo", "wrold", "x2y"]));
}

#[test]
fn punctuation_inside_a_word_stays() {
    let found = find_misspellings("don't re-use a.b", &WordSet::new(), &WordSet::new());
    assert_eq!(found, strings(&["don't", "re-use", "a.b"]));
}

#[test]
fn each_word_is_reported_once_in_order_of_first_occurrence() {
    let lexicon = set_of(&["the"]);
    let found = find_misspellings("wrold the helo wrold, (helo) the wrold", &lexicon, &WordSet::new());
    assert_eq!(found, strings(&["wrold", "helo"]));
}

#[test]
fn lexicon_is_matched_letter_for_letter() {
    let lexicon = set_of(&["hello"]);
    assert_eq!(find_misspellings("hello Hello", &lexicon, &WordSet::new()), strings(&["Hello"]));
}

#[test]
fn words_are_cut_at_any_white_space() {
    let found = find_misspellings("a\tb\nc\r\nd\u{a0}e\u{2003}f  g", &WordSet::new(), &WordSet::new());
    assert_eq!(found, strings(&["a", "b", "c", "d", "e", "f", "g"]));
}

#[test]
fn letters_of_other_scripts_are_letters() {
    let found = find_misspellings("«héllo» ¡ñu! 日本語。", &WordSet::new(), &WordSet::new());
    assert_eq!(found, strings(&["héllo", "ñu", "日本語"]));
}

#[test]
fn words_to_check_are_those_not_ignored() {
    let ignore = set_of(&["the"]);
    assert_eq!(words_to_check("The helo, the wrold; helo 12", &ignore), strings(&["helo", "wrold"]));
}

#[test]
fn scan_with_the_accepted_candidates_as_lexicon() {
    // The dictionary is asked on the candidates only; what it accepts makes the lexicon.
    let ignore = set_of(&["wip"]);
    let text = "WIP: fix teh parser";
    let candidates = words_to_check(text, &ignore);
    assert_eq!(candidates, strings(&["fix", "teh", "parser"]));
    let mut lexicon = WordSet::new();
    for w in &candidates {
        if w != "teh" {
            lexicon.insert(w);
        }
    }
    assert_eq!(find_misspellings(text, &lexicon, &ignore), strings(&["teh"]));
}

#[test]
fn select_flagged_goes_by_the_given_lower_case_form() {
    let cands = vec![
        Candidate { word: "Abc".to_string(), lower: "abc".to_string() },
        Candidate { word: "".to_string(), lower: "".to_string() },
        Candidate { word: "Def".to_string(), lower: "xyz".to_string() },
        Candidate { word: "ghi".to_string(), lower: "ghi".to_string() },
        Candidate { word: "Abc".to_string(), lower: "abc".to_string() },
        Candidate { word: "jkl".to_string(), lower: "jkl".to_string() },
    ];
    let lexicon = set_of(&["ghi"]);
    let ignore = set_of(&["xyz"]);
    assert_eq!(select_flagged(&cands, &lexicon, &ignore), strings(&["Abc", "jkl"]));
}

#[test]
fn fold_pairs_each_core_with_its_lower_case_form() {
    let tokens = tokenize(&classify("(Helo) 42 WROLD!"));
    let cands = fold(&tokens);
    assert_eq!(
        cands,
        vec![
            Candidate { word: "Helo".to_string(), lower: "helo".to_string() },
            Candidate { word: "".to_string(), lower: "".to_string() },
            Candidate { word: "WROLD".to_string(), lower: "wrold".to_string() },
        ]
    );
}

#[test]
fn lowered_each_gives_the_lower_case_forms() {
    let words = strings(&["HeLLo Wörld ÄÖÜ", "already", "", "ΑΣ"]);
    assert_eq!(lowered_each(&words), strings(&["hello wörld äöü", "already", "", "ας"]));
}

#[test]
fn scan_agrees_with_a_plain_scan_of_the_text() {
    let lexicon = set_of(&["commit", "message", "the"]);
    let ignore = set_of(&["api", "régl"]);
    let texts = [
        "Fix (teh) API:  commit-mesage\tthe Commit message.",
        "  ¿Régl? régl; RÉGL -- x  ",
        "a1b 1a1 'q' \"w\" e,r",
        "",
    ];
    for text in texts {
        let mut expected: Vec<String> = Vec::new();
        for word in text.split_whitespace() {
            let clean = word.trim_matches(|c: char| !c.is_alphabetic());
            if !clean.is_empty()
                && !ignore.contains(&clean.to_lowercase())
                && !lexicon.contains(clean)
                && !expected.iter().any(|w| w == clean)
            {
                expected.push(clean.to_string());
            }
        }
        assert_eq!(find_misspellings(text, &lexicon, &ignore), expected);
    }
}
