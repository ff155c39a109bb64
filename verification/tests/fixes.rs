use commit_spell::fix::{apply_inline_fixes, find_fix, rewrite, Fix};
use commit_spell::reply::{confirms, exit_code, is_refusal, parse_reply};
use commit_spell::scan::find_misspellings;
use commit_spell::token::Token;
use commit_spell::wordset::WordSet;

fn set_of(words: &[&str]) -> WordSet {
    let mut s = WordSet::new();
    for w in words {
        s.insert(w);
    }
    s
}

fn fix(word: &str, replacement: &str) -> Fix {
    Fix { word: word.to_string(), replacement: replacement.to_string() }
}

fn token(lead: &str, core: &str, trail: &str) -> Token {
    Token { lead: lead.to_string(), core: core.to_string(), trail: trail.to_string() }
}

#[test]
fn replacement_keeps_the_punctuation_around_the_word() {
    let fixes = vec![fix("helo", "hello"), fix("wrold", "world")];
    let fixed = apply_inline_fixes("(helo), \"wrold\"!", &WordSet::new(), &WordSet::new(), &fixes);
    assert_eq!(fixed, "(hello), \"world\"!");
}

#[test]
fn both_words_of_a_message_can_be_fixed() {
    let fixes = vec![fix("Helo", "Hello"), fix("wrold", "world")];
    let lexicon = set_of(&["Hello", "world"]);
    let fixed = apply_inline_fixes("Helo wrold", &lexicon, &WordSet::new(), &fixes);
    assert_eq!(fixed, "Hello world");
    assert!(find_misspellings(&fixed, &lexicon, &WordSet::new()).is_empty());
}

#[test]
fn word_without_a_fix_stays() {
    let fixes = vec![fix("helo", "hello")];
    let fixed = apply_inline_fixes("helo wrold", &WordSet::new(), &WordSet::new(), &fixes);
    assert_eq!(fixed, "hello wrold");
    assert_eq!(find_misspellings(&fixed, &set_of(&["hello"]), &WordSet::new()), vec!["wrold".to_string()]);
}

#[test]
fn no_fixes_leave_the_words_as_they_are() {
    let fixed = apply_inline_fixes("helo,  wrold", &WordSet::new(), &WordSet::new(), &vec![]);
    assert_eq!(fixed, "helo, wrold");
}

#[test]
fn accepted_word_is_not_replaced() {
    let fixes = vec![fix("hello", "goodbye"), fix("teh", "the")];
    let lexicon = set_of(&["hello"]);
    let fixed = apply_inline_fixes("hello teh Hello", &lexicon, &WordSet::new(), &fixes);
    assert_eq!(fixed, "hello the Hello");
}

#[test]
fn ignored_word_is_not_replaced() {
    let fixes = vec![fix("WIP", "work"), fix("wip", "work")];
    let ignore = set_of(&["wip"]);
    let fixed = apply_inline_fixes("WIP: wip [Wip]", &WordSet::new(), &ignore, &fixes);
    assert_eq!(fixed, "WIP: wip [Wip]");
}

#[test]
fn fix_is_matched_letter_for_letter() {
    let fixes = vec![fix("helo", "hello")];
    let fixed = apply_inline_fixes("Helo helo HELO", &WordSet::new(), &WordSet::new(), &fixes);
    assert_eq!(fixed, "Helo hello HELO");
}

#[test]
fn every_occurrence_of_a_fixed_word_is_replaced() {
    let fixes = vec![fix("teh", "the")];
    let fixed = apply_inline_fixes("teh cat, teh dog (teh)", &set_of(&["cat", "dog"]), &WordSet::new(), &fixes);
    assert_eq!(fixed, "the cat, the dog (the)");
}

#[test]
fn first_fix_for_a_word_wins() {
    let fixes = vec![fix("teh", "the"), fix("teh", "ten")];
    let fixed = apply_inline_fixes("teh", &WordSet::new(), &WordSet::new(), &fixes);
    assert_eq!(fixed, "the");
}

#[test]
fn words_are_set_one_space_apart() {
    let fixed = apply_inline_fixes("  a \n\n b\t\tc  \n", &set_of(&["a", "b", "c"]), &WordSet::new(), &vec![]);
    assert_eq!(fixed, "a b c");
}

#[test]
fn white_space_at_the_end_of_a_replacement_is_dropped_at_the_end_of_the_message() {
    let fixes = vec![fix("teh", "the  ")];
    let fixed = apply_inline_fixes("teh teh", &WordSet::new(), &WordSet::new(), &fixes);
    assert_eq!(fixed, "the   the");
}

#[test]
fn empty_message_stays_empty() {
    assert_eq!(apply_inline_fixes("", &WordSet::new(), &WordSet::new(), &vec![fix("a", "b")]), "");
    assert_eq!(apply_inline_fixes(" \n ", &WordSet::new(), &WordSet::new(), &vec![]), "");
}

#[test]
fn punctuation_inside_the_word_goes_with_the_word() {
    let fixes = vec![fix("dont't", "don't")];
    let fixed = apply_inline_fixes("\"dont't!\"", &WordSet::new(), &WordSet::new(), &fixes);
    assert_eq!(fixed, "\"don't!\"");
}

#[test]
fn fixes_agree_with_replacing_the_core_in_each_word() {
    let lexicon = set_of(&["the", "parser"]);
    let ignore = set_of(&["api"]);
    let fixes = vec![fix("teh", "the"), fix("mesage", "message"), fix("API", "interface"), fix("x", "")];
    let text = "Fix (teh) API:  commit mesage.\tthe 'teh', x; --x-- parser \u{a0}";
    let mut expected = String::new();
    for word in text.split_whitespace() {
        let clean = word.trim_matches(|c: char| !c.is_alphabetic());
        let replacement = fixes.iter().find(|f| f.word == clean).map(|f| f.replacement.clone());
        let flagged = !clean.is_empty() && !ignore.contains(&clean.to_lowercase()) && !lexicon.contains(clean);
        match replacement {
            Some(r) if flagged => expected += &word.replace(clean, &r),
            _ => expected += word,
        }
        expected.push(' ');
    }
    let expected = expected.trim_end().to_string();
    assert_eq!(apply_inline_fixes(text, &lexicon, &ignore, &fixes), expected);
    assert_eq!(expected, "Fix (the) API: commit message. the 'the', ; ---- parser");
}

#[test]
fn find_fix_returns_the_first_match() {
    let fixes = vec![fix("a", "1"), fix("b", "2"), fix("a", "3")];
    assert_eq!(find_fix(&fixes, "a"), Some(&fixes[0]));
    assert_eq!(find_fix(&fixes, "b"), Some(&fixes[1]));
    assert_eq!(find_fix(&fixes, "c"), None);
    assert_eq!(find_fix(&vec![], "a"), None);
}

#[test]
fn rewrite_replaces_the_flagged_cores_only() {
    let list = vec![token("(", "ab", ")"), token("", "cd", ","), token("--", "", ""), token("", "ab", "")];
    let fixes = vec![fix("ab", "xy"), fix("cd", "zw"), fix("", "q")];
    assert_eq!(rewrite(&list, &set_of(&["ab"]), &fixes), "(xy) cd, -- xy ");
    assert_eq!(rewrite(&list, &set_of(&["cd", ""]), &fixes), "(ab) zw, --q ab ");
    assert_eq!(rewrite(&list, &WordSet::new(), &fixes), "(ab) cd, -- ab ");
    assert_eq!(rewrite(&list, &set_of(&["ab", "cd"]), &vec![]), "(ab) cd, -- ab ");
    assert_eq!(rewrite(&vec![], &set_of(&["ab"]), &fixes), "");
}

#[test]
fn parse_reply_takes_the_answer_without_the_white_space_around_it() {
    assert_eq!(parse_reply("hello\n"), Some("hello".to_string()));
    assert_eq!(parse_reply("  two words \r\n"), Some("two words".to_string()));
    assert_eq!(parse_reply("x"), Some("x".to_string()));
}

#[test]
fn parse_reply_of_an_empty_line_skips() {
    assert_eq!(parse_reply("\n"), None);
    assert_eq!(parse_reply(""), None);
    assert_eq!(parse_reply("  \t \r\n"), None);
}

#[test]
fn is_refusal_knows_n_and_no() {
    assert!(is_refusal("n"));
    assert!(is_refusal("no"));
    assert!(!is_refusal(""));
    assert!(!is_refusal("N"));
    assert!(!is_refusal("No"));
    assert!(!is_refusal("on"));
    assert!(!is_refusal("nn"));
    assert!(!is_refusal("o"));
    assert!(!is_refusal("non"));
    assert!(!is_refusal("y"));
    assert!(!is_refusal("ñ"));
}

#[test]
fn confirms_unless_the_answer_is_no() {
    assert!(!confirms("n\n"));
    assert!(!confirms("N\n"));
    assert!(!confirms("no\n"));
    assert!(!confirms("  No \r\n"));
    assert!(!confirms("NO"));
    assert!(confirms("y\n"));
    assert!(confirms("yes\n"));
    assert!(confirms("\n"));
    assert!(confirms(""));
    assert!(confirms("nope\n"));
    assert!(confirms("n o\n"));
}

#[test]
fn exit_code_is_zero_where_nothing_is_left() {
    assert_eq!(exit_code(0, None), 0);
    assert_eq!(exit_code(0, Some("n\n")), 0);
}

#[test]
fn exit_code_follows_the_answer_where_misspellings_are_left() {
    assert_eq!(exit_code(2, Some("y\n")), 0);
    assert_eq!(exit_code(2, Some("\n")), 0);
    assert_eq!(exit_code(1, Some("n\n")), 1);
    assert_eq!(exit_code(1, Some(" NO \n")), 1);
    assert_eq!(exit_code(1, None), 1);
}

#[test]
fn clean_message_stays_clean_when_written_out_again() {
    let lexicon = set_of(&["Fix", "the", "parser"]);
    let ignore = set_of(&["wip"]);
    let fixes = vec![fix("parser", "teh"), fix("WIP", "x"), fix("Fix", "Fxi")];
    let text = "  WIP:\tFix the\n\n(parser)  ";
    assert!(find_misspellings(text, &lexicon, &ignore).is_empty());
    let fixed = apply_inline_fixes(text, &lexicon, &ignore, &fixes);
    assert_eq!(fixed, "WIP: Fix the (parser)");
    assert!(find_misspellings(&fixed, &lexicon, &ignore).is_empty());
}

#[test]
fn message_written_out_without_fixes_scans_as_before() {
    let lexicon = set_of(&["the"]);
    let text = "teh  (wrold)\tthe\n teh!";
    let before = find_misspellings(text, &lexicon, &WordSet::new());
    let fixed = apply_inline_fixes(text, &lexicon, &WordSet::new(), &vec![]);
    assert_eq!(fixed, "teh (wrold) the teh!");
    assert_eq!(find_misspellings(&fixed, &lexicon, &WordSet::new()), before);
    assert_eq!(before, vec!["teh".to_string(), "wrold".to_string()]);
}
