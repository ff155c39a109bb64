use commit_spell::glyph::{classify, text_between, Glyph, Kind};
use commit_spell::ignore::{collect_words, load_ignore_words, lowered_each, trimmed_line_texts};
use commit_spell::line::{comment_at, line_spans, message_text, strip_comments};
use commit_spell::run::Span;
use commit_spell::trim::{trim, trim_end};

fn strings(words: &[&str]) -> Vec<String> {
    words.iter().map(|w| w.to_string()).collect()
}

fn lines_of(text: &str) -> Vec<String> {
    let g = classify(text);
    line_spans(&g).iter().map(|s| text_between(&g, s.start, s.end)).collect()
}

#[test]
fn line_spans_cut_at_line_feeds() {
    let g = classify("ab\nc\n\nd");
    assert_eq!(
        line_spans(&g),
        vec![
            Span { start: 0, end: 2 },
            Span { start: 3, end: 4 },
            Span { start: 5, end: 5 },
            Span { start: 6, end: 7 },
        ]
    );
}

#[test]
fn line_ending_may_hold_a_carriage_return() {
    let g = classify("ab\r\nc\r\n");
    assert_eq!(line_spans(&g), vec![Span { start: 0, end: 2 }, Span { start: 4, end: 5 }]);
    assert_eq!(lines_of("a\r\r\nb"), strings(&["a\r", "b"]));
    assert_eq!(lines_of("\r\n"), strings(&[""]));
}

#[test]
fn carriage_return_without_line_feed_stays() {
    assert_eq!(lines_of("a\rb\nc\r"), strings(&["a\rb", "c\r"]));
}

#[test]
fn last_line_needs_no_line_feed() {
    assert_eq!(lines_of("a\nb"), strings(&["a", "b"]));
    assert_eq!(lines_of("a\nb\n"), strings(&["a", "b"]));
    assert_eq!(lines_of("a\nb\n\n"), strings(&["a", "b", ""]));
    assert_eq!(lines_of("\n"), strings(&[""]));
    assert_eq!(lines_of(""), strings(&[]));
}

#[test]
fn lines_agree_with_the_lines_of_a_str() {
    let texts = [
        "",
        "\n",
        "\r",
        "\r\n",
        "a",
        "a\n",
        "a\r\n",
        "a\r",
        "a\n\nb",
        "fix: parser\r\n\r\n# comment\r\nbody \r\r\n",
        "\n\n\n",
        "x\r\ny\rz\n\rw",
    ];
    for text in texts {
        let expected: Vec<String> = text.lines().map(|l| l.to_string()).collect();
        assert_eq!(lines_of(text), expected, "lines of {:?}", text);
    }
}

#[test]
fn comment_is_a_line_that_starts_with_a_hash_sign() {
    let g = classify("# a\n  \t# b\nc # d\n\n  \n#");
    let spans = line_spans(&g);
    let found: Vec<bool> = spans.iter().map(|s| comment_at(&g, *s)).collect();
    assert_eq!(found, vec![true, true, false, false, false, true]);
}

#[test]
fn comment_goes_by_the_kinds_it_is_given() {
    // A hash sign after a glyph marked as white space begins a comment, whatever the glyph is.
    let g = vec![Glyph { ch: 'x', kind: Kind::Space }, Glyph { ch: '#', kind: Kind::Other }];
    assert!(comment_at(&g, Span { start: 0, end: 2 }));
    let h = vec![Glyph { ch: ' ', kind: Kind::Other }, Glyph { ch: '#', kind: Kind::Other }];
    assert!(!comment_at(&h, Span { start: 0, end: 2 }));
    assert_eq!(message_text(&g), "");
    assert_eq!(message_text(&h), " #");
}

#[test]
fn strip_comments_drops_comment_lines() {
    let text = "Fix teh parser\n\n# Please enter the commit message\n#\tfor your changes.\nBody #1\n";
    assert_eq!(strip_comments(text), "Fix teh parser\n\nBody #1");
}

#[test]
fn strip_comments_keeps_a_message_without_comments() {
    assert_eq!(strip_comments("a\nb"), "a\nb");
    assert_eq!(strip_comments("a\r\nb\r\n"), "a\nb");
    assert_eq!(strip_comments("a\n\n"), "a\n");
    assert_eq!(strip_comments(""), "");
    assert_eq!(strip_comments("# only\n  # comments"), "");
    assert_eq!(strip_comments("# c\n\n# d"), "");
    assert_eq!(strip_comments("# c\n\n\n# d"), "\n");
}

#[test]
fn strip_comments_agrees_with_a_plain_filter() {
    let texts = [
        "subject\n\nbody\n# comment\n \u{a0}# indented\nlast",
        "#a\n#b\n",
        "\n\n",
        "x # y\r\n#z\r\n",
        "",
    ];
    for text in texts {
        let expected = text
            .lines()
            .filter(|line| !line.trim_start().starts_with('#'))
            .collect::<Vec<_>>()
            .join("\n");
        assert_eq!(strip_comments(text), expected, "comments of {:?}", text);
    }
}

#[test]
fn trim_drops_white_space_at_both_ends() {
    assert_eq!(trim("  a b \t\n"), "a b");
    assert_eq!(trim("a"), "a");
    assert_eq!(trim(" \u{3000} "), "");
    assert_eq!(trim(""), "");
    for text in ["  x  y  ", "\r\nfoo\r\n", "\u{a0}é\u{2003}", "none", "\t"] {
        assert_eq!(trim(text), text.trim());
    }
}

#[test]
fn trim_end_drops_white_space_at_the_end_only() {
    assert_eq!(trim_end("  a b \t\n"), "  a b");
    assert_eq!(trim_end("   "), "");
    assert_eq!(trim_end(""), "");
    for text in ["  x  y  ", "\r\nfoo\r\n", "\u{a0}é\u{2003}", "none", "\t"] {
        assert_eq!(trim_end(text), text.trim_end());
    }
}

#[test]
fn trimmed_line_texts_holds_every_line() {
    let g = classify("  Foo \n\nbar\r\n \t \n baz");
    assert_eq!(trimmed_line_texts(&g), strings(&["Foo", "", "bar", "", "baz"]));
}

#[test]
fn lowered_each_lowers_every_word() {
    assert_eq!(lowered_each(&strings(&["Foo", "", "BAR", "baz"])), strings(&["foo", "", "bar", "baz"]));
    assert_eq!(lowered_each(&strings(&[])), strings(&[]));
}

#[test]
fn collect_words_leaves_empty_words_out() {
    let set = collect_words(&strings(&["foo", "", "Bar", "foo", ""]));
    assert_eq!(set.len(), 2);
    assert!(set.contains("foo"));
    assert!(set.contains("Bar"));
    assert!(!set.contains("bar"));
    assert!(!set.contains(""));
}

#[test]
fn load_ignore_words_reads_one_word_per_line() {
    let set = load_ignore_words("Rustc\n  clippy  \n\nWIP\r\nrustc\n   \n");
    assert_eq!(set.len(), 3);
    assert!(set.contains("rustc"));
    assert!(set.contains("clippy"));
    assert!(set.contains("wip"));
    assert!(!set.contains("Rustc"));
    assert!(!set.contains("WIP"));
    assert!(!set.contains(""));
}

#[test]
fn load_ignore_words_of_an_empty_file_is_empty() {
    assert!(load_ignore_words("").is_empty());
    assert!(load_ignore_words("\n \n\t\n").is_empty());
}

#[test]
fn load_ignore_words_keeps_what_stands_inside_a_line() {
    let set = load_ignore_words("two words\n#hash\n");
    assert!(set.contains("two words"));
    assert!(set.contains("#hash"));
    assert_eq!(set.len(), 2);
}
