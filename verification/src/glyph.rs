//! Characters and their classes.
//!
//! The scan of a message needs to know three things of a character: whether
//! it separates words, whether it is a letter, and what a word looks like in
//! lower case. All three are Unicode tables of the standard library; they
//! enter the contracts under the names declared here.
use vstd::prelude::*;
use vstd::std_specs::iter::IteratorSpec;

verus! {

/// Whether a character has the Unicode property White_Space.
pub uninterp spec fn is_space(c: char) -> bool;

/// Whether a character has the Unicode property Alphabetic.
pub uninterp spec fn is_letter(c: char) -> bool;

/// The lower-case form of a text.
pub uninterp spec fn lowercase(s: Seq<char>) -> Seq<char>;

/// `char::is_whitespace`: a table lookup on the character alone; the contract
/// gives the answer the name `is_space`.
#[verifier::external_body]
fn char_is_space(c: char) -> (b: bool)
    ensures
        b == is_space(c),
{
    c.is_whitespace()
}

/// `char::is_alphabetic`: a table lookup on the character alone; the contract
/// gives the answer the name `is_letter`.
#[verifier::external_body]
fn char_is_letter(c: char) -> (b: bool)
    ensures
        b == is_letter(c),
{
    c.is_alphabetic()
}

/// `str::to_lowercase`: the lower-case form depends on the characters of the
/// slice alone; the contract gives it the name `lowercase`.
#[verifier::external_body]
pub(crate) fn str_to_lowercase(s: &str) -> (r: String)
    ensures
        r@ == lowercase(s@),
{
    s.to_lowercase()
}

/// `String::push` appends one character.
pub assume_specification[ String::push ](s: &mut String, ch: char)
    ensures
        final(s)@ == old(s)@.push(ch),
;

/// The class of a character.
#[derive(Clone, Copy, PartialEq, Eq, Structural, Debug)]
pub enum Kind {
    /// White space: it separates words.
    Space,
    /// A letter: it can begin and end a word.
    Letter,
    /// Anything else: digits, punctuation, symbols.
    Other,
}

/// A character together with its class.
#[derive(Clone, Copy, PartialEq, Eq, Structural, Debug)]
pub struct Glyph {
    pub ch: char,
    pub kind: Kind,
}

/// The class of a character. A blank is white space whatever the table says,
/// and white space wins over letter.
pub open spec fn kind_of(c: char) -> Kind {
    if c == ' ' || is_space(c) {
        Kind::Space
    } else if is_letter(c) {
        Kind::Letter
    } else {
        Kind::Other
    }
}

/// A character with its class.
pub open spec fn glyph_of(c: char) -> Glyph {
    Glyph { ch: c, kind: kind_of(c) }
}

/// Each character of a text with its class.
pub open spec fn glyphs_of(s: Seq<char>) -> Seq<Glyph> {
    s.map_values(|c: char| glyph_of(c))
}

/// The characters of a sequence of glyphs.
pub open spec fn chars_of(g: Seq<Glyph>) -> Seq<char> {
    g.map_values(|x: Glyph| x.ch)
}

/// Looks a character's class up.
pub fn classify_char(c: char) -> (g: Glyph)
    ensures
        g == glyph_of(c),
{
    let kind = if c == ' ' || char_is_space(c) {
        Kind::Space
    } else if char_is_letter(c) {
        Kind::Letter
    } else {
        Kind::Other
    };
    Glyph { ch: c, kind }
}

/// Classifies every character of a text.
pub fn classify(text: &str) -> (glyphs: Vec<Glyph>)
    ensures
        glyphs@ == glyphs_of(text@),
{
    let mut glyphs: Vec<Glyph> = Vec::new();
    for c in it: text.chars()
        invariant
            it.seq() == text@,
            glyphs@ == glyphs_of(it.seq().take(it.index())),
    {
        glyphs.push(classify_char(c));
        assert(glyphs@ =~= glyphs_of(it.seq().take(it.index() + 1)));
    }
    assert(text@.take(text@.len() as int) == text@);
    glyphs
}

/// The characters of the glyphs from `from` up to `to`, as a string.
pub fn text_between(glyphs: &Vec<Glyph>, from: usize, to: usize) -> (s: String)
    requires
        from <= to <= glyphs.len(),
    ensures
        s@ == chars_of(glyphs@.subrange(from as int, to as int)),
{
    let mut s = String::new();
    let mut i: usize = from;
    while i < to
        invariant
            from <= i <= to <= glyphs.len(),
            s@ == chars_of(glyphs@.subrange(from as int, i as int)),
        decreases to - i,
    {
        s.push(glyphs[i].ch);
        i += 1;
        assert(s@ =~= chars_of(glyphs@.subrange(from as int, i as int)));
    }
    s
}

} // verus!
