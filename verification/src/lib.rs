//! Spell checking of commit messages.
//!
//! The text of a message is cut into words, each word is stripped of the
//! punctuation around it, and the words that neither the dictionary accepts
//! nor the ignore set holds are reported and can be replaced in place.
//!
//! The dictionary itself stays outside: the library names the words on which
//! it has to be asked ([`scan::words_to_check`]) and takes the words that it
//! accepted as a [`wordset::WordSet`].
pub mod fix;
pub mod glyph;
pub mod ignore;
pub mod layout;
pub mod line;
pub mod reply;
pub mod run;
pub mod scan;
pub mod token;
pub mod trim;
pub mod wordset;
