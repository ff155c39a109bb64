//! What the author of a message answers when asked.
use vstd::prelude::*;
use vstd::string::StrSliceExecFns;
use crate::glyph::{lowercase, str_to_lowercase};
use crate::trim::{trim, without_outer_space};

verus! {

/// The replacement that an answer gives: the answer without the white space
/// around it, or none where nothing is left.
pub open spec fn reply_of(input: Seq<char>) -> Option<Seq<char>> {
    let answer = without_outer_space(input);
    if answer.len() == 0 {
        None
    } else {
        Some(answer)
    }
}

/// Reads the replacement off the line that was typed in. An empty line, or
/// one of white space only, skips the word.
pub fn parse_reply(input: &str) -> (reply: Option<String>)
    ensures
        match reply {
            Some(r) => reply_of(input@) == Some(r@),
            None => reply_of(input@).is_none(),
        },
{
    let answer = trim(input);
    if answer.as_str().is_empty() {
        None
    } else {
        Some(answer)
    }
}

/// Whether a lower-case answer says no: it reads `n` or `no`.
pub open spec fn says_no(answer: Seq<char>) -> bool {
    answer == seq!['n'] || answer == seq!['n', 'o']
}

/// Whether a lower-case answer says no.
pub fn is_refusal(answer: &str) -> (b: bool)
    ensures
        b == says_no(answer@),
{
    let n = answer.unicode_len();
    let b = if n == 1 {
        answer.get_char(0) == 'n'
    } else if n == 2 {
        answer.get_char(0) == 'n' && answer.get_char(1) == 'o'
    } else {
        false
    };
    proof {
        if b {
            if n == 1 {
                assert(answer@ =~= seq!['n']);
            } else {
                assert(answer@ =~= seq!['n', 'o']);
            }
        } else {
            if answer@ == seq!['n'] {
                assert(seq!['n'][0] == 'n');
            }
            if answer@ == seq!['n', 'o'] {
                assert(seq!['n', 'o'][0] == 'n');
                assert(seq!['n', 'o'][1] == 'o');
            }
        }
    }
    b
}

/// Whether the answer to the last question lets the commit go on: anything
/// but `n` or `no`, in any case of the letters and with any white space
/// around.
pub open spec fn proceeds(input: Seq<char>) -> bool {
    !says_no(lowercase(without_outer_space(input)))
}

/// Whether the line that was typed in lets the commit go on.
pub fn confirms(input: &str) -> (b: bool)
    ensures
        b == proceeds(input@),
{
    let answer = trim(input);
    let lower = str_to_lowercase(answer.as_str());
    !is_refusal(lower.as_str())
}

/// The exit code of the hook once the message has been scanned again: 0 where
/// no misspelling is left or the answer lets the commit go on, 1 where the
/// answer says no or none could be read.
pub open spec fn exit_code_of(unresolved: nat, answer: Option<Seq<char>>) -> int {
    if unresolved == 0 {
        0
    } else {
        match answer {
            Some(a) => if proceeds(a) {
                0
            } else {
                1
            },
            None => 1,
        }
    }
}

/// The exit code of the hook, given how many misspellings are left and the
/// line that was typed in when asked whether to go on.
pub fn exit_code(unresolved: usize, answer: Option<&str>) -> (code: i32)
    ensures
        code == exit_code_of(
            unresolved as nat,
            match answer {
                Some(a) => Some(a@),
                None => None,
            },
        ),
{
    if unresolved == 0 {
        0
    } else {
        match answer {
            Some(a) => if confirms(a) {
                0
            } else {
                1
            },
            None => 1,
        }
    }
}

} // verus!
