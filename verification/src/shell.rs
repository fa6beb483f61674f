//! Words as a shell reads them.

use vstd::prelude::*;

use crate::text;

verus! {

/// The words of a line by the rules of a shell, or none where the line is not
/// quoted well.
pub uninterp spec fn shell_words(line: Seq<char>) -> Option<Seq<Seq<char>>>;

/// `shlex::split`. The words that it gives, or that it gives none, have a name.
#[verifier::external_body]
fn split(line: &str) -> (words: Option<Vec<String>>)
    ensures
        match words {
            Some(list) => shell_words(line@) == Some(text::texts(list@)),
            None => shell_words(line@) is None,
        },
{
    shlex::split(line)
}

/// The words of a line by the rules of a shell.
pub fn split_shell(line: &str) -> (words: Option<Vec<String>>)
    ensures
        match words {
            Some(list) => shell_words(line@) == Some(text::texts(list@)),
            None => shell_words(line@) is None,
        },
{
    split(line)
}

} // verus!
