//! Repeating the words given, on one line.

use crate::text::{join, joined, texts};
use vstd::prelude::*;
use vstd::string::StringExecFns;

verus! {

/// The words with a blank between neighbours, and a newline at the end
/// unless it is to be left out.
pub open spec fn echoed(words: Seq<Seq<char>>, omit_newline: bool) -> Seq<char> {
    joined(words, " "@) + if omit_newline {
        ""@
    } else {
        "\n"@
    }
}

/// The text to print for `text`.
pub fn echo(text: &Vec<String>, omit_newline: bool) -> (out: String)
    ensures
        out@ == echoed(texts(text@), omit_newline),
{
    let mut out = join(text, " ");
    let ending = if omit_newline {
        ""
    } else {
        "\n"
    };
    out.append(ending);
    out
}

} // verus!
