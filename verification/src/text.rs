//! Text operations that the tasks need, with their meaning over sequences of
//! characters.

use vstd::prelude::*;
use vstd::utf8::is_ascii_chars;

verus! {

/// The character of a decimal digit.
pub open spec fn digit(d: nat) -> char {
    if d == 0 {
        '0'
    } else if d == 1 {
        '1'
    } else if d == 2 {
        '2'
    } else if d == 3 {
        '3'
    } else if d == 4 {
        '4'
    } else if d == 5 {
        '5'
    } else if d == 6 {
        '6'
    } else if d == 7 {
        '7'
    } else if d == 8 {
        '8'
    } else {
        '9'
    }
}

/// A number written in decimal, without sign or leading zeros.
pub open spec fn decimal(n: nat) -> Seq<char>
    decreases n,
{
    if n < 10 {
        seq![digit(n)]
    } else {
        decimal(n / 10).push(digit(n % 10))
    }
}

/// The first `len` characters of a text, or all of it where it is shorter.
pub open spec fn truncated(chars: Seq<char>, len: nat) -> Seq<char> {
    if len < chars.len() {
        chars.take(len as int)
    } else {
        chars
    }
}

/// A number in decimal consists of ASCII characters only.
pub proof fn lemma_decimal_is_ascii(n: nat)
    ensures
        is_ascii_chars(decimal(n)),
    decreases n,
{
    if n >= 10 {
        lemma_decimal_is_ascii(n / 10);
    }
}

/// Calls `to_string` of `usize`. Trusted: the text that comes back is the
/// number in decimal notation, as `Display` for the integer types prints it.
#[verifier::external_body]
pub(crate) fn number_to_string(n: usize) -> (text: String)
    ensures
        text@ == decimal(n as nat),
{
    n.to_string()
}

/// Calls `String::truncate`. Trusted: the text keeps its first `len`
/// characters and is left alone where it has no more than that. For a text
/// of ASCII characters every length is a character boundary, so the call
/// does not panic.
#[verifier::external_body]
pub(crate) fn truncate_string(text: &mut String, len: usize)
    requires
        is_ascii_chars(old(text)@),
    ensures
        final(text)@ == truncated(old(text)@, len as nat),
{
    text.truncate(len)
}

} // verus!
