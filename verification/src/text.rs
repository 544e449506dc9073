//! Text: the strings the driver shows, and numbers in decimal.

use vstd::prelude::*;

verus! {

/// `String::push` of std: appends one character.
pub assume_specification[ String::push ](text: &mut String, ch: char)
    ensures
        final(text)@ == old(text)@.push(ch),
;

/// `String::pop` of std: removes the last character and returns it; an empty
/// string stays empty and gives nothing.
pub assume_specification[ String::pop ](text: &mut String) -> (last: Option<char>)
    ensures
        match last {
            Some(ch) => old(text)@.len() > 0 && ch == old(text)@.last() && final(text)@ == old(
                text,
            )@.drop_last(),
            None => old(text)@.len() == 0 && final(text)@ == old(text)@,
        },
;

/// `String::push_str` of std: appends a string slice.
pub assume_specification[ String::push_str ](text: &mut String, more: &str)
    ensures
        final(text)@ == old(text)@ + more@,
;

/// The character for a digit from 0 to 9.
pub open spec fn digit(d: nat) -> char {
    (48 + d) as char
}

/// A number in decimal, without sign or leading zeros.
pub open spec fn decimal(n: nat) -> Seq<char>
    decreases n,
{
    if n < 10 {
        seq![digit(n)]
    } else {
        decimal(n / 10).push(digit(n % 10))
    }
}

/// Whether a character is one of the digits 0 to 9.
pub open spec fn is_digit(ch: char) -> bool {
    48 <= ch as nat <= 57
}

/// Whether `ch` is a decimal digit.
pub fn char_is_digit(ch: char) -> (yes: bool)
    ensures
        yes == is_digit(ch),
{
    '0' <= ch && ch <= '9'
}

/// Appends `n` in decimal to `text`.
pub fn push_decimal(text: &mut String, n: usize)
    ensures
        final(text)@ == old(text)@ + decimal(n as nat),
    decreases n,
{
    if n >= 10 {
        push_decimal(text, n / 10);
    }
    let d: u8 = (n % 10) as u8;
    text.push((48 + d) as char);
    assert(text@ =~= old(text)@ + decimal(n as nat));
}

/// `n` in decimal.
pub fn decimal_text(n: usize) -> (text: String)
    ensures
        text@ == decimal(n as nat),
{
    let mut text = String::new();
    push_decimal(&mut text, n);
    assert(text@ =~= decimal(n as nat));
    text
}

} // verus!
