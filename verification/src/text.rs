//! Building text: characters collected in a vector, numbers in decimal, and the
//! quoted form of a character.

use vstd::prelude::*;

verus! {

/// `String::push` appends one character to the string.
pub assume_specification[ String::push ](s: &mut String, ch: char)
    ensures
        final(s)@ == old(s)@.push(ch),
;

/// The text that the `Debug` implementation of `char` writes for `c`: the
/// character between single quotes, escaped as in a character literal where it is
/// a single quote, a backslash or not printable.
pub uninterp spec fn char_debug(c: char) -> Seq<char>;

/// Formats `c` with `{:?}`, which calls `<char as Debug>::fmt`. The result
/// depends on the character alone.
#[verifier::external_body]
fn debug_char(c: char) -> (text: String)
    ensures
        text@ == char_debug(c),
{
    format!("{:?}", c)
}

/// The character for a decimal digit.
pub open spec fn digit_char(digit: nat) -> char {
    ('0' as u8 + digit as u8) as char
}

/// The decimal numeral of `n`, without leading zeros.
pub open spec fn decimal_text(n: nat) -> Seq<char>
    decreases n,
{
    if n < 10 {
        seq![digit_char(n)]
    } else {
        decimal_text(n / 10).push(digit_char(n % 10))
    }
}

/// Appends the characters of `string` to `out`.
pub fn push_string(string: &str, out: &mut Vec<char>)
    ensures
        final(out)@ == old(out)@ + string@,
{
    for c in it: string.chars()
        invariant
            it.seq() == string@,
            out@ == old(out)@ + string@.take(it.index()),
    {
        out.push(c);
        proof {
            assert(out@ =~= old(out)@ + string@.take(it.index() + 1));
        }
    }
    proof {
        assert(string@.take(string@.len() as int) =~= string@);
    }
}

/// Appends the decimal numeral of `n` to `out`.
pub fn push_decimal(n: usize, out: &mut Vec<char>)
    ensures
        final(out)@ == old(out)@ + decimal_text(n as nat),
    decreases n,
{
    if n >= 10 {
        push_decimal(n / 10, out);
    }
    let digit: u8 = (n % 10) as u8;
    out.push((48u8 + digit) as char);
    proof {
        assert(out@ =~= old(out)@ + decimal_text(n as nat));
    }
}

/// Appends the quoted form of `c`, as `Debug` writes it, to `out`.
pub fn push_char_debug(c: char, out: &mut Vec<char>)
    ensures
        final(out)@ == old(out)@ + char_debug(c),
{
    let quoted = debug_char(c);
    push_string(quoted.as_str(), out);
}

/// The string of the characters in `chars`.
pub fn string_of(chars: &Vec<char>) -> (text: String)
    ensures
        text@ == chars@,
{
    let mut text = String::new();
    let mut i: usize = 0;
    while i < chars.len()
        invariant
            i <= chars.len(),
            text@ == chars@.take(i as int),
        decreases chars.len() - i,
    {
        text.push(chars[i]);
        i += 1;
        proof {
            assert(text@ =~= chars@.take(i as int));
        }
    }
    proof {
        assert(chars@.take(chars.len() as int) =~= chars@);
    }
    text
}

} // verus!
