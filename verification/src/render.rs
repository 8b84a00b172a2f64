//! Plain-text rendering helpers: decimal digit strings for the concrete
//! numbers that operand slots map to, and terminal highlighting through
//! the `colored` crate.

use vstd::prelude::*;

verus! {

/// The decimal digit character for a value below ten.
pub open spec fn digit_char(d: nat) -> char {
    if d == 0 {
        '0'
    } else if d == 1 {
        '1'
    } else if d == 2 {
        '2'
    } else if d == 3 {
        '3'
    } else if d == 4 {
        '4'
    } else if d == 5 {
        '5'
    } else if d == 6 {
        '6'
    } else if d == 7 {
        '7'
    } else if d == 8 {
        '8'
    } else {
        '9'
    }
}

/// The decimal rendering of a natural number, most significant digit
/// first, with no leading zeroes except for zero itself.
pub open spec fn dec_seq(n: nat) -> Seq<char>
    decreases n,
{
    if n < 10 {
        seq![digit_char(n)]
    } else {
        dec_seq(n / 10) + seq![digit_char(n % 10)]
    }
}

/// The string holding one decimal digit.
pub fn digit_string(d: u8) -> (r: String)
    requires
        d < 10,
    ensures
        r@ == seq![digit_char(d as nat)],
{
    proof {
        reveal_strlit("0");
        reveal_strlit("1");
        reveal_strlit("2");
        reveal_strlit("3");
        reveal_strlit("4");
        reveal_strlit("5");
        reveal_strlit("6");
        reveal_strlit("7");
        reveal_strlit("8");
        reveal_strlit("9");
    }
    if d == 0 {
        String::from_str("0")
    } else if d == 1 {
        String::from_str("1")
    } else if d == 2 {
        String::from_str("2")
    } else if d == 3 {
        String::from_str("3")
    } else if d == 4 {
        String::from_str("4")
    } else if d == 5 {
        String::from_str("5")
    } else if d == 6 {
        String::from_str("6")
    } else if d == 7 {
        String::from_str("7")
    } else if d == 8 {
        String::from_str("8")
    } else {
        String::from_str("9")
    }
}

/// The decimal rendering of a 32-bit value.
pub fn u32_string(n: u32) -> (r: String)
    ensures
        r@ == dec_seq(n as nat),
    decreases n,
{
    if n < 10 {
        digit_string(n as u8)
    } else {
        let mut s = u32_string(n / 10);
        let d = digit_string((n % 10) as u8);
        s.append(d.as_str());
        s
    }
}

/// The decimal rendering of a byte value.
pub fn u8_string(n: u8) -> (r: String)
    ensures
        r@ == dec_seq(n as nat),
{
    u32_string(n as u32)
}

/// The decimal rendering of a machine word.
pub fn usize_string(n: usize) -> (r: String)
    ensures
        r@ == dec_seq(n as nat),
    decreases n,
{
    if n < 10 {
        digit_string(n as u8)
    } else {
        let mut s = usize_string(n / 10);
        let d = digit_string((n % 10) as u8);
        s.append(d.as_str());
        s
    }
}

/// Every character of a decimal rendering is a digit, so in particular
/// never the terminal escape character.
pub proof fn lemma_dec_seq_digits(n: nat)
    ensures
        forall|i: int|
            0 <= i < dec_seq(n).len() ==> #[trigger] dec_seq(n)[i] != '\u{1b}',
    decreases n,
{
    if n >= 10 {
        lemma_dec_seq_digits(n / 10);
        assert forall|i: int|
            0 <= i < dec_seq(n).len() implies #[trigger] dec_seq(n)[i] != '\u{1b}' by {
            if i < dec_seq(n / 10).len() {
                assert(dec_seq(n)[i] == dec_seq(n / 10)[i]);
            }
        }
    }
}

/// Relies on `colored`'s `Colorize::on_blue` to highlight a number token
/// for terminal display. Whether escape codes are added depends on the
/// terminal environment, but a token holding no escape character comes
/// back unaltered between a possible style prefix and reset suffix.
#[verifier::external_body]
pub(crate) fn paint_number(s: String) -> (r: String)
    requires
        forall|i: int| 0 <= i < s@.len() ==> #[trigger] s@[i] != '\u{1b}',
    ensures
        exists|pre: Seq<char>, post: Seq<char>| r@ == pre + s@ + post,
{
    colored::Colorize::on_blue(s.as_str()).to_string()
}

/// Relies on `colored`'s `Colorize::dimmed` to de-emphasise an operator
/// or punctuation token for terminal display. Whether escape codes are
/// added depends on the terminal environment, but a token holding no
/// escape character comes back unaltered between a possible style
/// prefix and reset suffix.
#[verifier::external_body]
pub(crate) fn paint_operator(s: String) -> (r: String)
    requires
        forall|i: int| 0 <= i < s@.len() ==> #[trigger] s@[i] != '\u{1b}',
    ensures
        exists|pre: Seq<char>, post: Seq<char>| r@ == pre + s@ + post,
{
    colored::Colorize::dimmed(s.as_str()).to_string()
}

/// An opening bracket.
pub fn lparen_string() -> (r: String)
    ensures
        r@ == seq!['('],
{
    proof {
        reveal_strlit("(");
    }
    String::from_str("(")
}

/// A closing bracket.
pub fn rparen_string() -> (r: String)
    ensures
        r@ == seq![')'],
{
    proof {
        reveal_strlit(")");
    }
    String::from_str(")")
}

/// One space character.
pub fn space_string() -> (r: String)
    ensures
        r@ == seq![' '],
{
    proof {
        reveal_strlit(" ");
    }
    String::from_str(" ")
}

} // verus!
