//! Text forms of symbols: decimal numbers and one-byte characters.

use vstd::prelude::*;

verus! {

/// The characters of `bytes`, each byte standing for the character with its
/// code.
pub open spec fn latin1(bytes: Seq<u8>) -> Seq<char> {
    Seq::new(bytes.len(), |k: int| bytes[k] as char)
}

/// The decimal digit of value `d`.
pub open spec fn digit_char(d: nat) -> char {
    ((48 + d) as u8) as char
}

/// The decimal digits of `n`, without leading zeros.
pub open spec fn decimal_digits(n: nat) -> Seq<char>
    decreases n,
{
    if n < 10 {
        seq![digit_char(n)]
    } else {
        decimal_digits(n / 10).push(digit_char(n % 10))
    }
}

/// The decimal form of `v`, with a minus sign in front of a negative number.
pub open spec fn decimal_text(v: int) -> Seq<char> {
    if v < 0 {
        seq!['-'] + decimal_digits((-v) as nat)
    } else {
        decimal_digits(v as nat)
    }
}

/// `String::push` of std: appends the character `c` to `s`.
#[verifier::external_body]
fn push_char(s: &mut String, c: char)
    ensures
        final(s)@ == old(s)@.push(c),
{
    s.push(c)
}

fn push_digits(s: &mut String, n: u32)
    ensures
        final(s)@ == old(s)@ + decimal_digits(n as nat),
    decreases n,
{
    if n >= 10 {
        push_digits(s, n / 10);
    }
    let digit: u8 = 48 + (n % 10) as u8;
    push_char(s, digit as char);
    assert(s@ =~= old(s)@ + decimal_digits(n as nat));
}

/// The decimal form of `v`.
pub fn decimal_string(v: i32) -> (s: String)
    ensures
        s@ == decimal_text(v as int),
{
    let mut s = String::new();
    if v < 0 {
        push_char(&mut s, '-');
        push_digits(&mut s, (-(v as i64)) as u32);
    } else {
        push_digits(&mut s, v as u32);
    }
    assert(s@ =~= decimal_text(v as int));
    s
}

/// The string whose characters are the bytes of `bytes`, one for one.
pub fn latin1_string(bytes: &Vec<u8>) -> (s: String)
    ensures
        s@ == latin1(bytes@),
{
    let mut s = String::new();
    let mut k: usize = 0;
    while k < bytes.len()
        invariant
            k <= bytes@.len(),
            s@ == latin1(bytes@.take(k as int)),
        decreases bytes@.len() - k,
    {
        push_char(&mut s, bytes[k] as char);
        k = k + 1;
        assert(s@ =~= latin1(bytes@.take(k as int)));
    }
    assert(bytes@.take(k as int) =~= bytes@);
    s
}

} // verus!
