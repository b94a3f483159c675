//! Numbers as text: the labels that a record carries for its chunk and for
//! its offset.

use vstd::prelude::*;

verus! {

/// `String::push`: appends one character to the end of the string.
#[verifier::external_body]
pub(crate) fn push_char(text: &mut String, c: char)
    ensures
        final(text)@ == old(text)@.push(c),
{
    text.push(c);
}

/// The character for one digit below sixteen, letters in upper case.
pub open spec fn digit(d: nat) -> char
    recommends
        d < 16,
{
    if d < 10 {
        (0x30 + d) as char
    } else {
        (0x41 + d - 10) as char
    }
}

/// The digits of `n` in the given radix, most significant first and without
/// leading zeros; a single `0` for zero.
pub open spec fn numeral(n: nat, radix: nat) -> Seq<char>
    recommends
        2 <= radix <= 16,
    decreases n,
    via numeral_terminates
{
    if radix < 2 || n < radix {
        seq![digit(n)]
    } else {
        numeral(n / radix, radix).push(digit(n % radix))
    }
}

#[via_fn]
proof fn numeral_terminates(n: nat, radix: nat) {
    if radix >= 2 && n >= radix {
        lemma_quotient_smaller(n, radix);
    }
}

/// Dividing a positive number by two or more makes it smaller.
pub proof fn lemma_quotient_smaller(n: nat, radix: nat)
    requires
        radix >= 2,
        n >= 1,
    ensures
        n / radix < n,
        n % radix < radix,
{
    assert(n / radix < n && n % radix < radix) by (nonlinear_arith)
        requires
            radix >= 2,
            n >= 1,
    ;
}

/// A chunk's label: its number in decimal.
pub open spec fn decimal_text(n: nat) -> Seq<char> {
    numeral(n, 10)
}

/// An offset's label: `0x` and the offset in upper-case hexadecimal.
pub open spec fn hex_text(n: nat) -> Seq<char> {
    seq!['0', 'x'] + numeral(n, 16)
}

fn digit_of(d: u8) -> (c: char)
    requires
        d < 16,
    ensures
        c == digit(d as nat),
{
    match d {
        0 => '0',
        1 => '1',
        2 => '2',
        3 => '3',
        4 => '4',
        5 => '5',
        6 => '6',
        7 => '7',
        8 => '8',
        9 => '9',
        10 => 'A',
        11 => 'B',
        12 => 'C',
        13 => 'D',
        14 => 'E',
        _ => 'F',
    }
}

fn write_numeral(out: &mut String, n: u64, radix: u64)
    requires
        2 <= radix <= 16,
    ensures
        final(out)@ == old(out)@ + numeral(n as nat, radix as nat),
    decreases n,
{
    proof {
        if n >= radix {
            lemma_quotient_smaller(n as nat, radix as nat);
        } else {
            assert(n % radix == n) by (nonlinear_arith)
                requires
                    n < radix,
            ;
        }
    }
    if n >= radix {
        write_numeral(out, n / radix, radix);
    }
    push_char(out, digit_of((n % radix) as u8));
    assert(final(out)@ =~= old(out)@ + numeral(n as nat, radix as nat));
}

/// Renders a chunk's number in decimal.
pub fn chunk_label(chunk: usize) -> (label: String)
    ensures
        label@ == decimal_text(chunk as nat),
{
    let mut label = String::new();
    write_numeral(&mut label, chunk as u64, 10);
    assert(label@ =~= decimal_text(chunk as nat));
    label
}

/// Renders an offset in hexadecimal, with the prefix `0x`.
pub fn offset_label(offset: u32) -> (label: String)
    ensures
        label@ == hex_text(offset as nat),
{
    let mut label = String::new();
    push_char(&mut label, '0');
    push_char(&mut label, 'x');
    write_numeral(&mut label, offset as u64, 16);
    assert(label@ =~= hex_text(offset as nat));
    label
}

} // verus!
