//! Rendering of numbers and bytes in the texts of errors.

use vstd::prelude::*;

verus! {

/// The digit that stands for `d`, lower case from ten on.
pub open spec fn digit(d: nat) -> char {
    if d < 10 {
        (48 + d) as char
    } else {
        (87 + d) as char
    }
}

/// `n` in base ten, without leading zeros.
pub open spec fn decimal(n: nat) -> Seq<char>
    decreases n,
{
    if n < 10 {
        seq![digit(n)]
    } else {
        decimal(n / 10).push(digit(n % 10))
    }
}

/// The lowest `width` digits of `n` in base sixteen.
pub open spec fn hex_digits(n: nat, width: nat) -> Seq<char>
    decreases width,
{
    if width == 0 {
        Seq::empty()
    } else {
        hex_digits(n / 16, (width - 1) as nat).push(digit(n % 16))
    }
}

/// A 64-bit number in base sixteen: `0x` and sixteen digits.
pub open spec fn hex_word(n: u64) -> Seq<char> {
    "0x"@ + hex_digits(n as nat, 16)
}

/// The bytes in base ten, with `, ` between them.
pub open spec fn comma_separated(bytes: Seq<u8>) -> Seq<char>
    decreases bytes.len(),
{
    if bytes.len() == 0 {
        Seq::empty()
    } else if bytes.len() == 1 {
        decimal(bytes[0] as nat)
    } else {
        comma_separated(bytes.drop_last()) + ", "@ + decimal(bytes.last() as nat)
    }
}

/// The bytes as a bracketed list.
pub open spec fn byte_list(bytes: Seq<u8>) -> Seq<char> {
    "["@ + comma_separated(bytes) + "]"@
}

/// Appends one digit.
fn append_digit(text: &mut String, d: u64)
    requires
        d < 16,
    ensures
        final(text)@ == old(text)@.push(digit(d as nat)),
{
    proof {
        reveal_strlit("0");
        reveal_strlit("1");
        reveal_strlit("2");
        reveal_strlit("3");
        reveal_strlit("4");
        reveal_strlit("5");
        reveal_strlit("6");
        reveal_strlit("7");
        reveal_strlit("8");
        reveal_strlit("9");
        reveal_strlit("a");
        reveal_strlit("b");
        reveal_strlit("c");
        reveal_strlit("d");
        reveal_strlit("e");
        reveal_strlit("f");
    }
    let shown = match d {
        0 => "0",
        1 => "1",
        2 => "2",
        3 => "3",
        4 => "4",
        5 => "5",
        6 => "6",
        7 => "7",
        8 => "8",
        9 => "9",
        10 => "a",
        11 => "b",
        12 => "c",
        13 => "d",
        14 => "e",
        _ => "f",
    };
    assert(shown@ =~= seq![digit(d as nat)]);
    text.append(shown);
    assert(text@ =~= old(text)@.push(digit(d as nat)));
}

/// Appends `n` in base ten.
pub fn append_decimal(text: &mut String, n: u64)
    ensures
        final(text)@ == old(text)@ + decimal(n as nat),
    decreases n,
{
    if n >= 10 {
        append_decimal(text, n / 10);
    }
    append_digit(text, n % 10);
    assert(text@ =~= old(text)@ + decimal(n as nat));
}

/// Appends the lowest `width` digits of `n` in base sixteen.
fn append_hex_digits(text: &mut String, n: u64, width: u8)
    ensures
        final(text)@ == old(text)@ + hex_digits(n as nat, width as nat),
    decreases width,
{
    if width > 0 {
        append_hex_digits(text, n / 16, width - 1);
        append_digit(text, n % 16);
    }
    assert(text@ =~= old(text)@ + hex_digits(n as nat, width as nat));
}

/// Appends a 64-bit number in base sixteen.
pub fn append_hex_word(text: &mut String, n: u64)
    ensures
        final(text)@ == old(text)@ + hex_word(n),
{
    text.append("0x");
    append_hex_digits(text, n, 16);
    assert(text@ =~= old(text)@ + hex_word(n));
}

/// Appends the bytes as a bracketed list.
pub fn append_byte_list(text: &mut String, bytes: &[u8])
    ensures
        final(text)@ == old(text)@ + byte_list(bytes@),
{
    text.append("[");
    let mut i: usize = 0;
    assert(text@ =~= old(text)@ + "["@ + comma_separated(bytes@.take(0)));
    while i < bytes.len()
        invariant
            i <= bytes@.len(),
            text@ == old(text)@ + "["@ + comma_separated(bytes@.take(i as int)),
        decreases bytes@.len() - i,
    {
        let ghost shown = bytes@.take(i + 1);
        assert(shown.drop_last() =~= bytes@.take(i as int));
        if i > 0 {
            text.append(", ");
        }
        append_decimal(text, bytes[i] as u64);
        assert(text@ =~= old(text)@ + "["@ + comma_separated(shown));
        i += 1;
    }
    assert(bytes@.take(i as int) =~= bytes@);
    text.append("]");
    assert(text@ =~= old(text)@ + byte_list(bytes@));
}

} // verus!
