//! Naming the files that songs are exported to.

use vstd::prelude::*;

verus! {

/// The character of the decimal digit `digit`.
pub open spec fn digit_char(digit: u8) -> char
    recommends
        digit < 10,
{
    (0x30 + digit) as char
}

/// The character that stands for `nibble` in upper-case hexadecimal.
pub open spec fn upper_hex_char(nibble: u8) -> char
    recommends
        nibble < 16,
{
    if nibble < 10 {
        (0x30 + nibble) as char
    } else {
        (0x37 + nibble) as char
    }
}

/// `n` in decimal with at least two digits.
pub open spec fn two_digits(n: u8) -> Seq<char> {
    if n >= 100 {
        three_digits(n)
    } else {
        seq![digit_char(n / 10), digit_char(n % 10)]
    }
}

/// `n` in decimal with three digits.
pub open spec fn three_digits(n: u8) -> Seq<char> {
    seq![digit_char(n / 100), digit_char(n / 10 % 10), digit_char(n % 10)]
}

/// `n` in upper-case hexadecimal with two digits.
pub open spec fn two_hex_digits(n: u8) -> Seq<char> {
    seq![upper_hex_char(n / 16), upper_hex_char(n % 16)]
}

/// The name of the file that a song is exported to, without its
/// extension: the name of the song, with its position in front if asked
/// for, and its version behind if asked for, in decimal or hexadecimal.
pub open spec fn file_stem_of(
    position: u8,
    name: Seq<char>,
    version: u8,
    output_pos: bool,
    output_version: bool,
    decimal: bool,
) -> Seq<char> {
    let front = if output_pos {
        two_digits(position) + seq!['_']
    } else {
        Seq::empty()
    };
    let back = if !output_version {
        Seq::empty()
    } else if decimal {
        seq!['_', 'v'] + three_digits(version)
    } else {
        seq!['_', 'v'] + two_hex_digits(version)
    };
    front + name + back
}

/// The character that stands for `nibble` in upper-case hexadecimal, as
/// text.
fn hex_digit(nibble: u8) -> (text: &'static str)
    requires
        nibble < 16,
    ensures
        text@ == seq![upper_hex_char(nibble)],
{
    proof {
        reveal_strlit("0");
        reveal_strlit("1");
        reveal_strlit("2");
        reveal_strlit("3");
        reveal_strlit("4");
        reveal_strlit("5");
        reveal_strlit("6");
        reveal_strlit("7");
        reveal_strlit("8");
        reveal_strlit("9");
        reveal_strlit("A");
        reveal_strlit("B");
        reveal_strlit("C");
        reveal_strlit("D");
        reveal_strlit("E");
        reveal_strlit("F");
    }
    let text = if nibble == 0 {
        "0"
    } else if nibble == 1 {
        "1"
    } else if nibble == 2 {
        "2"
    } else if nibble == 3 {
        "3"
    } else if nibble == 4 {
        "4"
    } else if nibble == 5 {
        "5"
    } else if nibble == 6 {
        "6"
    } else if nibble == 7 {
        "7"
    } else if nibble == 8 {
        "8"
    } else if nibble == 9 {
        "9"
    } else if nibble == 10 {
        "A"
    } else if nibble == 11 {
        "B"
    } else if nibble == 12 {
        "C"
    } else if nibble == 13 {
        "D"
    } else if nibble == 14 {
        "E"
    } else {
        "F"
    };
    assert(text@ =~= seq![upper_hex_char(nibble)]);
    text
}

/// Append `n` in decimal with three digits to `text`.
fn push_three_digits(text: &mut String, n: u8)
    ensures
        final(text)@ == old(text)@ + three_digits(n),
{
    text.append(hex_digit(n / 100));
    text.append(hex_digit(n / 10 % 10));
    text.append(hex_digit(n % 10));
    assert(text@ =~= old(text)@ + three_digits(n));
}

/// The name of the file that the song `name` in slot `position`, of
/// version `version`, is exported to, without its extension.
pub fn file_stem(
    position: u8,
    name: &str,
    version: u8,
    output_pos: bool,
    output_version: bool,
    decimal: bool,
) -> (stem: String)
    ensures
        stem@ == file_stem_of(position, name@, version, output_pos, output_version, decimal),
{
    proof {
        reveal_strlit("_");
        reveal_strlit("_v");
    }
    let mut stem = String::new();
    if output_pos {
        if position >= 100 {
            push_three_digits(&mut stem, position);
        } else {
            stem.append(hex_digit(position / 10));
            stem.append(hex_digit(position % 10));
        }
        stem.append("_");
    }
    let ghost front = stem@;
    assert(front =~= if output_pos {
        two_digits(position) + seq!['_']
    } else {
        Seq::empty()
    });
    stem.append(name);
    if output_version {
        stem.append("_v");
        if decimal {
            push_three_digits(&mut stem, version);
            assert(stem@ =~= front + name@ + (seq!['_', 'v'] + three_digits(version)));
        } else {
            stem.append(hex_digit(version / 16));
            stem.append(hex_digit(version % 16));
            assert(stem@ =~= front + name@ + (seq!['_', 'v'] + two_hex_digits(version)));
        }
    } else {
        assert(stem@ =~= front + name@ + Seq::empty());
    }
    stem
}

} // verus!
