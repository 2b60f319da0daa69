//! Rendering of numbers and byte strings as text.

use vstd::prelude::*;
use vstd::string::*;

verus! {

/// The character that stands for the digit `d` in base 10 and, in lower
/// case, in base 16.
pub open spec fn digit_char(d: int) -> char {
    if d == 0 {
        '0'
    } else if d == 1 {
        '1'
    } else if d == 2 {
        '2'
    } else if d == 3 {
        '3'
    } else if d == 4 {
        '4'
    } else if d == 5 {
        '5'
    } else if d == 6 {
        '6'
    } else if d == 7 {
        '7'
    } else if d == 8 {
        '8'
    } else if d == 9 {
        '9'
    } else if d == 10 {
        'a'
    } else if d == 11 {
        'b'
    } else if d == 12 {
        'c'
    } else if d == 13 {
        'd'
    } else if d == 14 {
        'e'
    } else {
        'f'
    }
}

/// The decimal numeral of `n`, most significant digit first, without
/// leading zeros.
pub open spec fn decimal_digits(n: nat) -> Seq<char>
    decreases n,
{
    if n < 10 {
        seq![digit_char(n as int)]
    } else {
        decimal_digits(n / 10).push(digit_char((n % 10) as int))
    }
}

/// The character at position `k` of the lowercase hexadecimal rendering of
/// `bytes`: two characters per byte, high nibble first.
pub open spec fn hex_char_at(bytes: Seq<u8>, k: int) -> char {
    if k % 2 == 0 {
        digit_char(bytes[k / 2] as int / 16)
    } else {
        digit_char(bytes[k / 2] as int % 16)
    }
}

/// The lowercase hexadecimal rendering of `bytes`.
pub open spec fn hex_digits(bytes: Seq<u8>) -> Seq<char> {
    Seq::new(2 * bytes.len(), |k: int| hex_char_at(bytes, k))
}

/// The one-character string of a digit below 16.
fn digit_str(d: u8) -> (s: &'static str)
    requires
        d < 16,
    ensures
        s@ == seq![digit_char(d as int)],
{
    proof {
        reveal_strlit("0");
        reveal_strlit("1");
        reveal_strlit("2");
        reveal_strlit("3");
        reveal_strlit("4");
        reveal_strlit("5");
        reveal_strlit("6");
        reveal_strlit("7");
        reveal_strlit("8");
        reveal_strlit("9");
        reveal_strlit("a");
        reveal_strlit("b");
        reveal_strlit("c");
        reveal_strlit("d");
        reveal_strlit("e");
        reveal_strlit("f");
    }
    let s = match d {
        0 => "0",
        1 => "1",
        2 => "2",
        3 => "3",
        4 => "4",
        5 => "5",
        6 => "6",
        7 => "7",
        8 => "8",
        9 => "9",
        10 => "a",
        11 => "b",
        12 => "c",
        13 => "d",
        14 => "e",
        _ => "f",
    };
    assert(s@ =~= seq![digit_char(d as int)]);
    s
}

/// Renders `n` in decimal.
pub fn decimal_string(n: u64) -> (s: String)
    ensures
        s@ == decimal_digits(n as nat),
    decreases n,
{
    if n < 10 {
        String::from_str(digit_str(n as u8))
    } else {
        let mut s = decimal_string(n / 10);
        let ghost before = s@;
        s.append(digit_str((n % 10) as u8));
        assert(s@ =~= before.push(digit_char((n % 10) as int)));
        s
    }
}

/// Renders `bytes` in lowercase hexadecimal, two characters per byte.
pub fn hex_string(bytes: &[u8]) -> (s: String)
    ensures
        s@ == hex_digits(bytes@),
{
    let mut s = String::new();
    let mut i: usize = 0;
    while i < bytes.len()
        invariant
            i <= bytes.len(),
            s@.len() == 2 * i,
            forall|k: int| 0 <= k < 2 * i ==> s@[k] == hex_char_at(bytes@, k),
        decreases bytes.len() - i,
    {
        let b = bytes[i];
        let ghost before = s@;
        s.append(digit_str(b / 16));
        s.append(digit_str(b % 16));
        assert(s@ =~= before.push(digit_char(b as int / 16)).push(digit_char(b as int % 16)));
        i = i + 1;
    }
    assert(s@ =~= hex_digits(bytes@));
    s
}

} // verus!
