//! Characters and digit strings, as the size grammar reads them.

use vstd::prelude::*;

verus! {

/// White space: the characters that Unicode gives the property White_Space.
pub open spec fn is_space(c: char) -> bool {
    let n = c as u32;
    (0x09 <= n <= 0x0D) || n == 0x20 || n == 0x85 || n == 0xA0 || n == 0x1680 || (0x2000 <= n
        <= 0x200A) || n == 0x2028 || n == 0x2029 || n == 0x202F || n == 0x205F || n == 0x3000
}

/// A decimal digit, `0` to `9`.
pub open spec fn is_digit(c: char) -> bool {
    0x30 <= c as u32 <= 0x39
}

/// A letter of the basic Latin alphabet, in either case.
pub open spec fn is_letter(c: char) -> bool {
    let n = c as u32;
    (0x41 <= n <= 0x5A) || (0x61 <= n <= 0x7A)
}

/// The number that a digit stands for; 0 for any other character.
pub open spec fn digit_value(c: char) -> nat {
    if is_digit(c) {
        (c as u32 - 0x30) as nat
    } else {
        0
    }
}

/// The character with a small basic Latin letter made capital.
pub open spec fn upper(c: char) -> char {
    if 0x61 <= c as u32 <= 0x7A {
        ((c as u32 - 0x20) as u32) as char
    } else {
        c
    }
}

/// Whether `c` is white space.
pub fn space(c: char) -> (r: bool)
    ensures
        r == is_space(c),
{
    let n: u32 = c as u32;
    (0x09 <= n && n <= 0x0D) || n == 0x20 || n == 0x85 || n == 0xA0 || n == 0x1680 || (0x2000 <= n
        && n <= 0x200A) || n == 0x2028 || n == 0x2029 || n == 0x202F || n == 0x205F || n == 0x3000
}

/// Whether `c` is a decimal digit.
pub fn digit(c: char) -> (r: bool)
    ensures
        r == is_digit(c),
{
    let n: u32 = c as u32;
    0x30 <= n && n <= 0x39
}

/// Whether `c` is a letter of the basic Latin alphabet.
pub fn letter(c: char) -> (r: bool)
    ensures
        r == is_letter(c),
{
    let n: u32 = c as u32;
    (0x41 <= n && n <= 0x5A) || (0x61 <= n && n <= 0x7A)
}

/// Whether `c` is the capital letter `want`, or its small form.
pub fn is_letter_of(c: char, want: char) -> (r: bool)
    requires
        0x41 <= want as u32 <= 0x5A,
    ensures
        r == (upper(c) == want),
{
    let n: u32 = c as u32;
    let w: u32 = want as u32;
    n == w || n == w + 0x20
}

/// The characters of `s`, one by one.
pub fn chars_of(s: &str) -> (v: Vec<char>)
    ensures
        v@ == s@,
{
    let n = s.unicode_len();
    let mut v: Vec<char> = Vec::new();
    let mut i: usize = 0;
    while i < n
        invariant
            i <= n,
            n == s@.len(),
            v@ == s@.take(i as int),
        decreases n - i,
    {
        v.push(s.get_char(i));
        i += 1;
    }
    v
}

} // verus!
