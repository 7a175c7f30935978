//! What the user asks for, and the grammar of a size such as `100MB`.

use crate::number::{all_digits, digits_value, lemma_scaled_value, lemma_value_below_power, pow10};
use crate::path::EntryPath;
use crate::text::{chars_of, digit, is_letter, is_letter_of, is_space, letter, space, upper};
use vstd::prelude::*;

verus! {

/// What the user asks for.
#[derive(Debug)]
pub struct Args {
    /// The directory to scan.
    pub path: EntryPath,
    /// How many items to show.
    pub limit: usize,
    /// Items smaller than this size are left out, such as `100MB`, `1GB`, `1024`.
    pub min_size: Option<String>,
    /// How far beneath the root the items shown may lie.
    pub depth: Option<usize>,
}

impl Args {
    /// The least size asked for, in bytes; none where none is asked for or
    /// where the text is no size.
    pub open spec fn min_bytes(&self) -> Option<u64> {
        match self.min_size {
            Some(text) => size_of_text(text@),
            None => None,
        }
    }
}

/// The first position at or after `i` that holds no white space.
pub open spec fn skip_spaces(s: Seq<char>, i: int) -> int
    decreases s.len() - i,
{
    if 0 <= i < s.len() && is_space(s[i]) {
        skip_spaces(s, i + 1)
    } else {
        i
    }
}

/// The end of `s[..j]` once the white space at its end is taken off.
pub open spec fn drop_spaces(s: Seq<char>, j: int) -> int
    decreases j,
{
    if 0 < j <= s.len() && is_space(s[j - 1]) {
        drop_spaces(s, j - 1)
    } else {
        j
    }
}

/// `s` without the white space at its two ends.
pub open spec fn trimmed(s: Seq<char>) -> Seq<char> {
    let a = skip_spaces(s, 0);
    let b = drop_spaces(s, s.len() as int);
    if a < b {
        s.subrange(a, b)
    } else {
        Seq::empty()
    }
}

/// The first position at or after `i` that holds a letter, or the length.
pub open spec fn find_letter(s: Seq<char>, i: int) -> int
    decreases s.len() - i,
{
    if 0 <= i < s.len() && !is_letter(s[i]) {
        find_letter(s, i + 1)
    } else {
        i
    }
}

/// The first position at or after `i` that holds a full stop, or the length.
pub open spec fn find_dot(s: Seq<char>, i: int) -> int
    decreases s.len() - i,
{
    if 0 <= i < s.len() && s[i] != '.' {
        find_dot(s, i + 1)
    } else {
        i
    }
}

/// The power of ten that a unit stands for: none for no unit, 3 for `K` or
/// `KB`, 6 for `M` or `MB`, 9 for `G` or `GB`, 12 for `T` or `TB`, in either
/// case of the letters. Anything else is no unit.
pub open spec fn unit_power(unit: Seq<char>) -> Option<nat> {
    if unit.len() == 0 {
        Some(0)
    } else if unit.len() > 2 || (unit.len() == 2 && upper(unit[1]) != 'B') {
        None
    } else if upper(unit[0]) == 'K' {
        Some(3)
    } else if upper(unit[0]) == 'M' {
        Some(6)
    } else if upper(unit[0]) == 'G' {
        Some(9)
    } else if upper(unit[0]) == 'T' {
        Some(12)
    } else {
        None
    }
}

/// Whether the number begins with a minus sign.
pub open spec fn is_negative(num: Seq<char>) -> bool {
    num.len() > 0 && num[0] == '-'
}

/// The number without its sign, if it has one.
pub open spec fn unsigned_part(num: Seq<char>) -> Seq<char> {
    if num.len() > 0 && (num[0] == '+' || num[0] == '-') {
        num.drop_first()
    } else {
        num
    }
}

/// The digits before the full stop.
pub open spec fn whole_digits(body: Seq<char>) -> Seq<char> {
    body.take(find_dot(body, 0))
}

/// The digits after the full stop; none where there is no full stop.
pub open spec fn fraction_digits(body: Seq<char>) -> Seq<char> {
    let d = find_dot(body, 0);
    if d < body.len() {
        body.skip(d + 1)
    } else {
        Seq::empty()
    }
}

/// A decimal number: an optional sign, then digits with at most one full
/// stop among them, and at least one digit.
pub open spec fn is_number(num: Seq<char>) -> bool {
    let body = unsigned_part(num);
    &&& all_digits(whole_digits(body))
    &&& all_digits(fraction_digits(body))
    &&& whole_digits(body).len() + fraction_digits(body).len() > 0
}

/// The absolute value of the number times ten to the `k`, rounded down.
pub open spec fn scaled_value(num: Seq<char>, k: nat) -> nat {
    let body = unsigned_part(num);
    let whole = whole_digits(body);
    let fraction = fraction_digits(body);
    ((digits_value(whole + fraction) * pow10(k)) / pow10(fraction.len())) as nat
}

/// The number of bytes that a size text stands for.
///
/// The text is a decimal number, then optional white space, then an optional
/// unit, with white space allowed at both ends. The units are decimal. The
/// result is rounded down to whole bytes; a negative number gives 0, and a
/// value above `u64::MAX` gives `u64::MAX`. A text of any other shape has no
/// size.
pub open spec fn size_of_text(s: Seq<char>) -> Option<u64> {
    let t = trimmed(s);
    let cut = find_letter(t, 0);
    let num = trimmed(t.take(cut));
    let unit = t.skip(cut);
    if !is_number(num) {
        None
    } else {
        match unit_power(unit) {
            None => None,
            Some(k) => {
                let v = scaled_value(num, k);
                Some(
                    if is_negative(num) {
                        0u64
                    } else if v > u64::MAX {
                        u64::MAX
                    } else {
                        v as u64
                    },
                )
            },
        }
    }
}

/// A copy of `v[from..to]`.
fn piece(v: &Vec<char>, from: usize, to: usize) -> (r: Vec<char>)
    requires
        from <= to <= v@.len(),
    ensures
        r@ == v@.subrange(from as int, to as int),
{
    let mut r: Vec<char> = Vec::new();
    let mut i: usize = from;
    while i < to
        invariant
            from <= i <= to <= v@.len(),
            r@ == v@.subrange(from as int, i as int),
        decreases to - i,
    {
        r.push(v[i]);
        i += 1;
    }
    r
}

/// `v` without the white space at its two ends.
fn trim(v: &Vec<char>) -> (r: Vec<char>)
    ensures
        r@ == trimmed(v@),
{
    let mut a: usize = 0;
    while a < v.len() && space(v[a])
        invariant
            a <= v@.len(),
            skip_spaces(v@, 0) == skip_spaces(v@, a as int),
        decreases v@.len() - a,
    {
        a += 1;
    }
    let mut b: usize = v.len();
    while b > 0 && space(v[b - 1])
        invariant
            b <= v@.len(),
            drop_spaces(v@, v@.len() as int) == drop_spaces(v@, b as int),
        decreases b,
    {
        b -= 1;
    }
    if a < b {
        piece(v, a, b)
    } else {
        Vec::new()
    }
}

/// The position of the first letter of `v`, or its length.
fn letter_position(v: &Vec<char>) -> (r: usize)
    ensures
        r == find_letter(v@, 0),
        r <= v@.len(),
{
    let mut i: usize = 0;
    while i < v.len() && !letter(v[i])
        invariant
            i <= v@.len(),
            find_letter(v@, 0) == find_letter(v@, i as int),
        decreases v@.len() - i,
    {
        i += 1;
    }
    i
}

/// The position of the first full stop of `v`, or its length.
fn dot_position(v: &Vec<char>) -> (r: usize)
    ensures
        r == find_dot(v@, 0),
        r <= v@.len(),
{
    let mut i: usize = 0;
    while i < v.len() && v[i] != '.'
        invariant
            i <= v@.len(),
            find_dot(v@, 0) == find_dot(v@, i as int),
        decreases v@.len() - i,
    {
        i += 1;
    }
    i
}

/// The power of ten of a unit, if it is one.
fn power_of_unit(unit: &Vec<char>) -> (r: Option<u32>)
    ensures
        match r {
            Some(k) => unit_power(unit@) == Some(k as nat) && k <= 12,
            None => unit_power(unit@).is_none(),
        },
{
    if unit.len() == 0 {
        return Some(0);
    }
    if unit.len() > 2 || (unit.len() == 2 && !is_letter_of(unit[1], 'B')) {
        return None;
    }
    if is_letter_of(unit[0], 'K') {
        Some(3)
    } else if is_letter_of(unit[0], 'M') {
        Some(6)
    } else if is_letter_of(unit[0], 'G') {
        Some(9)
    } else if is_letter_of(unit[0], 'T') {
        Some(12)
    } else {
        None
    }
}

/// Whether every character of `ds` is a decimal digit.
fn only_digits(ds: &Vec<char>) -> (r: bool)
    ensures
        r == all_digits(ds@),
{
    let mut i: usize = 0;
    while i < ds.len()
        invariant
            i <= ds@.len(),
            forall|j: int| 0 <= j < i ==> crate::text::is_digit(#[trigger] ds@[j]),
        decreases ds@.len() - i,
    {
        if !digit(ds[i]) {
            return false;
        }
        i += 1;
    }
    true
}

/// The largest value that the digits are counted up to: two to the 64.
pub open spec fn value_cap() -> nat {
    0x1_0000_0000_0000_0000
}

/// The value of a digit string, or `value_cap()` where it is larger.
fn capped_value(ds: &Vec<char>) -> (r: u128)
    requires
        all_digits(ds@),
    ensures
        r == if digits_value(ds@) < value_cap() {
            digits_value(ds@)
        } else {
            value_cap()
        },
{
    let mut acc: u128 = 0;
    let mut i: usize = 0;
    while i < ds.len()
        invariant
            i <= ds@.len(),
            all_digits(ds@),
            acc <= value_cap(),
            acc == if digits_value(ds@.take(i as int)) < value_cap() {
                digits_value(ds@.take(i as int))
            } else {
                value_cap()
            },
        decreases ds@.len() - i,
    {
        let c = ds[i];
        let d: u128 = (c as u32 - 0x30) as u128;
        proof {
            assert(ds@.take(i + 1).drop_last() =~= ds@.take(i as int));
        }
        acc = acc * 10 + d;
        if acc > 0x1_0000_0000_0000_0000 {
            acc = 0x1_0000_0000_0000_0000;
        }
        i += 1;
    }
    assert(ds@.take(ds@.len() as int) =~= ds@);
    acc
}

proof fn lemma_pow10_grows(a: nat, b: nat)
    requires
        a <= b,
    ensures
        pow10(a) <= pow10(b),
    decreases b - a,
{
    if a < b {
        lemma_pow10_grows(a + 1, b);
    }
}

proof fn lemma_pow10_twelve()
    ensures
        pow10(12) == 1_000_000_000_000,
{
    reveal_with_fuel(pow10, 13);
}

/// Ten to the power `k`.
fn ten_to(k: u32) -> (r: u128)
    requires
        k <= 12,
    ensures
        r == pow10(k as nat),
        1 <= r <= 1_000_000_000_000,
{
    let mut r: u128 = 1;
    let mut i: u32 = 0;
    while i < k
        invariant
            i <= k <= 12,
            r == pow10(i as nat),
            1 <= r <= 1_000_000_000_000,
        decreases k - i,
    {
        proof {
            lemma_pow10_grows((i + 1) as nat, 12);
            lemma_pow10_twelve();
        }
        r = r * 10;
        i += 1;
    }
    r
}

/// Reads a size such as `100MB`, `2.5K` or `1024` as a number of bytes.
pub fn parse_size(s: &str) -> (r: Option<u64>)
    ensures
        r == size_of_text(s@),
{
    let all = chars_of(s);
    let t = trim(&all);
    let cut = letter_position(&t);
    let head = piece(&t, 0, cut);
    let num = trim(&head);
    let unit = piece(&t, cut, t.len());
    let negative = num.len() > 0 && num[0] == '-';
    let signed = num.len() > 0 && (num[0] == '+' || num[0] == '-');
    let body = if signed {
        piece(&num, 1, num.len())
    } else {
        piece(&num, 0, num.len())
    };
    assert(body@ =~= unsigned_part(num@));
    let d = dot_position(&body);
    let whole = piece(&body, 0, d);
    let fraction = if d < body.len() {
        piece(&body, d + 1, body.len())
    } else {
        Vec::new()
    };
    if !only_digits(&whole) || !only_digits(&fraction) || (whole.len() == 0 && fraction.len()
        == 0) {
        return None;
    }
    match power_of_unit(&unit) {
        None => None,
        Some(k) => {
            if negative {
                Some(0)
            } else {
                let m: usize = if fraction.len() <= k as usize {
                    fraction.len()
                } else {
                    k as usize
                };
                let lead = piece(&fraction, 0, m);
                let w = capped_value(&whole);
                let f = capped_value(&lead);
                let pk = ten_to(k);
                let pd = ten_to(k - m as u32);
                proof {
                    lemma_scaled_value(whole@, fraction@, k as nat);
                    lemma_value_below_power(lead@);
                    lemma_pow10_grows(m as nat, 12);
                    lemma_pow10_twelve();
                    assert(w * pk <= 0x1_0000_0000_0000_0000 * 1_000_000_000_000)
                        by (nonlinear_arith)
                        requires
                            w <= 0x1_0000_0000_0000_0000,
                            pk <= 1_000_000_000_000,
                    ;
                    assert(f * pd <= 1_000_000_000_000 * 1_000_000_000_000) by (nonlinear_arith)
                        requires
                            f <= 1_000_000_000_000,
                            pd <= 1_000_000_000_000,
                    ;
                    if digits_value(whole@) >= value_cap() {
                        assert(digits_value(whole@) * pk >= 0x1_0000_0000_0000_0000
                            && w * pk >= 0x1_0000_0000_0000_0000) by (nonlinear_arith)
                            requires
                                digits_value(whole@) >= 0x1_0000_0000_0000_0000,
                                w == 0x1_0000_0000_0000_0000,
                                pk >= 1,
                        ;
                    }
                }
                let total: u128 = w * pk + f * pd;
                if total > 0xFFFF_FFFF_FFFF_FFFF {
                    Some(u64::MAX)
                } else {
                    Some(total as u64)
                }
            }
        },
    }
}

} // verus!
