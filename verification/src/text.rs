//! Characters and digits: what the textual forms of addresses and keys are
//! made of.

use vstd::prelude::*;

verus! {

/// The character that writes the digit `d`: `0` to `9`, then `a` to `f`.
pub open spec fn digit_char(d: nat) -> char {
    if d < 10 {
        (d + 48) as char
    } else {
        (d + 87) as char
    }
}

/// The digit that `c` writes in base `radix` (10 or 16), if it writes one.
/// Hexadecimal digits are read in either case.
pub open spec fn digit_value(c: char, radix: nat) -> Option<nat> {
    if '0' <= c <= '9' {
        Some((c as nat - 48) as nat)
    } else if radix == 16 && 'a' <= c <= 'f' {
        Some((c as nat - 87) as nat)
    } else if radix == 16 && 'A' <= c <= 'F' {
        Some((c as nat - 55) as nat)
    } else {
        None
    }
}

/// The digit that `c` writes in base `radix`.
fn char_to_digit(c: char, radix: u8) -> (r: Option<u8>)
    requires
        radix == 10 || radix == 16,
    ensures
        r is Some <==> digit_value(c, radix as nat) is Some,
        r matches Some(d) ==> digit_value(c, radix as nat) == Some(d as nat) && d < radix,
{
    if '0' <= c && c <= '9' {
        Some((c as u32 - 48) as u8)
    } else if radix == 16 && 'a' <= c && c <= 'f' {
        Some((c as u32 - 87) as u8)
    } else if radix == 16 && 'A' <= c && c <= 'F' {
        Some((c as u32 - 55) as u8)
    } else {
        None
    }
}

/// The one-character string that writes the digit `d`.
pub(crate) fn digit_str(d: u8) -> (r: &'static str)
    requires
        d < 16,
    ensures
        r@ == seq![digit_char(d as nat)],
{
    let digits = "0123456789abcdef";
    proof {
        reveal_strlit("0123456789abcdef");
    }
    digits.substring_ascii(d as usize, d as usize + 1)
}

/// `value` with the digit `d` appended in base `radix` (10 or 16).
pub open spec fn shift_in(value: nat, radix: nat, d: nat) -> nat {
    if radix == 16 {
        value * 16 + d
    } else {
        value * 10 + d
    }
}

/// Reads a number from `s` at `p`: digits of base `radix` as long as there
/// are any, `limit` of them at most. `value` and `digits` are the number and
/// the count read so far. Gives the number and the place after its last
/// digit.
pub open spec fn scan_number(
    s: Seq<char>,
    p: int,
    radix: nat,
    limit: nat,
    value: nat,
    digits: nat,
) -> (nat, int)
    decreases limit - digits,
{
    if digits < limit && 0 <= p < s.len() && digit_value(s[p], radix) is Some {
        scan_number(
            s,
            p + 1,
            radix,
            limit,
            shift_in(value, radix, digit_value(s[p], radix)->0),
            digits + 1,
        )
    } else {
        (value, p)
    }
}

/// Reads a numeral at `p`: at least one digit of base `radix`, `limit` at
/// most, and no digit after them. Gives its number and the place after it.
pub open spec fn scan_numeral(s: Seq<char>, p: int, radix: nat, limit: nat) -> Option<(nat, int)> {
    let (value, end) = scan_number(s, p, radix, limit, 0, 0);
    if p < end && !(end < s.len() && digit_value(s[end], radix) is Some) {
        Some((value, end))
    } else {
        None
    }
}

/// A digit's character is read back as the digit.
pub(crate) proof fn lemma_digit_read_back(d: nat)
    requires
        d < 16,
    ensures
        digit_value(digit_char(d), 16) == Some(d),
        d < 10 ==> digit_value(digit_char(d), 10) == Some(d),
{
}

/// The number that the digits `ds` spell in base `radix` after `value`.
pub(crate) open spec fn spelled(value: nat, radix: nat, ds: Seq<nat>) -> nat
    decreases ds.len(),
{
    if ds.len() == 0 {
        value
    } else {
        spelled(shift_in(value, radix, ds[0]), radix, ds.drop_first())
    }
}

/// What one to four digits spell.
pub(crate) proof fn lemma_spelled(radix: nat, d0: nat, d1: nat, d2: nat, d3: nat)
    ensures
        spelled(0, radix, seq![d0]) == shift_in(0, radix, d0),
        spelled(0, radix, seq![d0, d1]) == shift_in(shift_in(0, radix, d0), radix, d1),
        spelled(0, radix, seq![d0, d1, d2]) == shift_in(
            shift_in(shift_in(0, radix, d0), radix, d1),
            radix,
            d2,
        ),
        spelled(0, radix, seq![d0, d1, d2, d3]) == shift_in(
            shift_in(shift_in(shift_in(0, radix, d0), radix, d1), radix, d2),
            radix,
            d3,
        ),
{
    reveal_with_fuel(spelled, 5);
}

/// Where the digits `ds` stand at `p`, and after them the number must end,
/// the number read is the one they spell.
pub(crate) proof fn lemma_scan_digits(
    s: Seq<char>,
    p: int,
    radix: nat,
    limit: nat,
    value: nat,
    digits: nat,
    ds: Seq<nat>,
)
    requires
        0 <= p,
        p + ds.len() <= s.len(),
        digits + ds.len() <= limit,
        forall|i: int| 0 <= i < ds.len() ==> digit_value(s[p + i], radix) == Some(#[trigger] ds[i]),
        digits + ds.len() == limit || p + ds.len() == s.len() || digit_value(
            s[p + ds.len()],
            radix,
        ) is None,
    ensures
        scan_number(s, p, radix, limit, value, digits) == (spelled(value, radix, ds), p + ds.len()),
    decreases ds.len(),
{
    if ds.len() > 0 {
        let rest = ds.drop_first();
        assert forall|i: int| 0 <= i < rest.len() implies digit_value(s[p + 1 + i], radix) == Some(
            #[trigger] rest[i],
        ) by {
            assert(rest[i] == ds[i + 1]);
        }
        lemma_scan_digits(s, p + 1, radix, limit, shift_in(value, radix, ds[0]), digits + 1, rest);
    }
}

/// A bound on a number of `digits` digits, each below 16.
pub(crate) open spec fn below(digits: nat) -> nat {
    if digits == 0 {
        1
    } else if digits == 1 {
        0x10
    } else if digits == 2 {
        0x100
    } else if digits == 3 {
        0x1000
    } else {
        0x1_0000
    }
}

/// Reads a number of at most `limit` digits of base `radix` at `p`.
pub(crate) fn read_number(chars: &Vec<char>, p: usize, radix: u8, limit: u8) -> (r: (u32, usize))
    requires
        p <= chars@.len(),
        radix == 10 || radix == 16,
        limit <= 4,
    ensures
        (r.0 as nat, r.1 as int) == scan_number(
            chars@,
            p as int,
            radix as nat,
            limit as nat,
            0,
            0,
        ),
        p <= r.1 <= chars@.len(),
        r.1 - p <= limit,
        r.0 < below(limit as nat),
{
    let mut value: u32 = 0;
    let mut digits: u8 = 0;
    let mut at: usize = p;
    while digits < limit && at < chars.len()
        invariant
            radix == 10 || radix == 16,
            limit <= 4,
            digits <= limit,
            p <= at <= chars@.len(),
            at - p == digits,
            value < below(digits as nat),
            scan_number(chars@, at as int, radix as nat, limit as nat, value as nat, digits as nat)
                == scan_number(chars@, p as int, radix as nat, limit as nat, 0, 0),
        decreases limit - digits,
    {
        match char_to_digit(chars[at], radix) {
            Some(d) => {
                value = if radix == 16 {
                    value * 16 + d as u32
                } else {
                    value * 10 + d as u32
                };
                digits += 1;
                at += 1;
            },
            None => {
                return (value, at);
            },
        }
    }
    (value, at)
}

/// Reads a numeral of at most `limit` digits of base `radix` at `p`.
pub(crate) fn read_numeral(chars: &Vec<char>, p: usize, radix: u8, limit: u8) -> (r: Option<
    (u32, usize),
>)
    requires
        p <= chars@.len(),
        radix == 10 || radix == 16,
        limit <= 4,
    ensures
        match r {
            Some((value, end)) => scan_numeral(chars@, p as int, radix as nat, limit as nat)
                == Some((value as nat, end as int)) && p < end <= chars@.len() && value < below(
                limit as nat,
            ),
            None => scan_numeral(chars@, p as int, radix as nat, limit as nat) is None,
        },
{
    let (value, end) = read_number(chars, p, radix, limit);
    if end == p {
        return None;
    }
    if end < chars.len() {
        if char_to_digit(chars[end], radix).is_some() {
            return None;
        }
    }
    Some((value, end))
}

/// The characters of a string.
pub(crate) fn to_chars(s: &str) -> (chars: Vec<char>)
    ensures
        chars@ == s@,
{
    let mut chars: Vec<char> = Vec::new();
    for c in it: s.chars()
        invariant
            chars@ == it.seq().take(it.index() as int),
            it.seq() == s@,
    {
        chars.push(c);
    }
    chars
}

} // verus!
