//! The dotted-decimal text of IPv4 addresses, written and read.

use vstd::arithmetic::div_mod::lemma_fundamental_div_mod_converse;
use vstd::prelude::*;
use vstd::string::StringExecFns;
use crate::text::{
    digit_char, digit_str, digit_value, lemma_digit_read_back, lemma_scan_digits, lemma_spelled,
    read_numeral, scan_number, scan_numeral, spelled, to_chars,
};

verus! {

/// Octet `i` of the address `a`, the most significant being octet 0.
pub open spec fn octet(a: u32, i: int) -> nat {
    if i == 0 {
        (a / 0x100_0000) as nat
    } else if i == 1 {
        (a / 0x1_0000 % 0x100) as nat
    } else if i == 2 {
        (a / 0x100 % 0x100) as nat
    } else {
        (a % 0x100) as nat
    }
}

/// The address whose octets are `o0` to `o3`.
pub open spec fn from_octets(o0: nat, o1: nat, o2: nat, o3: nat) -> nat {
    o0 * 0x100_0000 + o1 * 0x1_0000 + o2 * 0x100 + o3
}

/// An octet in decimal, without leading zeros.
pub open spec fn octet_text(v: nat) -> Seq<char> {
    if v < 10 {
        seq![digit_char(v)]
    } else if v < 100 {
        seq![digit_char(v / 10), digit_char(v % 10)]
    } else {
        seq![digit_char(v / 100), digit_char(v / 10 % 10), digit_char(v % 10)]
    }
}

/// Four octets in decimal, separated by dots.
pub open spec fn dotted_text(o0: nat, o1: nat, o2: nat, o3: nat) -> Seq<char> {
    octet_text(o0) + (seq!['.'] + (octet_text(o1) + (seq!['.'] + (octet_text(o2) + (seq!['.']
        + octet_text(o3))))))
}

/// The text of an IPv4 address: its four octets in decimal, separated by
/// dots.
#[verifier::opaque]
pub open spec fn ipv4_text(a: u32) -> Seq<char> {
    dotted_text(octet(a, 0), octet(a, 1), octet(a, 2), octet(a, 3))
}

/// Appends an octet in decimal.
fn push_octet(out: &mut String, v: u8)
    ensures
        final(out)@ == old(out)@ + octet_text(v as nat),
{
    if v >= 100 {
        out.append(digit_str(v / 100));
    }
    if v >= 10 {
        out.append(digit_str(v / 10 % 10));
    }
    out.append(digit_str(v % 10));
}

/// Appends four octets in decimal, separated by dots.
fn push_dotted(out: &mut String, o0: u8, o1: u8, o2: u8, o3: u8)
    ensures
        final(out)@ == old(out)@ + dotted_text(o0 as nat, o1 as nat, o2 as nat, o3 as nat),
{
    push_octet(out, o0);
    out.append(".");
    push_octet(out, o1);
    out.append(".");
    push_octet(out, o2);
    out.append(".");
    push_octet(out, o3);
    proof {
        reveal_strlit(".");
        let dot = seq!['.'];
        let t0 = octet_text(o0 as nat);
        let t1 = octet_text(o1 as nat);
        let t2 = octet_text(o2 as nat);
        let t3 = octet_text(o3 as nat);
        assert(old(out)@ + t0 + dot + t1 + dot + t2 + dot + t3 =~= old(out)@ + (t0 + (dot + (t1
            + (dot + (t2 + (dot + t3)))))));
    }
}

/// Appends the text of the address `a`.
pub(crate) fn push_ipv4(out: &mut String, a: u32)
    ensures
        final(out)@ == old(out)@ + ipv4_text(a),
{
    proof {
        reveal(ipv4_text);
    }
    push_dotted(
        out,
        (a / 0x100_0000) as u8,
        (a / 0x1_0000 % 0x100) as u8,
        (a / 0x100 % 0x100) as u8,
        (a % 0x100) as u8,
    );
}

/// Reads an octet at `p`: a decimal numeral of one to three digits, without
/// a leading zero unless it is `0` itself, and not above 255. Gives the
/// octet and the place after it.
pub open spec fn scan_octet(s: Seq<char>, p: int) -> Option<(nat, int)> {
    match scan_numeral(s, p, 10, 3) {
        Some((value, end)) => if value < 0x100 && (s[p] != '0' || end == p + 1) {
            Some((value, end))
        } else {
            None
        },
        None => None,
    }
}

/// A dot stands in `s` at `p`.
pub open spec fn dot_at(s: Seq<char>, p: int) -> bool {
    0 <= p < s.len() && s[p] == '.'
}

/// Reads an octet and the dot after it at `p`. Gives the octet and the place
/// after the dot.
pub open spec fn scan_octet_dot(s: Seq<char>, p: int) -> Option<(nat, int)> {
    match scan_octet(s, p) {
        Some((value, end)) => if dot_at(s, end) {
            Some((value, end + 1))
        } else {
            None
        },
        None => None,
    }
}

/// Reads a dotted-decimal address at `p`: four octets with a dot between
/// each two. Gives the address and the place after it.
pub open spec fn scan_dotted(s: Seq<char>, p: int) -> Option<(u32, int)> {
    match scan_octet_dot(s, p) {
        Some((o0, q0)) => match scan_octet_dot(s, q0) {
            Some((o1, q1)) => match scan_octet_dot(s, q1) {
                Some((o2, q2)) => match scan_octet(s, q2) {
                    Some((o3, end)) => Some((from_octets(o0, o1, o2, o3) as u32, end)),
                    None => None,
                },
                None => None,
            },
            None => None,
        },
        None => None,
    }
}

/// Reads an octet at `p`.
fn read_octet(chars: &Vec<char>, p: usize) -> (r: Option<(u32, usize)>)
    requires
        p <= chars@.len(),
    ensures
        match r {
            Some((value, end)) => scan_octet(chars@, p as int) == Some((value as nat, end as int))
                && p < end <= chars@.len() && value < 0x100,
            None => scan_octet(chars@, p as int) is None,
        },
{
    match read_numeral(chars, p, 10, 3) {
        Some((value, end)) => {
            if value < 0x100 && (chars[p] != '0' || end == p + 1) {
                Some((value, end))
            } else {
                None
            }
        },
        None => None,
    }
}

/// Reads a dotted-decimal address at `p`.
pub(crate) fn read_dotted(chars: &Vec<char>, p: usize) -> (r: Option<(u32, usize)>)
    requires
        p <= chars@.len(),
    ensures
        match r {
            Some((a, end)) => scan_dotted(chars@, p as int) == Some((a, end as int)) && p < end
                <= chars@.len(),
            None => scan_dotted(chars@, p as int) is None,
        },
{
    let n = chars.len();
    let (v0, e0) = match read_octet(chars, p) {
        Some(read) => read,
        None => {
            return None;
        },
    };
    if e0 >= n || chars[e0] != '.' {
        return None;
    }
    let (v1, e1) = match read_octet(chars, e0 + 1) {
        Some(read) => read,
        None => {
            return None;
        },
    };
    if e1 >= n || chars[e1] != '.' {
        return None;
    }
    let (v2, e2) = match read_octet(chars, e1 + 1) {
        Some(read) => read,
        None => {
            return None;
        },
    };
    if e2 >= n || chars[e2] != '.' {
        return None;
    }
    let (v3, e3) = match read_octet(chars, e2 + 1) {
        Some(read) => read,
        None => {
            return None;
        },
    };
    Some((v0 * 0x100_0000 + v1 * 0x1_0000 + v2 * 0x100 + v3, e3))
}

/// The decimal digits of an octet, without leading zeros.
pub(crate) open spec fn octet_digits(v: nat) -> Seq<nat> {
    if v < 10 {
        seq![v]
    } else if v < 100 {
        seq![v / 10, v % 10]
    } else {
        seq![v / 100, v / 10 % 10, v % 10]
    }
}

/// The text of an octet writes its digits.
proof fn lemma_octet_digits(v: nat)
    requires
        v < 0x100,
    ensures
        octet_text(v).len() == octet_digits(v).len(),
        1 <= octet_digits(v).len() <= 3,
        forall|i: int|
            0 <= i < octet_digits(v).len() ==> digit_value(#[trigger] octet_text(v)[i], 10)
                == Some(octet_digits(v)[i]),
{
    let ds = octet_digits(v);
    assert forall|i: int| 0 <= i < ds.len() implies digit_value(#[trigger] octet_text(v)[i], 10)
        == Some(ds[i]) by {
        lemma_digit_read_back(ds[i]);
    }
}

/// The digits of an octet spell the octet.
proof fn lemma_octet_digits_spell(v: nat)
    requires
        v < 0x100,
    ensures
        spelled(0, 10, octet_digits(v)) == v,
{
    lemma_spelled(10, v / 100, v / 10 % 10, v % 10, 0);
    lemma_spelled(10, v / 10, v % 10, 0, 0);
    lemma_spelled(10, v, 0, 0, 0);
}

/// An octet's text is read back as the octet, provided no digit follows it.
pub(crate) proof fn lemma_scan_octet(s: Seq<char>, p: int, v: nat, rest: Seq<char>)
    requires
        v < 0x100,
        0 <= p <= s.len(),
        s.skip(p) == octet_text(v) + rest,
        rest.len() == 0 || digit_value(rest[0], 10) is None,
    ensures
        scan_octet(s, p) == Some((v, p + octet_text(v).len())),
        p + octet_text(v).len() <= s.len(),
        s.skip(p + octet_text(v).len()) == rest,
{
    let t = octet_text(v);
    let n = t.len() as int;
    let ds = octet_digits(v);
    let whole = t + rest;
    lemma_octet_digits(v);
    lemma_octet_digits_spell(v);
    assert(forall|i: int| 0 <= i < whole.len() ==> s[p + i] == #[trigger] whole[i]);
    assert(s.skip(p + n) =~= rest) by {
        assert forall|i: int| 0 <= i < rest.len() implies s.skip(p + n)[i] == rest[i] by {
            assert(whole[n + i] == rest[i]);
        }
    }
    assert forall|i: int| 0 <= i < ds.len() implies digit_value(s[p + i], 10) == Some(
        #[trigger] ds[i],
    ) by {
        assert(whole[i] == t[i]);
    }
    lemma_scan_digits(s, p, 10, 3, 0, 0, ds);
}

/// After a dot at `p`, what follows the dot.
proof fn lemma_skip_dot(s: Seq<char>, p: int, rest: Seq<char>)
    requires
        0 <= p <= s.len(),
        s.skip(p) == seq!['.'] + rest,
    ensures
        p < s.len(),
        s[p] == '.',
        s.skip(p + 1) == rest,
{
    let whole = seq!['.'] + rest;
    assert(s.len() - p == whole.len());
    assert(whole[0] == '.');
    assert(s.skip(p + 1) =~= rest) by {
        assert forall|i: int| 0 <= i < rest.len() implies s.skip(p + 1)[i] == rest[i] by {
            assert(whole[i + 1] == rest[i]);
        }
    }
}

/// An address is the number that its octets spell.
pub(crate) proof fn lemma_octets_value(a: u32)
    ensures
        from_octets(octet(a, 0), octet(a, 1), octet(a, 2), octet(a, 3)) == a,
        octet(a, 0) < 0x100,
        octet(a, 1) < 0x100,
        octet(a, 2) < 0x100,
        octet(a, 3) < 0x100,
{
}

/// Four dotted octets are read back, provided no digit follows them.
proof fn lemma_scan_octets(s: Seq<char>, from: int, o0: nat, o1: nat, o2: nat, o3: nat)
    requires
        0 <= from <= s.len(),
        o0 < 0x100,
        o1 < 0x100,
        o2 < 0x100,
        o3 < 0x100,
        s.skip(from) == dotted_text(o0, o1, o2, o3),
    ensures
        scan_dotted(s, from) == Some((from_octets(o0, o1, o2, o3) as u32, s.len() as int)),
{
    let dot = seq!['.'];
    let none = Seq::<char>::empty();
    let r3 = octet_text(o3);
    let r2 = octet_text(o2) + (dot + r3);
    let r1 = octet_text(o1) + (dot + r2);
    lemma_scan_octet(s, from, o0, dot + r1);
    let e0 = from + octet_text(o0).len();
    lemma_skip_dot(s, e0, r1);
    lemma_scan_octet(s, e0 + 1, o1, dot + r2);
    let e1 = e0 + 1 + octet_text(o1).len();
    lemma_skip_dot(s, e1, r2);
    lemma_scan_octet(s, e1 + 1, o2, dot + r3);
    let e2 = e1 + 1 + octet_text(o2).len();
    lemma_skip_dot(s, e2, r3);
    lemma_scan_octet(s, e2 + 1, o3, none);
}

/// The text of an address is read back as the address.
pub(crate) proof fn lemma_scan_ipv4(s: Seq<char>, from: int, a: u32)
    requires
        0 <= from <= s.len(),
        s.skip(from) == ipv4_text(a),
    ensures
        scan_dotted(s, from) == Some((a, s.len() as int)),
{
    reveal(ipv4_text);
    lemma_octets_value(a);
    lemma_scan_octets(s, from, octet(a, 0), octet(a, 1), octet(a, 2), octet(a, 3));
}

/// A dotted address is read only where a dot stands.
pub(crate) proof fn lemma_dotted_has_dot(s: Seq<char>, p: int)
    requires
        scan_dotted(s, p) is Some,
    ensures
        exists|i: int| 0 <= i < s.len() && s[i] == '.',
{
    match scan_octet(s, p) {
        Some((_, end)) => {
            assert(dot_at(s, end));
        },
        None => {},
    }
}

/// Two addresses with the same text are the same address.
pub proof fn lemma_ipv4_text_injective(a: u32, b: u32)
    requires
        ipv4_text(a) == ipv4_text(b),
    ensures
        a == b,
{
    lemma_ipv4_round_trip(a);
    lemma_ipv4_round_trip(b);
}

/// The text of an address is made of decimal digits and dots.
pub(crate) proof fn lemma_ipv4_text_chars(a: u32, i: int)
    requires
        0 <= i < ipv4_text(a).len(),
    ensures
        ipv4_text(a)[i] == '.' || digit_value(ipv4_text(a)[i], 10) is Some,
{
    reveal(ipv4_text);
    lemma_octet_text_digits(octet(a, 0));
    lemma_octet_text_digits(octet(a, 1));
    lemma_octet_text_digits(octet(a, 2));
    lemma_octet_text_digits(octet(a, 3));
}

/// The text of an octet is made of decimal digits.
pub(crate) proof fn lemma_octet_text_digits(v: nat)
    requires
        v < 0x100,
    ensures
        forall|i: int|
            0 <= i < octet_text(v).len() ==> digit_value(#[trigger] octet_text(v)[i], 10) is Some,
{
    lemma_octet_digits(v);
}

/// The address that `s` is the text of, if it is the text of one: a
/// dotted-decimal address that fills `s`.
pub open spec fn ipv4_from_text(s: Seq<char>) -> Option<u32> {
    match scan_dotted(s, 0) {
        Some((a, end)) => if end == s.len() {
            Some(a)
        } else {
            None
        },
        None => None,
    }
}

/// The text of an address is read back as the address.
pub proof fn lemma_ipv4_round_trip(a: u32)
    ensures
        ipv4_from_text(ipv4_text(a)) == Some(a),
{
    let s = ipv4_text(a);
    assert(s.skip(0) == s);
    lemma_scan_ipv4(s, 0, a);
}

/// An octet is read from its text only.
proof fn lemma_octet_read(s: Seq<char>, p: int)
    requires
        0 <= p,
    ensures
        scan_octet(s, p) matches Some((v, end)) ==> p < end <= s.len() && s.subrange(p, end)
            == octet_text(v),
{
    reveal_with_fuel(scan_number, 4);
}

/// An octet and the dot after it are read from the octet's text and a dot
/// only.
proof fn lemma_octet_dot_read(s: Seq<char>, p: int)
    requires
        0 <= p,
    ensures
        scan_octet_dot(s, p) matches Some((v, next)) ==> p < next <= s.len() && v < 0x100
            && s.subrange(p, next) == octet_text(v) + seq!['.'],
{
    lemma_octet_read(s, p);
}

/// A dotted address is read from the dotted text of its octets only.
proof fn lemma_dotted_read(s: Seq<char>, p: int) -> (o: (nat, nat, nat, nat, int))
    requires
        0 <= p,
        scan_dotted(s, p) is Some,
    ensures
        o.0 < 0x100 && o.1 < 0x100 && o.2 < 0x100 && o.3 < 0x100,
        scan_dotted(s, p) == Some((from_octets(o.0, o.1, o.2, o.3) as u32, o.4)),
        p < o.4 <= s.len(),
        s.subrange(p, o.4) == dotted_text(o.0, o.1, o.2, o.3),
{
    let (o0, q0) = scan_octet_dot(s, p)->0;
    let (o1, q1) = scan_octet_dot(s, q0)->0;
    let (o2, q2) = scan_octet_dot(s, q1)->0;
    let (o3, end) = scan_octet(s, q2)->0;
    lemma_octet_dot_read(s, p);
    lemma_octet_dot_read(s, q0);
    lemma_octet_dot_read(s, q1);
    lemma_octet_read(s, q2);
    let dot = seq!['.'];
    assert(s.subrange(q1, end) =~= s.subrange(q1, q2) + s.subrange(q2, end));
    assert(s.subrange(q0, end) =~= s.subrange(q0, q1) + s.subrange(q1, end));
    assert(s.subrange(p, end) =~= s.subrange(p, q0) + s.subrange(q0, end));
    assert(octet_text(o2) + dot + octet_text(o3) =~= octet_text(o2) + (dot + octet_text(o3)));
    assert(octet_text(o1) + dot + (octet_text(o2) + (dot + octet_text(o3))) =~= octet_text(o1)
        + (dot + (octet_text(o2) + (dot + octet_text(o3)))));
    assert(octet_text(o0) + dot + (octet_text(o1) + (dot + (octet_text(o2) + (dot + octet_text(
        o3,
    ))))) =~= dotted_text(o0, o1, o2, o3));
    (o0, o1, o2, o3, end)
}

/// The octets of the address that four octets spell are those octets.
proof fn lemma_octets_spelled(o0: nat, o1: nat, o2: nat, o3: nat)
    requires
        o0 < 0x100,
        o1 < 0x100,
        o2 < 0x100,
        o3 < 0x100,
    ensures
        from_octets(o0, o1, o2, o3) <= u32::MAX,
        octet(from_octets(o0, o1, o2, o3) as u32, 0) == o0,
        octet(from_octets(o0, o1, o2, o3) as u32, 1) == o1,
        octet(from_octets(o0, o1, o2, o3) as u32, 2) == o2,
        octet(from_octets(o0, o1, o2, o3) as u32, 3) == o3,
{
    let x = from_octets(o0, o1, o2, o3) as int;
    let (a, b, c, d) = (o0 as int, o1 as int, o2 as int, o3 as int);
    lemma_fundamental_div_mod_converse(x, 0x100_0000, a, b * 0x1_0000 + c * 0x100 + d);
    lemma_fundamental_div_mod_converse(x, 0x1_0000, a * 0x100 + b, c * 0x100 + d);
    lemma_fundamental_div_mod_converse(a * 0x100 + b, 0x100, a, b);
    lemma_fundamental_div_mod_converse(x, 0x100, a * 0x1_0000 + b * 0x100 + c, d);
    lemma_fundamental_div_mod_converse(a * 0x1_0000 + b * 0x100 + c, 0x100, a * 0x100 + b, c);
}

/// The text of the address that four octets spell is the dotted text of
/// the octets.
proof fn lemma_text_of_octets(o0: nat, o1: nat, o2: nat, o3: nat)
    requires
        o0 < 0x100,
        o1 < 0x100,
        o2 < 0x100,
        o3 < 0x100,
    ensures
        ipv4_text(from_octets(o0, o1, o2, o3) as u32) == dotted_text(o0, o1, o2, o3),
{
    reveal(ipv4_text);
    lemma_octets_spelled(o0, o1, o2, o3);
}

/// An address is read from its text only: no address has two texts.
pub proof fn lemma_ipv4_read_text(s: Seq<char>)
    ensures
        ipv4_from_text(s) matches Some(a) ==> s == ipv4_text(a),
{
    if scan_dotted(s, 0) is Some {
        let o = lemma_dotted_read(s, 0);
        lemma_text_of_octets(o.0, o.1, o.2, o.3);
    }
}

/// The text of the address `a`.
pub fn ipv4_to_string(a: u32) -> (text: String)
    ensures
        text@ == ipv4_text(a),
{
    let mut text = String::new();
    push_ipv4(&mut text, a);
    text
}

/// Reads an address from its text: four decimal octets without leading
/// zeros, separated by dots.
pub fn parse_ipv4(text: &str) -> (r: Option<u32>)
    ensures
        r == ipv4_from_text(text@),
{
    let chars = to_chars(text);
    read_ipv4(&chars)
}

/// Reads an address that fills `chars`.
pub(crate) fn read_ipv4(chars: &Vec<char>) -> (r: Option<u32>)
    ensures
        r == ipv4_from_text(chars@),
{
    match read_dotted(chars, 0) {
        Some((a, end)) => {
            if end == chars.len() {
                Some(a)
            } else {
                None
            }
        },
        None => None,
    }
}

} // verus!
