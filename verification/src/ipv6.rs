//! The text of IPv6 addresses. Written is the canonical text: lower-case
//! hexadecimal groups without leading zeros, the longest run of zero groups
//! abbreviated to `::`, and the dotted tail of IPv4-mapped addresses. Read
//! is every way of writing an address with groups, one `::` and a dotted
//! tail.

use vstd::arithmetic::div_mod::{lemma_breakdown, lemma_fundamental_div_mod};
use vstd::prelude::*;
use vstd::string::StringExecFns;
use crate::ipv4::{
    ipv4_text, lemma_dotted_has_dot, lemma_ipv4_text_chars, lemma_scan_ipv4, push_ipv4,
    read_dotted, scan_dotted, scan_octet,
};
use crate::text::{
    digit_char, digit_str, digit_value, lemma_digit_read_back, lemma_scan_digits, lemma_spelled,
    read_numeral, scan_number, scan_numeral, spelled, to_chars,
};

verus! {

/// The eight 16-bit groups of the address `a`, the most significant first.
pub open spec fn segments(a: u128) -> Seq<u16> {
    seq![
        (a / 0x1_0000_0000_0000_0000_0000_0000_0000) as u16,
        (a / 0x1_0000_0000_0000_0000_0000_0000 % 0x1_0000) as u16,
        (a / 0x1_0000_0000_0000_0000_0000 % 0x1_0000) as u16,
        (a / 0x1_0000_0000_0000_0000 % 0x1_0000) as u16,
        (a / 0x1_0000_0000_0000 % 0x1_0000) as u16,
        (a / 0x1_0000_0000 % 0x1_0000) as u16,
        (a / 0x1_0000 % 0x1_0000) as u16,
        (a % 0x1_0000) as u16,
    ]
}

/// The address whose eight groups are `segs`.
pub open spec fn from_segments(segs: Seq<u16>) -> nat {
    segs[0] as nat * 0x1_0000_0000_0000_0000_0000_0000_0000 + segs[1] as nat
        * 0x1_0000_0000_0000_0000_0000_0000 + segs[2] as nat * 0x1_0000_0000_0000_0000_0000
        + segs[3] as nat * 0x1_0000_0000_0000_0000 + segs[4] as nat * 0x1_0000_0000_0000
        + segs[5] as nat * 0x1_0000_0000 + segs[6] as nat * 0x1_0000 + segs[7] as nat
}

/// A group in hexadecimal, without leading zeros.
pub open spec fn hex_text(v: u16) -> Seq<char> {
    let v = v as nat;
    if v < 0x10 {
        seq![digit_char(v)]
    } else if v < 0x100 {
        seq![digit_char(v / 0x10), digit_char(v % 0x10)]
    } else if v < 0x1000 {
        seq![digit_char(v / 0x100), digit_char(v / 0x10 % 0x10), digit_char(v % 0x10)]
    } else {
        seq![
            digit_char(v / 0x1000),
            digit_char(v / 0x100 % 0x10),
            digit_char(v / 0x10 % 0x10),
            digit_char(v % 0x10),
        ]
    }
}

/// Groups in hexadecimal, separated by colons.
pub open spec fn groups_text(groups: Seq<u16>) -> Seq<char>
    decreases groups.len(),
{
    if groups.len() == 0 {
        Seq::empty()
    } else if groups.len() == 1 {
        hex_text(groups[0])
    } else {
        hex_text(groups[0]) + seq![':'] + groups_text(groups.drop_first())
    }
}

/// The `len` groups from `start` on are all zero.
pub open spec fn zero_run(segs: Seq<u16>, start: int, len: int) -> bool {
    &&& 0 <= start
    &&& 0 <= len
    &&& start + len <= segs.len()
    &&& forall|i: int| start <= i < start + len ==> segs[i] == 0
}

/// The run that the text abbreviates: none of zero groups is longer, and
/// none as long starts before it.
pub open spec fn is_longest_run(segs: Seq<u16>, start: int, len: int) -> bool {
    &&& zero_run(segs, start, len)
    &&& forall|s: int, l: int| #[trigger]
        zero_run(segs, s, l) ==> l < len || (l == len && start <= s)
}

/// Start and length of the longest run of zero groups.
pub open spec fn longest_run(segs: Seq<u16>) -> (int, int) {
    choose|r: (int, int)| is_longest_run(segs, r.0, r.1)
}

/// The address is an IPv4 address mapped into IPv6 (`::ffff:a.b.c.d`).
pub open spec fn is_mapped(a: u128) -> bool {
    a / 0x1_0000_0000 == 0xffff
}

/// What the text of an IPv4-mapped address begins with.
pub open spec fn mapped_prefix() -> Seq<char> {
    seq![':', ':', 'f', 'f', 'f', 'f', ':']
}

/// The text of eight groups: the groups in hexadecimal, separated by
/// colons; where the longest run of zero groups has two groups or more,
/// that run (the first of them, if several are equally long) is replaced by
/// `::`.
pub open spec fn plain_text(segs: Seq<u16>) -> Seq<char> {
    let (start, len) = longest_run(segs);
    if len >= 2 {
        groups_text(segs.take(start)) + seq![':', ':'] + groups_text(segs.skip(start + len))
    } else {
        groups_text(segs)
    }
}

/// The canonical text of an IPv6 address.
///
/// An IPv4-mapped address is written as `::ffff:` and the dotted IPv4
/// address; any other as its eight groups, the longest run of zero groups
/// abbreviated.
#[verifier::opaque]
pub open spec fn ipv6_text(a: u128) -> Seq<char> {
    if is_mapped(a) {
        mapped_prefix() + ipv4_text((a % 0x1_0000_0000) as u32)
    } else {
        plain_text(segments(a))
    }
}

/// At most one run is the longest.
pub proof fn lemma_longest_run_unique(segs: Seq<u16>, start: int, len: int)
    requires
        is_longest_run(segs, start, len),
    ensures
        longest_run(segs) == (start, len),
{
    let found = (start, len);
    assert(is_longest_run(segs, found.0, found.1));
}

/// The groups of an address.
fn split_segments(a: u128) -> (segs: Vec<u16>)
    ensures
        segs@ == segments(a),
{
    let mut segs: Vec<u16> = Vec::new();
    segs.push((a / 0x1_0000_0000_0000_0000_0000_0000_0000) as u16);
    segs.push((a / 0x1_0000_0000_0000_0000_0000_0000 % 0x1_0000) as u16);
    segs.push((a / 0x1_0000_0000_0000_0000_0000 % 0x1_0000) as u16);
    segs.push((a / 0x1_0000_0000_0000_0000 % 0x1_0000) as u16);
    segs.push((a / 0x1_0000_0000_0000 % 0x1_0000) as u16);
    segs.push((a / 0x1_0000_0000 % 0x1_0000) as u16);
    segs.push((a / 0x1_0000 % 0x1_0000) as u16);
    segs.push((a % 0x1_0000) as u16);
    segs
}

/// Finds the longest run of zero groups, the first of the longest.
fn find_longest_run(segs: &Vec<u16>) -> (r: (usize, usize))
    requires
        segs@.len() == 8,
    ensures
        is_longest_run(segs@, r.0 as int, r.1 as int),
        r.0 + r.1 <= 8,
{
    let mut best_start: usize = 0;
    let mut best_len: usize = 0;
    let mut current: usize = 0;
    let mut i: usize = 0;
    while i < 8
        invariant
            segs@.len() == 8,
            i <= 8,
            current <= i,
            zero_run(segs@, i - current, current as int),
            current < i ==> segs@[i - current - 1] != 0,
            zero_run(segs@, best_start as int, best_len as int),
            best_start + best_len <= i,
            best_len == 0 ==> best_start == 0,
            current <= best_len,
            forall|s: int, l: int| #[trigger]
                zero_run(segs@, s, l) && s + l <= i ==> l < best_len || (l == best_len
                    && best_start <= s),
        decreases 8 - i,
    {
        if segs[i] == 0 {
            current += 1;
            if current > best_len {
                best_start = i + 1 - current;
                best_len = current;
            }
        } else {
            current = 0;
        }
        i += 1;
        assert forall|s: int, l: int| #[trigger]
            zero_run(segs@, s, l) && s + l <= i implies l < best_len || (l == best_len
            && best_start <= s) by {
            // A run that ends at `i` is no longer than the current one.
            if s + l == i && l > current {
                assert(segs@[i - current - 1] == 0);
            }
        }
    }
    (best_start, best_len)
}

/// Appends a group in hexadecimal.
fn push_hex(out: &mut String, v: u16)
    ensures
        final(out)@ == old(out)@ + hex_text(v),
{
    if v >= 0x1000 {
        out.append(digit_str((v / 0x1000) as u8));
    }
    if v >= 0x100 {
        out.append(digit_str((v / 0x100 % 0x10) as u8));
    }
    if v >= 0x10 {
        out.append(digit_str((v / 0x10 % 0x10) as u8));
    }
    out.append(digit_str((v % 0x10) as u8));
}

/// Appending one more group to a list of groups appends a colon, if the
/// list was not empty, and the group's text.
pub(crate) proof fn lemma_groups_text_push(groups: Seq<u16>, g: u16)
    ensures
        groups_text(groups.push(g)) == if groups.len() == 0 {
            hex_text(g)
        } else {
            groups_text(groups) + seq![':'] + hex_text(g)
        },
    decreases groups.len(),
{
    if groups.len() > 0 {
        let rest = groups.drop_first();
        assert(groups.push(g).drop_first() == rest.push(g));
        lemma_groups_text_push(rest, g);
        if groups.len() > 1 {
            assert(groups_text(groups.push(g)) == hex_text(groups[0]) + seq![':'] + (groups_text(
                rest,
            ) + seq![':'] + hex_text(g)));
        }
    }
}

/// Appends the groups `segs[from..to]`, separated by colons.
fn push_groups(out: &mut String, segs: &Vec<u16>, from: usize, to: usize)
    requires
        from <= to <= segs@.len(),
    ensures
        final(out)@ == old(out)@ + groups_text(segs@.subrange(from as int, to as int)),
{
    let mut i: usize = from;
    while i < to
        invariant
            from <= i <= to <= segs@.len(),
            out@ == old(out)@ + groups_text(segs@.subrange(from as int, i as int)),
        decreases to - i,
    {
        proof {
            lemma_groups_text_push(segs@.subrange(from as int, i as int), segs@[i as int]);
            assert(segs@.subrange(from as int, i as int).push(segs@[i as int]) == segs@.subrange(
                from as int,
                i + 1,
            ));
            reveal_strlit(":");
        }
        if i > from {
            out.append(":");
        }
        push_hex(out, segs[i]);
        i += 1;
    }
}

/// Appends the text of the eight groups `segs`.
fn push_plain(out: &mut String, segs: &Vec<u16>)
    requires
        segs@.len() == 8,
    ensures
        final(out)@ == old(out)@ + plain_text(segs@),
{
    let (start, len) = find_longest_run(segs);
    proof {
        lemma_longest_run_unique(segs@, start as int, len as int);
        reveal_strlit("::");
    }
    if len >= 2 {
        push_groups(out, segs, 0, start);
        out.append("::");
        push_groups(out, segs, start + len, 8);
    } else {
        push_groups(out, segs, 0, 8);
        assert(segs@.subrange(0, 8) == segs@);
    }
}

/// Appends the canonical text of the address `a`.
pub(crate) fn push_ipv6(out: &mut String, a: u128)
    ensures
        final(out)@ == old(out)@ + ipv6_text(a),
{
    proof {
        reveal(ipv6_text);
    }
    if a / 0x1_0000_0000 == 0xffff {
        proof {
            reveal_strlit("::ffff:");
        }
        out.append("::ffff:");
        push_ipv4(out, (a % 0x1_0000_0000) as u32);
    } else {
        let segs = split_segments(a);
        push_plain(out, &segs);
    }
}

/// Reads a group at `p`: a hexadecimal numeral of one to four digits, in
/// either case. Gives the group and the place after it.
pub open spec fn scan_group(s: Seq<char>, p: int) -> Option<(u16, int)> {
    match scan_numeral(s, p, 16, 4) {
        Some((value, end)) => Some((value as u16, end)),
        None => None,
    }
}

/// Reads groups from `s` at `p`, after the `groups` read so far: groups
/// with a colon between each two, as many as there are, `limit` at most. A
/// dotted IPv4 address may stand for the last two of them; it counts as two
/// groups and ends the list. Gives the groups, the place after the last of
/// them, and whether a dotted address ended them.
pub open spec fn scan_groups(s: Seq<char>, p: int, limit: nat, groups: Seq<u16>) -> (
    Seq<u16>,
    int,
    bool,
)
    decreases limit - groups.len(),
{
    let q = if groups.len() == 0 {
        p
    } else {
        p + 1
    };
    if groups.len() >= limit || (groups.len() > 0 && !(0 <= p < s.len() && s[p] == ':')) {
        (groups, p, false)
    } else if groups.len() + 1 < limit && scan_dotted(s, q) is Some {
        let (a, end) = scan_dotted(s, q)->0;
        (groups.push((a / 0x1_0000) as u16).push((a % 0x1_0000) as u16), end, true)
    } else if scan_group(s, q) is Some {
        let (group, end) = scan_group(s, q)->0;
        scan_groups(s, end, limit, groups.push(group))
    } else {
        (groups, p, false)
    }
}

/// `n` zero groups.
pub open spec fn zero_groups(n: int) -> Seq<u16> {
    Seq::new(n as nat, |i: int| 0u16)
}

/// The address that `s` is a text of, if it is a text of one.
///
/// A text of an address is its eight groups with a colon between each two,
/// or groups before and after one `::`, which stands for the zero groups
/// left out and for one at least. A group is written with one to four
/// hexadecimal digits in either case. The last two groups may be written as
/// a dotted IPv4 address instead.
pub open spec fn ipv6_from_text(s: Seq<char>) -> Option<u128> {
    let (head, p, dotted) = scan_groups(s, 0, 8, Seq::empty());
    if head.len() == 8 {
        if p == s.len() {
            Some(from_segments(head) as u128)
        } else {
            None
        }
    } else if !dotted && p + 2 <= s.len() && s[p] == ':' && s[p + 1] == ':' {
        let (tail, q, _) = scan_groups(s, p + 2, (7 - head.len()) as nat, Seq::empty());
        if q == s.len() {
            Some(from_segments(head + zero_groups(8 - head.len() - tail.len()) + tail) as u128)
        } else {
            None
        }
    } else {
        None
    }
}

/// Reads a group at `p`.
fn read_group(chars: &Vec<char>, p: usize) -> (r: Option<(u16, usize)>)
    requires
        p <= chars@.len(),
    ensures
        match r {
            Some((group, end)) => scan_group(chars@, p as int) == Some((group, end as int)) && p
                < end <= chars@.len(),
            None => scan_group(chars@, p as int) is None,
        },
{
    match read_numeral(chars, p, 16, 4) {
        Some((value, end)) => Some((value as u16, end)),
        None => None,
    }
}

/// Reads at most `limit` groups at `p`.
fn read_groups(chars: &Vec<char>, p: usize, limit: usize) -> (r: (Vec<u16>, usize, bool))
    requires
        p <= chars@.len(),
        limit <= 8,
    ensures
        (r.0@, r.1 as int, r.2) == scan_groups(chars@, p as int, limit as nat, Seq::empty()),
        p <= r.1 <= chars@.len(),
        r.0@.len() <= limit,
{
    let mut groups: Vec<u16> = Vec::new();
    let mut at: usize = p;
    while groups.len() < limit
        invariant
            limit <= 8,
            groups@.len() <= limit,
            p <= at <= chars@.len(),
            scan_groups(chars@, at as int, limit as nat, groups@) == scan_groups(
                chars@,
                p as int,
                limit as nat,
                Seq::empty(),
            ),
        decreases limit - groups@.len(),
    {
        let q = if groups.len() == 0 {
            at
        } else if at < chars.len() && chars[at] == ':' {
            at + 1
        } else {
            return (groups, at, false);
        };
        if groups.len() + 1 < limit {
            match read_dotted(chars, q) {
                Some((a, end)) => {
                    groups.push((a / 0x1_0000) as u16);
                    groups.push((a % 0x1_0000) as u16);
                    return (groups, end, true);
                },
                None => {},
            }
        }
        match read_group(chars, q) {
            Some((group, end)) => {
                groups.push(group);
                at = end;
            },
            None => {
                return (groups, at, false);
            },
        }
    }
    (groups, at, false)
}

/// The address whose groups are `segs`.
fn join_segments(segs: &Vec<u16>) -> (a: u128)
    requires
        segs@.len() == 8,
    ensures
        a == from_segments(segs@),
{
    let mut a: u128 = 0;
    let mut i: usize = 0;
    while i < 8
        invariant
            segs@.len() == 8,
            i <= 8,
            a as nat == partial_value(segs@, i as nat),
            a < bound(i as nat),
        decreases 8 - i,
    {
        a = a * 0x1_0000 + segs[i] as u128;
        i += 1;
    }
    proof {
        reveal_with_fuel(partial_value, 9);
    }
    a
}

/// The number that the first `n` groups spell.
pub(crate) open spec fn partial_value(segs: Seq<u16>, n: nat) -> nat
    decreases n,
{
    if n == 0 {
        0
    } else {
        partial_value(segs, (n - 1) as nat) * 0x1_0000 + segs[n - 1] as nat
    }
}

/// A bound on the number that `n` groups spell.
pub(crate) open spec fn bound(n: nat) -> nat {
    if n == 0 {
        1
    } else if n == 1 {
        0x1_0000
    } else if n == 2 {
        0x1_0000_0000
    } else if n == 3 {
        0x1_0000_0000_0000
    } else if n == 4 {
        0x1_0000_0000_0000_0000
    } else if n == 5 {
        0x1_0000_0000_0000_0000_0000
    } else if n == 6 {
        0x1_0000_0000_0000_0000_0000_0000
    } else if n == 7 {
        0x1_0000_0000_0000_0000_0000_0000_0000
    } else {
        (u128::MAX + 1) as nat
    }
}

/// The eight groups that `head`, `tail` and zero groups between them make.
fn fill_groups(head: &Vec<u16>, tail: &Vec<u16>) -> (segs: Vec<u16>)
    requires
        head@.len() + tail@.len() <= 8,
    ensures
        segs@ == head@ + zero_groups(8 - head@.len() - tail@.len()) + tail@,
        segs@.len() == 8,
{
    let mut segs: Vec<u16> = Vec::new();
    let mut i: usize = 0;
    while i < head.len()
        invariant
            i <= head@.len(),
            segs@ == head@.take(i as int),
        decreases head@.len() - i,
    {
        segs.push(head[i]);
        i += 1;
    }
    let gap = 8 - head.len() - tail.len();
    let mut j: usize = 0;
    while j < gap
        invariant
            j <= gap,
            segs@ == head@ + zero_groups(j as int),
        decreases gap - j,
    {
        segs.push(0);
        j += 1;
    }
    let mut k: usize = 0;
    while k < tail.len()
        invariant
            k <= tail@.len(),
            segs@ == head@ + zero_groups(gap as int) + tail@.take(k as int),
        decreases tail@.len() - k,
    {
        segs.push(tail[k]);
        k += 1;
    }
    segs
}

/// Reads an address that fills `chars`.
pub(crate) fn read_ipv6(chars: &Vec<char>) -> (r: Option<u128>)
    ensures
        r == ipv6_from_text(chars@),
{
    let n = chars.len();
    let (head, p, dotted) = read_groups(chars, 0, 8);
    if head.len() == 8 {
        if p == n {
            return Some(join_segments(&head));
        } else {
            return None;
        }
    }
    if dotted || !(n - p >= 2 && chars[p] == ':' && chars[p + 1] == ':') {
        return None;
    }
    let (tail, q, _) = read_groups(chars, p + 2, 7 - head.len());
    if q != n {
        return None;
    }
    let segs = fill_groups(&head, &tail);
    Some(join_segments(&segs))
}

/// The hexadecimal digits of a group, without leading zeros.
pub(crate) open spec fn hex_digits(v: u16) -> Seq<nat> {
    let v = v as nat;
    if v < 0x10 {
        seq![v]
    } else if v < 0x100 {
        seq![v / 0x10, v % 0x10]
    } else if v < 0x1000 {
        seq![v / 0x100, v / 0x10 % 0x10, v % 0x10]
    } else {
        seq![v / 0x1000, v / 0x100 % 0x10, v / 0x10 % 0x10, v % 0x10]
    }
}

/// The text of a group writes its digits.
proof fn lemma_hex_digits(v: u16)
    ensures
        hex_text(v).len() == hex_digits(v).len(),
        1 <= hex_digits(v).len() <= 4,
        forall|i: int|
            0 <= i < hex_digits(v).len() ==> digit_value(#[trigger] hex_text(v)[i], 16) == Some(
                hex_digits(v)[i],
            ),
{
    let ds = hex_digits(v);
    assert forall|i: int| 0 <= i < ds.len() implies digit_value(#[trigger] hex_text(v)[i], 16)
        == Some(ds[i]) by {
        lemma_digit_read_back(ds[i]);
    }
}

/// The digits of a group spell the group.
proof fn lemma_hex_digits_spell(v: u16)
    ensures
        spelled(0, 16, hex_digits(v)) == v,
{
    let w = v as nat;
    let q1 = w / 0x10;
    let q2 = q1 / 0x10;
    let q3 = q2 / 0x10;
    assert(q2 == w / 0x100 && q3 == w / 0x1000);
    assert(w == q1 * 0x10 + w % 0x10);
    assert(q1 == q2 * 0x10 + q1 % 0x10);
    assert(q2 == q3 * 0x10 + q2 % 0x10);
    if w < 0x10 {
        lemma_spelled(16, w, 0, 0, 0);
    } else if w < 0x100 {
        lemma_spelled(16, q1, w % 0x10, 0, 0);
    } else if w < 0x1000 {
        lemma_spelled(16, q2, q1 % 0x10, w % 0x10, 0);
    } else {
        lemma_spelled(16, q3, q2 % 0x10, q1 % 0x10, w % 0x10);
    }
}

/// A group's text is read back as the group, provided no hexadecimal digit
/// follows it.
proof fn lemma_scan_group(s: Seq<char>, p: int, v: u16)
    requires
        0 <= p,
        p + hex_text(v).len() <= s.len(),
        s.subrange(p, p + hex_text(v).len()) == hex_text(v),
        p + hex_text(v).len() == s.len() || digit_value(s[p + hex_text(v).len()], 16) is None,
    ensures
        scan_group(s, p) == Some((v, p + hex_text(v).len())),
{
    let t = hex_text(v);
    let ds = hex_digits(v);
    lemma_hex_digits(v);
    lemma_hex_digits_spell(v);
    assert forall|i: int| 0 <= i < ds.len() implies digit_value(s[p + i], 16) == Some(
        #[trigger] ds[i],
    ) by {
        assert(s.subrange(p, p + t.len())[i] == s[p + i]);
        assert(digit_value(t[i], 16) == Some(ds[i]));
    }
    lemma_scan_digits(s, p, 16, 4, 0, 0, ds);
}

/// No dot stands in `s`.
pub(crate) open spec fn dot_free(s: Seq<char>) -> bool {
    forall|i: int| 0 <= i < s.len() ==> s[i] != '.'
}

/// What stands in `s` at `p` for the groups `more`, after `done` groups.
pub(crate) open spec fn pending_text(done: Seq<u16>, more: Seq<u16>) -> Seq<char> {
    if done.len() > 0 && more.len() > 0 {
        seq![':'] + groups_text(more)
    } else {
        groups_text(more)
    }
}

/// No group can be read at `e`: neither at the start of a list nor after a
/// colon.
pub(crate) open spec fn groups_end(s: Seq<char>, e: int) -> bool {
    ||| e == s.len()
    ||| (digit_value(s[e], 16) is None && s[e] != ':')
    ||| (s[e] == ':' && (e + 1 == s.len() || digit_value(s[e + 1], 16) is None))
}

/// Where no group can be read at the end of the groups read so far, the
/// list ends there.
proof fn lemma_scan_groups_end(s: Seq<char>, p: int, limit: nat, done: Seq<u16>)
    requires
        0 <= p <= s.len(),
        groups_end(s, p),
        done.len() == 0 ==> p == s.len() || digit_value(s[p], 16) is None,
    ensures
        scan_groups(s, p, limit, done) == (done, p, false),
{
}

/// Where the text of a group stands next, and no dot stands in `s`, the
/// group is read and the list goes on after it.
proof fn lemma_scan_next_group(s: Seq<char>, p: int, limit: nat, done: Seq<u16>, g: u16)
    requires
        0 <= p,
        dot_free(s),
        done.len() < limit,
        done.len() > 0 ==> p < s.len() && s[p] == ':',
        ({
            let q = if done.len() == 0 {
                p
            } else {
                p + 1
            };
            let e = q + hex_text(g).len();
            e <= s.len() && s.subrange(q, e) == hex_text(g) && (e == s.len() || digit_value(
                s[e],
                16,
            ) is None)
        }),
    ensures
        scan_groups(s, p, limit, done) == scan_groups(
            s,
            (if done.len() == 0 {
                p
            } else {
                p + 1
            }) + hex_text(g).len(),
            limit,
            done.push(g),
        ),
{
    let q = if done.len() == 0 {
        p
    } else {
        p + 1
    };
    lemma_scan_group(s, q, g);
    // No dotted address stands here, for want of a dot.
    if scan_dotted(s, q) is Some {
        lemma_dotted_has_dot(s, q);
    }
}

/// The text of a list of groups is read back as the list, provided no
/// further group follows it and no dot stands in `s`.
proof fn lemma_scan_groups(s: Seq<char>, p: int, limit: nat, done: Seq<u16>, more: Seq<u16>)
    requires
        0 <= p,
        dot_free(s),
        done.len() + more.len() <= limit,
        p + pending_text(done, more).len() <= s.len(),
        s.subrange(p, p + pending_text(done, more).len()) == pending_text(done, more),
        groups_end(s, p + pending_text(done, more).len()),
        more.len() == 0 && done.len() == 0 ==> p == s.len() || digit_value(s[p], 16) is None,
    ensures
        scan_groups(s, p, limit, done) == (done + more, p + pending_text(done, more).len(), false),
    decreases more.len(),
{
    if more.len() == 0 {
        assert(done + more == done);
        lemma_scan_groups_end(s, p, limit, done);
    } else {
        let text = pending_text(done, more);
        let q = if done.len() == 0 {
            p
        } else {
            p + 1
        };
        let g = more[0];
        let rest = more.drop_first();
        let h = hex_text(g);
        let after = pending_text(done.push(g), rest);
        let e = q + h.len();
        // The text is a colon after earlier groups, the first group, and the
        // text of the groups after it.
        assert(groups_text(more) == h + after);
        assert(forall|i: int| 0 <= i < text.len() ==> s[p + i] == #[trigger] text[i]);
        if done.len() > 0 {
            assert(text[0] == ':');
        }
        assert(s.subrange(q, e) == h) by {
            assert forall|i: int| 0 <= i < h.len() implies s.subrange(q, e)[i] == h[i] by {
                assert(text[q - p + i] == h[i]);
            }
        }
        assert(e == s.len() || digit_value(s[e], 16) is None) by {
            if rest.len() > 0 {
                assert(text[e - p] == ':');
            }
        }
        lemma_scan_next_group(s, p, limit, done, g);
        assert(s.subrange(e, e + after.len()) == after) by {
            assert forall|i: int| 0 <= i < after.len() implies s.subrange(e, e + after.len())[i]
                == after[i] by {
                assert(text[e - p + i] == after[i]);
            }
        }
        lemma_scan_groups(s, e, limit, done.push(g), rest);
        assert(done.push(g) + rest == done + more);
    }
}

/// An address is the number that its groups spell.
pub(crate) proof fn lemma_segments_value(a: u128)
    ensures
        from_segments(segments(a)) == a,
        segments(a).len() == 8,
{
    let x = a as int;
    let d1 = 0x1_0000int;
    let d2 = 0x1_0000_0000int;
    let d3 = 0x1_0000_0000_0000int;
    let d4 = 0x1_0000_0000_0000_0000int;
    let d5 = 0x1_0000_0000_0000_0000_0000int;
    let d6 = 0x1_0000_0000_0000_0000_0000_0000int;
    let d7 = 0x1_0000_0000_0000_0000_0000_0000_0000int;
    lemma_fundamental_div_mod(x, d7);
    lemma_breakdown(x, d6, d1);
    lemma_breakdown(x, d5, d1);
    lemma_breakdown(x, d4, d1);
    lemma_breakdown(x, d3, d1);
    lemma_breakdown(x, d2, d1);
    lemma_breakdown(x, d1, d1);
}

/// The text of a group is made of hexadecimal digits.
pub(crate) proof fn lemma_hex_text_digits(v: u16, i: int)
    requires
        0 <= i < hex_text(v).len(),
    ensures
        digit_value(hex_text(v)[i], 16) is Some,
        1 <= hex_text(v).len() <= 4,
{
    lemma_hex_digits(v);
}

/// The text of a list of groups is made of hexadecimal digits and colons.
pub(crate) proof fn lemma_groups_text_chars(groups: Seq<u16>, i: int)
    requires
        0 <= i < groups_text(groups).len(),
    ensures
        groups_text(groups)[i] == ':' || digit_value(groups_text(groups)[i], 16) is Some,
    decreases groups.len(),
{
    let h = hex_text(groups[0]);
    if i < h.len() {
        lemma_hex_text_digits(groups[0], i);
    } else if groups.len() > 1 {
        if i > h.len() {
            lemma_groups_text_chars(groups.drop_first(), i - h.len() - 1);
        }
    }
}

/// Every list of eight groups has a longest run of zero groups.
pub(crate) proof fn lemma_longest_run_exists(segs: Seq<u16>, i: int) -> (r: (int, int, int))
    requires
        0 <= i <= segs.len(),
    ensures
        0 <= r.2 <= i,
        zero_run(segs, i - r.2, r.2),
        r.2 < i ==> segs[i - r.2 - 1] != 0,
        zero_run(segs, r.0, r.1),
        r.0 + r.1 <= i,
        r.1 == 0 ==> r.0 == 0,
        r.2 <= r.1,
        forall|s: int, l: int| #[trigger]
            zero_run(segs, s, l) && s + l <= i ==> l < r.1 || (l == r.1 && r.0 <= s),
        i == segs.len() ==> is_longest_run(segs, r.0, r.1),
    decreases i,
{
    if i == 0 {
        (0, 0, 0)
    } else {
        let before = lemma_longest_run_exists(segs, i - 1);
        let current = if segs[i - 1] == 0 {
            before.2 + 1
        } else {
            0
        };
        let r = if current > before.1 {
            (i - current, current, current)
        } else {
            (before.0, before.1, current)
        };
        assert forall|s: int, l: int| #[trigger]
            zero_run(segs, s, l) && s + l <= i implies l < r.1 || (l == r.1 && r.0 <= s) by {
            if s + l == i {
                // A run that ends at `i` is no longer than the current one.
                if l > current {
                    assert(segs[i - current - 1] == 0);
                }
            } else {
                assert(s + l <= i - 1);
            }
        }
        r
    }
}

/// The longest run of zero groups is the longest run.
pub proof fn lemma_longest_run(segs: Seq<u16>)
    ensures
        is_longest_run(segs, longest_run(segs).0, longest_run(segs).1),
{
    let r = lemma_longest_run_exists(segs, segs.len() as int);
    lemma_longest_run_unique(segs, r.0, r.1);
}

/// The text of eight groups is made of hexadecimal digits and colons.
pub(crate) proof fn lemma_plain_text_chars(segs: Seq<u16>, i: int)
    requires
        0 <= i < plain_text(segs).len(),
    ensures
        plain_text(segs)[i] == ':' || digit_value(plain_text(segs)[i], 16) is Some,
{
    let (start, len) = longest_run(segs);
    lemma_longest_run(segs);
    if len >= 2 {
        let head = groups_text(segs.take(start));
        if i < head.len() {
            lemma_groups_text_chars(segs.take(start), i);
        } else if i >= head.len() + 2 {
            lemma_groups_text_chars(segs.skip(start + len), i - head.len() - 2);
        }
    } else {
        lemma_groups_text_chars(segs, i);
    }
}

/// Eight groups written out are read back.
proof fn lemma_scan_written_out(segs: Seq<u16>)
    requires
        segs.len() == 8,
        dot_free(groups_text(segs)),
    ensures
        ipv6_from_text(groups_text(segs)) == Some(from_segments(segs) as u128),
{
    let s = groups_text(segs);
    let none = Seq::<u16>::empty();
    assert(s.subrange(0, s.len() as int) == s);
    lemma_scan_groups(s, 0, 8, none, segs);
    assert(none + segs == segs);
}

/// Groups around `::` are read back, with the zero groups that it stands
/// for.
proof fn lemma_scan_abbreviated(segs: Seq<u16>, start: int, len: int)
    requires
        segs.len() == 8,
        zero_run(segs, start, len),
        len >= 2,
        dot_free(
            groups_text(segs.take(start)) + seq![':', ':'] + groups_text(segs.skip(start + len)),
        ),
    ensures
        ipv6_from_text(
            groups_text(segs.take(start)) + seq![':', ':'] + groups_text(segs.skip(start + len)),
        ) == Some(from_segments(segs) as u128),
{
    let none = Seq::<u16>::empty();
    let head_groups = segs.take(start);
    let tail_groups = segs.skip(start + len);
    let head = groups_text(head_groups);
    let tail = groups_text(tail_groups);
    let s = head + seq![':', ':'] + tail;
    let p = head.len() as int;
    assert(s[p] == ':' && s[p + 1] == ':');
    assert(s.subrange(0, p) == head);
    assert(s.subrange(p + 2, s.len() as int) == tail);
    lemma_scan_groups(s, 0, 8, none, head_groups);
    assert(none + head_groups == head_groups);
    lemma_scan_groups(s, p + 2, (7 - start) as nat, none, tail_groups);
    assert(none + tail_groups == tail_groups);
    assert(head_groups + zero_groups(8 - head_groups.len() - tail_groups.len()) + tail_groups
        =~= segs);
}

/// The text of eight groups is read back as the address of the groups.
proof fn lemma_scan_plain(segs: Seq<u16>)
    requires
        segs.len() == 8,
    ensures
        ipv6_from_text(plain_text(segs)) == Some(from_segments(segs) as u128),
{
    assert(dot_free(plain_text(segs))) by {
        assert forall|i: int| 0 <= i < plain_text(segs).len() implies plain_text(segs)[i]
            != '.' by {
            lemma_plain_text_chars(segs, i);
        }
    }
    let (start, len) = longest_run(segs);
    lemma_longest_run(segs);
    if len >= 2 {
        lemma_scan_abbreviated(segs, start, len);
    } else {
        lemma_scan_written_out(segs);
    }
}

/// The text of a mapped address is read back as the address.
proof fn lemma_scan_mapped(low: u32)
    ensures
        ipv6_from_text(mapped_prefix() + ipv4_text(low)) == Some(
            (0xffff_0000_0000 + low) as u128,
        ),
{
    let s = mapped_prefix() + ipv4_text(low);
    let none = Seq::<u16>::empty();
    assert(s.skip(7) == ipv4_text(low));
    lemma_scan_ipv4(s, 7, low);
    assert(s[0] == ':' && s[1] == ':' && s[2] == 'f' && s[3] == 'f' && s[4] == 'f' && s[5] == 'f'
        && s[6] == ':');
    // Nothing can be read before the `::`.
    lemma_scan_groups_end(s, 0, 8, none);
    // After it stand the group `ffff` and the dotted address.
    assert(scan_octet(s, 2) is None) by {
        assert(scan_number(s, 2, 10, 3, 0, 0) == (0nat, 2int));
    }
    assert(scan_group(s, 2) == Some((0xffffu16, 6int))) by {
        assert(s.subrange(2, 6) =~= hex_text(0xffff));
        lemma_scan_group(s, 2, 0xffff);
    }
    let one = none.push(0xffffu16);
    assert(scan_groups(s, 2, 7, none) == scan_groups(s, 6, 7, one));
    assert(scan_groups(s, 6, 7, one) == (
        one.push((low / 0x1_0000) as u16).push((low % 0x1_0000) as u16),
        s.len() as int,
        true,
    ));
    let tail = one.push((low / 0x1_0000) as u16).push((low % 0x1_0000) as u16);
    let segs = none + zero_groups(5) + tail;
    assert(segs.len() == 8 && segs[0] == 0 && segs[1] == 0 && segs[2] == 0 && segs[3] == 0
        && segs[4] == 0 && segs[5] == 0xffff && segs[6] == low / 0x1_0000 && segs[7] == low
        % 0x1_0000);
}

/// The canonical text of an address is read back as the address.
pub proof fn lemma_ipv6_round_trip(a: u128)
    ensures
        ipv6_from_text(ipv6_text(a)) == Some(a),
{
    reveal(ipv6_text);
    if is_mapped(a) {
        lemma_scan_mapped((a % 0x1_0000_0000) as u32);
    } else {
        lemma_segments_value(a);
        lemma_scan_plain(segments(a));
    }
}

/// Two addresses with the same text are the same address.
pub proof fn lemma_ipv6_text_injective(a: u128, b: u128)
    requires
        ipv6_text(a) == ipv6_text(b),
    ensures
        a == b,
{
    lemma_ipv6_round_trip(a);
    lemma_ipv6_round_trip(b);
}

/// The text of an address is made of hexadecimal digits, colons and dots,
/// and holds a colon.
pub(crate) proof fn lemma_ipv6_text_chars(a: u128)
    ensures
        forall|i: int|
            0 <= i < ipv6_text(a).len() ==> {
                let c = #[trigger] ipv6_text(a)[i];
                c == ':' || c == '.' || digit_value(c, 16) is Some
            },
        ipv6_text(a).contains(':'),
{
    reveal(ipv6_text);
    let s = ipv6_text(a);
    if is_mapped(a) {
        let low = (a % 0x1_0000_0000) as u32;
        assert forall|i: int| 0 <= i < s.len() implies {
            let c = #[trigger] s[i];
            c == ':' || c == '.' || digit_value(c, 16) is Some
        } by {
            if i >= 7 {
                lemma_ipv4_text_chars(low, i - 7);
            }
        }
        assert(s[0] == ':');
    } else {
        let segs = segments(a);
        assert forall|i: int| 0 <= i < s.len() implies {
            let c = #[trigger] s[i];
            c == ':' || c == '.' || digit_value(c, 16) is Some
        } by {
            lemma_plain_text_chars(segs, i);
        }
        let (start, len) = longest_run(segs);
        lemma_longest_run(segs);
        if len >= 2 {
            let head = groups_text(segs.take(start));
            assert(s[head.len() as int] == ':');
        } else {
            let h = hex_text(segs[0]);
            assert(s[h.len() as int] == ':');
        }
    }
}

/// The canonical text of the address `a`.
pub fn ipv6_to_string(a: u128) -> (text: String)
    ensures
        text@ == ipv6_text(a),
{
    let mut text = String::new();
    push_ipv6(&mut text, a);
    text
}

/// Reads an address from a text of it: the canonical text that
/// [`ipv6_to_string`] writes, or any other way of writing the address that
/// [`ipv6_from_text`] describes.
pub fn parse_ipv6(text: &str) -> (r: Option<u128>)
    ensures
        r == ipv6_from_text(text@),
{
    let chars = to_chars(text);
    read_ipv6(&chars)
}

} // verus!
