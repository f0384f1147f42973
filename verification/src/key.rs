//! The textual form of a key: `<source> -> <destination>`. A key is written
//! with each address in the canonical text of its family, and read from any
//! text of its addresses.

use vstd::prelude::*;
use vstd::string::StringExecFns;
use crate::data::{AddressPair, Ipv4StatsKey, Ipv6StatsKey, StatsKey};
use crate::ipv4::{
    ipv4_from_text, ipv4_text, lemma_ipv4_round_trip, lemma_ipv4_text_chars, push_ipv4, read_ipv4,
};
use crate::ipv6::{
    ipv6_from_text, ipv6_text, lemma_ipv6_round_trip, lemma_ipv6_text_chars, push_ipv6, read_ipv6,
};
use crate::text::to_chars;

verus! {

/// Why a text is not the text of a key.
#[derive(Clone, Copy, Debug, PartialEq, Eq, Structural)]
pub enum KeyError {
    /// The text does not hold the separator ` -> ` exactly once.
    Format,
    /// The source holds no colon, and source or destination is not the text
    /// of an IPv4 address.
    Ipv4Syntax,
    /// The source holds a colon, and source or destination is not a text of
    /// an IPv6 address.
    Ipv6Syntax,
}

/// The separator between source and destination.
pub open spec fn arrow() -> Seq<char> {
    seq![' ', '-', '>', ' ']
}

/// The text of a key.
pub open spec fn key_text(key: StatsKey) -> Seq<char> {
    match key.0 {
        AddressPair::V4(k) => ipv4_text(k.source) + arrow() + ipv4_text(k.dest),
        AddressPair::V6(k) => ipv6_text(k.source) + arrow() + ipv6_text(k.dest),
    }
}

/// The separator stands in `s` at `i`.
pub open spec fn arrow_at(s: Seq<char>, i: int) -> bool {
    &&& 0 <= i
    &&& i + 4 <= s.len()
    &&& s[i] == ' '
    &&& s[i + 1] == '-'
    &&& s[i + 2] == '>'
    &&& s[i + 3] == ' '
}

/// The separator stands somewhere in `s`.
pub open spec fn has_arrow(s: Seq<char>) -> bool {
    exists|i: int| arrow_at(s, i)
}

/// The first place in `s` at which the separator stands.
pub open spec fn first_arrow(s: Seq<char>) -> int {
    choose|i: int| arrow_at(s, i) && forall|j: int| arrow_at(s, j) ==> i <= j
}

/// What stands before and after the separator in a text that holds it
/// exactly once, counted as a split at each separator from the left counts
/// them: the text is split at its first separator, and no second one may
/// stand after that.
#[verifier::opaque]
pub open spec fn split_text(s: Seq<char>) -> Option<(Seq<char>, Seq<char>)> {
    if has_arrow(s) && !has_arrow(s.skip(first_arrow(s) + 4)) {
        Some((s.take(first_arrow(s)), s.skip(first_arrow(s) + 4)))
    } else {
        None
    }
}

/// The key that `s` is the text of, or why it is the text of none.
///
/// The text must split in a source and a destination. The source decides
/// the family: with a colon in it both parts must be texts of IPv6
/// addresses, without one both must be texts of IPv4 addresses.
#[verifier::opaque]
pub open spec fn parse_key(s: Seq<char>) -> Result<StatsKey, KeyError> {
    match split_text(s) {
        None => Err(KeyError::Format),
        Some((source, dest)) => if source.contains(':') {
            match (ipv6_from_text(source), ipv6_from_text(dest)) {
                (Some(a), Some(b)) => Ok(
                    StatsKey(AddressPair::V6(Ipv6StatsKey { source: a, dest: b })),
                ),
                _ => Err(KeyError::Ipv6Syntax),
            }
        } else {
            match (ipv4_from_text(source), ipv4_from_text(dest)) {
                (Some(a), Some(b)) => Ok(
                    StatsKey(AddressPair::V4(Ipv4StatsKey { source: a, dest: b })),
                ),
                _ => Err(KeyError::Ipv4Syntax),
            }
        },
    }
}

/// Whether the separator stands at `i`.
fn arrow_here(chars: &Vec<char>, i: usize) -> (b: bool)
    ensures
        b == arrow_at(chars@, i as int),
{
    chars.len() >= 4 && i <= chars.len() - 4 && chars[i] == ' ' && chars[i + 1] == '-' && chars[i
        + 2] == '>' && chars[i + 3] == ' '
}

/// The first place from `from` on at which the separator stands.
fn find_arrow(chars: &Vec<char>, from: usize) -> (r: Option<usize>)
    ensures
        match r {
            Some(i) => from <= i && arrow_at(chars@, i as int) && forall|j: int|
                from <= j < i ==> !arrow_at(chars@, j),
            None => forall|j: int| from <= j ==> !arrow_at(chars@, j),
        },
{
    let mut i: usize = from;
    while i < chars.len()
        invariant
            from <= i,
            forall|j: int| from <= j < i ==> !arrow_at(chars@, j),
        decreases chars@.len() - i,
    {
        if arrow_here(chars, i) {
            return Some(i);
        }
        i += 1;
    }
    None
}

/// The characters from `from` up to `to`.
fn copy_range(chars: &Vec<char>, from: usize, to: usize) -> (part: Vec<char>)
    requires
        from <= to <= chars@.len(),
    ensures
        part@ == chars@.subrange(from as int, to as int),
{
    let mut part: Vec<char> = Vec::new();
    let mut i: usize = from;
    while i < to
        invariant
            from <= i <= to <= chars@.len(),
            part@ == chars@.subrange(from as int, i as int),
        decreases to - i,
    {
        part.push(chars[i]);
        i += 1;
    }
    part
}

/// Whether a colon is among the characters.
fn holds_colon(chars: &Vec<char>) -> (b: bool)
    ensures
        b == chars@.contains(':'),
{
    let mut i: usize = 0;
    while i < chars.len()
        invariant
            i <= chars@.len(),
            forall|j: int| 0 <= j < i ==> chars@[j] != ':',
        decreases chars@.len() - i,
    {
        if chars[i] == ':' {
            return true;
        }
        i += 1;
    }
    false
}

impl StatsKey {
    /// The text of the key: source, ` -> `, destination.
    pub fn serialize(&self) -> (text: String)
        ensures
            text@ == key_text(*self),
    {
        let mut text = String::new();
        proof {
            reveal_strlit(" -> ");
        }
        match self.0 {
            AddressPair::V4(k) => {
                push_ipv4(&mut text, k.source);
                text.append(" -> ");
                push_ipv4(&mut text, k.dest);
            },
            AddressPair::V6(k) => {
                push_ipv6(&mut text, k.source);
                text.append(" -> ");
                push_ipv6(&mut text, k.dest);
            },
        }
        text
    }

    /// Reads a key from a text of it: the text that [`StatsKey::serialize`]
    /// writes, or one with its IPv6 addresses written another way.
    pub fn deserialize(s: &str) -> (r: Result<StatsKey, KeyError>)
        ensures
            r == parse_key(s@),
    {
        proof {
            reveal(parse_key);
        }
        let chars = to_chars(s);
        let (source, dest) = match split_key(&chars) {
            Some(parts) => parts,
            None => {
                return Err(KeyError::Format);
            },
        };
        if holds_colon(&source) {
            match (read_ipv6(&source), read_ipv6(&dest)) {
                (Some(a), Some(b)) => Ok(
                    StatsKey(AddressPair::V6(Ipv6StatsKey { source: a, dest: b })),
                ),
                _ => Err(KeyError::Ipv6Syntax),
            }
        } else {
            match (read_ipv4(&source), read_ipv4(&dest)) {
                (Some(a), Some(b)) => Ok(
                    StatsKey(AddressPair::V4(Ipv4StatsKey { source: a, dest: b })),
                ),
                _ => Err(KeyError::Ipv4Syntax),
            }
        }
    }
}

/// A separator with none before it is the first.
proof fn lemma_first_arrow(s: Seq<char>, at: int)
    requires
        arrow_at(s, at),
        forall|j: int| 0 <= j < at ==> !arrow_at(s, j),
    ensures
        has_arrow(s),
        first_arrow(s) == at,
{
}

/// A separator in what follows `k` is a separator in the whole text.
proof fn lemma_arrow_after(s: Seq<char>, k: int, j: int)
    requires
        0 <= k <= s.len(),
    ensures
        arrow_at(s.skip(k), j) <==> (0 <= j && arrow_at(s, j + k)),
{
}

/// What stands before and after the separator, where the text holds it
/// exactly once.
fn split_key(chars: &Vec<char>) -> (r: Option<(Vec<char>, Vec<char>)>)
    ensures
        match split_text(chars@) {
            Some((source, dest)) => r matches Some(parts) && parts.0@ == source && parts.1@
                == dest,
            None => r is None,
        },
{
    proof {
        reveal(split_text);
    }
    let n = chars.len();
    let at = match find_arrow(chars, 0) {
        Some(at) => at,
        None => {
            return None;
        },
    };
    proof {
        lemma_first_arrow(chars@, at as int);
    }
    let again = find_arrow(chars, at + 4);
    proof {
        let rest = chars@.skip(at + 4);
        match again {
            Some(next) => {
                lemma_arrow_after(chars@, at + 4, next - at - 4);
            },
            None => {
                if has_arrow(rest) {
                    let j = choose|j: int| arrow_at(rest, j);
                    lemma_arrow_after(chars@, at + 4, j);
                }
            },
        }
    }
    if again.is_some() {
        return None;
    }
    let source = copy_range(chars, 0, at);
    let dest = copy_range(chars, at + 4, n);
    Some((source, dest))
}

/// No blank stands in `s`.
spec fn blank_free(s: Seq<char>) -> bool {
    forall|i: int| 0 <= i < s.len() ==> s[i] != ' '
}

/// Two texts without a blank, joined by the separator, split at that
/// separator and nowhere else.
proof fn lemma_split_joined(source: Seq<char>, dest: Seq<char>)
    requires
        blank_free(source),
        blank_free(dest),
    ensures
        split_text(source + arrow() + dest) == Some((source, dest)),
{
    reveal(split_text);
    let s = source + arrow() + dest;
    let at = source.len() as int;
    assert(s[at] == arrow()[0] && s[at + 1] == arrow()[1] && s[at + 2] == arrow()[2] && s[at + 3]
        == arrow()[3]);
    assert forall|j: int| 0 <= j < at implies !arrow_at(s, j) by {
        assert(s[j] == source[j]);
    }
    lemma_first_arrow(s, at);
    assert(s.take(at) =~= source);
    assert(s.skip(at + 4) =~= dest);
    assert(!has_arrow(dest)) by {
        if has_arrow(dest) {
            let j = choose|j: int| arrow_at(dest, j);
            assert(dest[j] == ' ');
        }
    }
}

/// The text of an IPv4 address holds neither a blank nor a colon.
proof fn lemma_ipv4_text_plain(a: u32)
    ensures
        blank_free(ipv4_text(a)),
        !ipv4_text(a).contains(':'),
{
    assert forall|i: int| 0 <= i < ipv4_text(a).len() implies ipv4_text(a)[i] != ' '
        && ipv4_text(a)[i] != ':' by {
        lemma_ipv4_text_chars(a, i);
    }
}

/// The text of an IPv6 address holds no blank, and holds a colon.
proof fn lemma_ipv6_text_plain(a: u128)
    ensures
        blank_free(ipv6_text(a)),
        ipv6_text(a).contains(':'),
{
    lemma_ipv6_text_chars(a);
}

/// Two IPv4 texts joined by the separator are read as the key of the two
/// addresses.
proof fn lemma_parse_joined_v4(a: u32, b: u32)
    ensures
        parse_key(ipv4_text(a) + arrow() + ipv4_text(b)) == Ok::<StatsKey, KeyError>(
            StatsKey(AddressPair::V4(Ipv4StatsKey { source: a, dest: b })),
        ),
{
    reveal(parse_key);
    let source = ipv4_text(a);
    let dest = ipv4_text(b);
    lemma_ipv4_text_plain(a);
    lemma_ipv4_text_plain(b);
    lemma_split_joined(source, dest);
    lemma_ipv4_round_trip(a);
    lemma_ipv4_round_trip(b);
}

/// Two IPv6 texts joined by the separator are read as the key of the two
/// addresses.
proof fn lemma_parse_joined_v6(a: u128, b: u128)
    ensures
        parse_key(ipv6_text(a) + arrow() + ipv6_text(b)) == Ok::<StatsKey, KeyError>(
            StatsKey(AddressPair::V6(Ipv6StatsKey { source: a, dest: b })),
        ),
{
    reveal(parse_key);
    let source = ipv6_text(a);
    let dest = ipv6_text(b);
    lemma_ipv6_text_plain(a);
    lemma_ipv6_text_plain(b);
    lemma_split_joined(source, dest);
    lemma_ipv6_round_trip(a);
    lemma_ipv6_round_trip(b);
}

/// The text of a key is read back as the key.
pub proof fn lemma_key_round_trip(key: StatsKey)
    ensures
        parse_key(key_text(key)) == Ok::<StatsKey, KeyError>(key),
{
    match key.0 {
        AddressPair::V4(k) => lemma_parse_joined_v4(k.source, k.dest),
        AddressPair::V6(k) => lemma_parse_joined_v6(k.source, k.dest),
    }
}

/// Two keys with the same text are the same key.
pub proof fn lemma_key_text_injective(a: StatsKey, b: StatsKey)
    requires
        key_text(a) == key_text(b),
    ensures
        a == b,
{
    lemma_key_round_trip(a);
    lemma_key_round_trip(b);
}

} // verus!
