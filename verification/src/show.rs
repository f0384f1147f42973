//! The table and its totals in a form for people to read.

use vstd::prelude::*;
use vstd::string::StringExecFns;
use crate::data::{Stats, StatsKey, StatsValue};
use crate::key::key_text;
use crate::text::{digit_char, digit_str};

verus! {

/// A number in decimal, without leading zeros.
pub open spec fn decimal_text(n: nat) -> Seq<char>
    decreases n,
{
    if n < 10 {
        seq![digit_char(n)]
    } else {
        decimal_text(n / 10).push(digit_char(n % 10))
    }
}

/// The text of totals: `count : <count> size : <length>`.
pub open spec fn value_text(value: StatsValue) -> Seq<char> {
    seq!['c', 'o', 'u', 'n', 't', ' ', ':', ' '] + decimal_text(value.total_count as nat) + seq![
        ' ',
        's',
        'i',
        'z',
        'e',
        ' ',
        ':',
        ' ',
    ] + decimal_text(value.total_length as nat)
}

/// The text of one record: `<key> --- <totals>` and a line feed.
pub open spec fn record_text(record: (StatsKey, StatsValue)) -> Seq<char> {
    key_text(record.0) + seq![' ', '-', '-', '-', ' '] + value_text(record.1) + seq!['\n']
}

/// The text of a list of records: one line for each, in their order.
pub open spec fn records_text(entries: Seq<(StatsKey, StatsValue)>) -> Seq<char>
    decreases entries.len(),
{
    if entries.len() == 0 {
        Seq::empty()
    } else {
        records_text(entries.drop_last()) + record_text(entries.last())
    }
}

/// The digits of `rest`, where any are left to write.
spec fn leading(rest: nat) -> Seq<char> {
    if rest == 0 {
        Seq::empty()
    } else {
        decimal_text(rest)
    }
}

/// The characters of digits that stand least significant first.
spec fn reversed_digits(digits: Seq<u8>) -> Seq<char> {
    Seq::new(digits.len(), |i: int| digit_char(digits[digits.len() - 1 - i] as nat))
}

/// Appends a number in decimal.
fn push_decimal(out: &mut String, n: u128)
    ensures
        final(out)@ == old(out)@ + decimal_text(n as nat),
{
    let mut digits: Vec<u8> = Vec::new();
    digits.push((n % 10) as u8);
    let mut rest: u128 = n / 10;
    assert(reversed_digits(digits@) =~= seq![digit_char((n % 10) as nat)]);
    while rest > 0
        invariant
            digits@.len() > 0,
            forall|i: int| 0 <= i < digits@.len() ==> digits@[i] < 10,
            decimal_text(n as nat) == leading(rest as nat) + reversed_digits(digits@),
        decreases rest,
    {
        let ghost before = digits@;
        digits.push((rest % 10) as u8);
        assert(reversed_digits(digits@) =~= seq![digit_char((rest % 10) as nat)] + reversed_digits(
            before,
        ));
        assert(decimal_text(rest as nat) =~= leading((rest / 10) as nat) + seq![
            digit_char((rest % 10) as nat),
        ]);
        rest = rest / 10;
    }
    let mut left: usize = digits.len();
    while left > 0
        invariant
            left <= digits@.len(),
            forall|i: int| 0 <= i < digits@.len() ==> digits@[i] < 10,
            out@ == old(out)@ + reversed_digits(digits@).take(digits@.len() - left),
        decreases left,
    {
        left -= 1;
        out.append(digit_str(digits[left]));
        assert(reversed_digits(digits@).take(digits@.len() - left) =~= reversed_digits(
            digits@,
        ).take(digits@.len() - left - 1) + seq![digit_char(digits@[left as int] as nat)]);
    }
    assert(reversed_digits(digits@).take(digits@.len() as int) =~= reversed_digits(digits@));
}

impl StatsValue {
    /// The totals as text: `count : <count> size : <length>`.
    pub fn to_text(&self) -> (text: String)
        ensures
            text@ == value_text(*self),
    {
        proof {
            reveal_strlit("count : ");
            reveal_strlit(" size : ");
        }
        let mut text = String::new();
        text.append("count : ");
        push_decimal(&mut text, self.total_count);
        text.append(" size : ");
        push_decimal(&mut text, self.total_length);
        assert(text@ =~= value_text(*self));
        text
    }
}

impl Stats {
    /// The table as text: one line `<key> --- <totals>` for each record, in
    /// the order of the records.
    pub fn to_text(&self) -> (text: String)
        ensures
            text@ == records_text(self.entries()),
    {
        let mut text = String::new();
        let n = self.len();
        let mut i: usize = 0;
        while i < n
            invariant
                n == self.entries().len(),
                i <= n,
                text@ == records_text(self.entries().take(i as int)),
            decreases n - i,
        {
            match self.entry(i) {
                Some((key, value)) => {
                    let ghost before = text@;
                    let key_string = key.serialize();
                    let value_string = value.to_text();
                    text.append(key_string.as_str());
                    text.append(" --- ");
                    text.append(value_string.as_str());
                    text.append("\n");
                    proof {
                        reveal_strlit(" --- ");
                        reveal_strlit("\n");
                        let shown = self.entries().take(i + 1);
                        assert(shown.drop_last() == self.entries().take(i as int));
                        assert(shown.last() == (key, value));
                        assert(text@ =~= before + record_text((key, value)));
                    }
                },
                None => {},
            }
            i += 1;
        }
        assert(self.entries().take(n as int) == self.entries());
        text
    }
}

} // verus!
