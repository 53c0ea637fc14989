//! The modification time of an archive entry and its rendering as
//! `YYYY-MM-DD hh:mm:ss`.
use vstd::prelude::*;

use crate::text::{decimal, decimal_string, digit_char, push_char, push_chars, push_decimal, chars_of};

verus! {

/// The date and time fields of a zip entry's timestamp, as the archive
/// stores them.
#[derive(Clone, Copy, Debug, PartialEq, Eq)]
pub struct DateParts {
    pub year: u16,
    pub month: u8,
    pub day: u8,
    pub hour: u8,
    pub minute: u8,
    pub second: u8,
}

/// A number rendered with at least two digits: a leading `0` is added
/// below ten.
pub open spec fn two_digits(n: nat) -> Seq<char> {
    if n < 10 {
        seq!['0', digit_char(n)]
    } else {
        decimal(n)
    }
}

proof fn lemma_decimal_small(n: nat)
    requires
        n < 10,
    ensures
        decimal(100 + n) == seq!['1', '0', digit_char(n)],
{
    reveal_with_fuel(decimal, 3);
    assert((100 + n) / 10 == 10 + n / 10);
    assert(decimal(1) == seq!['1']);
    assert(decimal(10) == seq!['1', '0']);
    assert(decimal(100 + n) == decimal(10).push(digit_char(n)));
}

/// `value` with a leading zero when it is below ten.
pub fn pad_leading_zero(value: u8) -> (s: String)
    ensures
        s@ == two_digits(value as nat),
{
    if value < 10 {
        let full = decimal_string((100 + value) as u128);
        proof {
            lemma_decimal_small(value as nat);
        }
        let cs = chars_of(full.as_str());
        let mut s = String::new();
        push_chars(&mut s, cs.as_slice().split_at(1).1);
        assert(cs@.skip(1) =~= seq!['0', digit_char(value as nat)]);
        s
    } else {
        decimal_string(value as u128)
    }
}

/// The text of a timestamp: `YYYY-MM-DD hh:mm:ss`.
pub open spec fn date_text(d: DateParts) -> Seq<char> {
    decimal(d.year as nat) + seq!['-'] + two_digits(d.month as nat) + seq!['-'] + two_digits(
        d.day as nat,
    ) + seq![' '] + two_digits(d.hour as nat) + seq![':'] + two_digits(d.minute as nat) + seq![
        ':',
    ] + two_digits(d.second as nat)
}

/// The text of an optional timestamp.
pub open spec fn date_text_opt(d: Option<DateParts>) -> Option<Seq<char>> {
    match d {
        Some(d) => Some(date_text(d)),
        None => None,
    }
}

fn push_padded(s: &mut String, value: u8)
    ensures
        final(s)@ == old(s)@ + two_digits(value as nat),
{
    let p = pad_leading_zero(value);
    let cs = chars_of(p.as_str());
    push_chars(s, cs.as_slice());
}

/// Renders a timestamp as `YYYY-MM-DD hh:mm:ss`; no timestamp gives none.
pub fn format_date_time(dt: Option<DateParts>) -> (r: Option<String>)
    ensures
        match r {
            Some(s) => date_text_opt(dt) == Some(s@),
            None => dt is None,
        },
{
    let dt = match dt {
        Some(dt) => dt,
        None => {
            return None;
        },
    };
    let mut s = String::new();
    push_decimal(&mut s, dt.year as u128);
    push_char(&mut s, '-');
    push_padded(&mut s, dt.month);
    push_char(&mut s, '-');
    push_padded(&mut s, dt.day);
    push_char(&mut s, ' ');
    push_padded(&mut s, dt.hour);
    push_char(&mut s, ':');
    push_padded(&mut s, dt.minute);
    push_char(&mut s, ':');
    push_padded(&mut s, dt.second);
    assert(s@ =~= date_text(dt));
    Some(s)
}

} // verus!
