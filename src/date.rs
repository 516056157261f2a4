//! Due dates: reading a `DD-MM-YYYY` text with chrono, and writing a date back
//! in that pattern.
use chrono::Datelike;
use vstd::prelude::*;

verus! {

/// The day, month and year that chrono reads from a text under the pattern
/// `%d-%m-%Y`, or nothing when the text names no date that way.
pub uninterp spec fn dmy_parse(s: Seq<char>) -> Option<(u32, u32, i32)>;

/// Relies on chrono's `NaiveDate::parse_from_str` with the pattern `%d-%m-%Y`,
/// and on `Datelike::day`, `Datelike::month` and `Datelike::year` of the date it
/// returns: a day from 1 to 31 and a month from 1 to 12.
#[verifier::external_body]
pub(crate) fn parse_day_month_year(s: &str) -> (r: Option<(u32, u32, i32)>)
    ensures
        r == dmy_parse(s@),
        r matches Some((d, m, y)) ==> 1 <= d <= 31 && 1 <= m <= 12,
{
    match chrono::NaiveDate::parse_from_str(s, "%d-%m-%Y") {
        Ok(date) => Some((date.day(), date.month(), date.year())),
        Err(_) => None,
    }
}

/// The decimal digit of a value below ten.
pub open spec fn digit_char(n: int) -> char {
    if n == 0 {
        '0'
    } else if n == 1 {
        '1'
    } else if n == 2 {
        '2'
    } else if n == 3 {
        '3'
    } else if n == 4 {
        '4'
    } else if n == 5 {
        '5'
    } else if n == 6 {
        '6'
    } else if n == 7 {
        '7'
    } else if n == 8 {
        '8'
    } else {
        '9'
    }
}

/// The decimal form of a natural number, without leading zeros.
pub open spec fn decimal(n: nat) -> Seq<char>
    decreases n,
{
    if n < 10 {
        seq![digit_char(n as int)]
    } else {
        decimal(n / 10).push(digit_char((n % 10) as int))
    }
}

/// The decimal form, zero-padded to two digits.
pub open spec fn pad2(n: nat) -> Seq<char> {
    if n < 10 {
        seq!['0'] + decimal(n)
    } else {
        decimal(n)
    }
}

/// The decimal form, zero-padded to four digits.
pub open spec fn pad4(n: nat) -> Seq<char> {
    if n < 10 {
        seq!['0', '0', '0'] + decimal(n)
    } else if n < 100 {
        seq!['0', '0'] + decimal(n)
    } else if n < 1000 {
        seq!['0'] + decimal(n)
    } else {
        decimal(n)
    }
}

/// A year as `%Y` writes it: four digits from 0 to 9999, otherwise with its
/// sign, zero-padded to four digits after the sign.
pub open spec fn year_text(y: int) -> Seq<char> {
    if 0 <= y <= 9999 {
        pad4(y as nat)
    } else if y > 9999 {
        seq!['+'] + decimal(y as nat)
    } else {
        seq!['-'] + pad4((-y) as nat)
    }
}

/// A date written as `DD-MM-YYYY`.
pub open spec fn dmy_text(day: int, month: int, year: int) -> Seq<char> {
    pad2(day as nat) + seq!['-'] + pad2(month as nat) + seq!['-'] + year_text(year)
}

/// The canonical text of the date that `text` names, if it names one.
pub open spec fn due_date_of(text: Seq<char>) -> Option<Seq<char>> {
    match dmy_parse(text) {
        Some((d, m, y)) => Some(dmy_text(d as int, m as int, y as int)),
        None => None,
    }
}

/// The decimal digit of a value below ten.
fn digit(n: u64) -> (c: char)
    requires
        n < 10,
    ensures
        c == digit_char(n as int),
{
    if n == 0 {
        '0'
    } else if n == 1 {
        '1'
    } else if n == 2 {
        '2'
    } else if n == 3 {
        '3'
    } else if n == 4 {
        '4'
    } else if n == 5 {
        '5'
    } else if n == 6 {
        '6'
    } else if n == 7 {
        '7'
    } else if n == 8 {
        '8'
    } else {
        '9'
    }
}

/// Appends the decimal form of `n`.
fn push_decimal(s: &mut String, n: u64)
    ensures
        final(s)@ == old(s)@ + decimal(n as nat),
    decreases n,
{
    if n >= 10 {
        push_decimal(s, n / 10);
    }
    s.push(digit(n % 10));
    proof {
        if n < 10 {
            assert(final(s)@ =~= old(s)@ + decimal(n as nat));
        } else {
            assert(final(s)@ =~= old(s)@ + decimal(n as nat));
        }
    }
}

/// Appends `n` zero-padded to two digits.
fn push_pad2(s: &mut String, n: u64)
    ensures
        final(s)@ == old(s)@ + pad2(n as nat),
{
    let ghost start = s@;
    if n < 10 {
        s.push('0');
    }
    push_decimal(s, n);
    assert(s@ =~= start + pad2(n as nat));
}

/// Appends `n` zero-padded to four digits.
fn push_pad4(s: &mut String, n: u64)
    ensures
        final(s)@ == old(s)@ + pad4(n as nat),
{
    let ghost start = s@;
    if n < 10 {
        s.push('0');
        s.push('0');
        s.push('0');
    } else if n < 100 {
        s.push('0');
        s.push('0');
    } else if n < 1000 {
        s.push('0');
    }
    push_decimal(s, n);
    assert(s@ =~= start + pad4(n as nat));
}

/// Writes a date as `DD-MM-YYYY`, the way chrono's `%d-%m-%Y` does.
pub fn format_due_date(day: u32, month: u32, year: i32) -> (r: String)
    ensures
        r@ == dmy_text(day as int, month as int, year as int),
{
    let mut s = String::new();
    push_pad2(&mut s, day as u64);
    s.push('-');
    push_pad2(&mut s, month as u64);
    s.push('-');
    let ghost head = s@;
    if 0 <= year && year <= 9999 {
        push_pad4(&mut s, year as u64);
    } else if year > 9999 {
        s.push('+');
        push_decimal(&mut s, year as u64);
    } else {
        s.push('-');
        let magnitude: i64 = -(year as i64);
        push_pad4(&mut s, magnitude as u64);
    }
    assert(s@ =~= head + year_text(year as int));
    s
}

/// The canonical `DD-MM-YYYY` text of the date that `text` names, or nothing
/// when chrono reads no date from it under that pattern.
pub fn canonical_due_date(text: &str) -> (r: Option<String>)
    ensures
        match r {
            Some(s) => due_date_of(text@) == Some(s@),
            None => due_date_of(text@) is None,
        },
{
    match parse_day_month_year(text) {
        Some((d, m, y)) => Some(format_due_date(d, m, y)),
        None => None,
    }
}

} // verus!
