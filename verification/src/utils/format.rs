//! Text for numbers, prices and instants.

use time::format_description::well_known::Rfc2822;
use time::OffsetDateTime;
use vstd::prelude::*;
use vstd::string::StringExecFns;

use crate::models::pricing::{decimal_product, decimal_text, strip_zeros, Price};


verus! {

/// The character of a decimal digit.
pub open spec fn digit_of(d: int) -> char {
    if d == 0 {
        '0'
    } else if d == 1 {
        '1'
    } else if d == 2 {
        '2'
    } else if d == 3 {
        '3'
    } else if d == 4 {
        '4'
    } else if d == 5 {
        '5'
    } else if d == 6 {
        '6'
    } else if d == 7 {
        '7'
    } else if d == 8 {
        '8'
    } else {
        '9'
    }
}

/// The decimal digits of a number, most significant first, without leading
/// zeros.
pub open spec fn decimal_digits(n: nat) -> Seq<char>
    decreases n,
{
    if n < 10 {
        seq![digit_of(n as int)]
    } else {
        decimal_digits(n / 10).push(digit_of((n % 10) as int))
    }
}

/// Digits in groups of three from the right, with a comma between groups.
pub open spec fn with_commas(digits: Seq<char>) -> Seq<char>
    decreases digits.len(),
{
    if digits.len() <= 3 {
        digits
    } else {
        let cut = digits.len() - 3;
        with_commas(digits.take(cut)) + seq![','] + digits.skip(cut)
    }
}

/// The text for the first `i` digits when the digits are written from the
/// left: a comma stands before every digit but the first whose distance to
/// the end is a multiple of three.
spec fn written(digits: Seq<char>, i: int) -> Seq<char>
    decreases i,
{
    if i <= 0 {
        Seq::empty()
    } else {
        let before = written(digits, i - 1);
        if i - 1 > 0 && (digits.len() - (i - 1)) % 3 == 0 {
            before.push(',').push(digits[i - 1])
        } else {
            before.push(digits[i - 1])
        }
    }
}

/// Writing the first digits of a number does not depend on its last three
/// digits.
proof fn lemma_written_ignores_last_group(digits: Seq<char>, i: int)
    requires
        digits.len() > 3,
        0 <= i <= digits.len() - 3,
    ensures
        written(digits, i) == written(digits.take(digits.len() - 3), i),
    decreases i,
{
    if i > 0 {
        lemma_written_ignores_last_group(digits, i - 1);
    }
}

/// Writing all digits from the left groups them in threes from the right.
proof fn lemma_written_is_grouped(digits: Seq<char>)
    ensures
        written(digits, digits.len() as int) == with_commas(digits),
    decreases digits.len(),
{
    let n = digits.len() as int;
    if n <= 3 {
        reveal_with_fuel(written, 4);
        assert(written(digits, n) =~= digits);
    } else {
        let cut = n - 3;
        let front = digits.take(cut);
        lemma_written_is_grouped(front);
        lemma_written_ignores_last_group(digits, cut);
        reveal_with_fuel(written, 4);
        assert(written(digits, n) =~= written(digits, cut) + seq![','] + digits.skip(cut));
    }
}

/// The character of a decimal digit.
fn digit_char(d: usize) -> (c: char)
    requires
        d < 10,
    ensures
        c == digit_of(d as int),
{
    if d == 0 {
        '0'
    } else if d == 1 {
        '1'
    } else if d == 2 {
        '2'
    } else if d == 3 {
        '3'
    } else if d == 4 {
        '4'
    } else if d == 5 {
        '5'
    } else if d == 6 {
        '6'
    } else if d == 7 {
        '7'
    } else if d == 8 {
        '8'
    } else {
        '9'
    }
}

/// The digits that stand before the last ones already taken off a number.
spec fn leading_digits(m: nat) -> Seq<char> {
    if m == 0 {
        Seq::empty()
    } else {
        decimal_digits(m)
    }
}

/// The decimal digits of `n`, most significant first.
fn digits_of(n: usize) -> (digits: Vec<char>)
    ensures
        digits@ == decimal_digits(n as nat),
{
    let mut reversed: Vec<char> = Vec::new();
    reversed.push(digit_char(n % 10));
    let mut m = n / 10;
    proof {
        assert(reversed@.reverse() =~= seq![digit_of((n % 10) as int)]);
        assert(decimal_digits(n as nat) =~= leading_digits(m as nat) + reversed@.reverse());
    }
    while m > 0
        invariant
            decimal_digits(n as nat) == leading_digits(m as nat) + reversed@.reverse(),
        decreases m,
    {
        let ghost before = reversed@;
        let d = digit_char(m % 10);
        reversed.push(d);
        proof {
            assert(leading_digits(m as nat) =~= leading_digits((m / 10) as nat).push(d));
            assert(reversed@.reverse() =~= seq![d] + before.reverse());
            assert(leading_digits((m / 10) as nat).push(d) + before.reverse() =~= leading_digits(
                (m / 10) as nat,
            ) + (seq![d] + before.reverse()));
        }
        m = m / 10;
    }
    let mut digits: Vec<char> = Vec::new();
    let len = reversed.len();
    let mut i: usize = 0;
    while i < len
        invariant
            len == reversed@.len(),
            i <= len,
            digits@ == reversed@.reverse().take(i as int),
        decreases len - i,
    {
        digits.push(reversed[len - 1 - i]);
        proof {
            assert(digits@ =~= reversed@.reverse().take(i + 1));
        }
        i += 1;
    }
    proof {
        assert(reversed@.reverse().take(len as int) =~= reversed@.reverse());
        assert(leading_digits(0) + reversed@.reverse() =~= reversed@.reverse());
    }
    digits
}

/// Formats a number with a comma between each group of three digits.
pub fn format_with_commas(n: usize) -> (text: String)
    ensures
        text@ == with_commas(decimal_digits(n as nat)),
{
    let chars = digits_of(n);
    let len = chars.len();
    let mut result = String::new();
    let mut i: usize = 0;
    while i < len
        invariant
            len == chars@.len(),
            i <= len,
            result@ == written(chars@, i as int),
        decreases len - i,
    {
        if i > 0 && (len - i) % 3 == 0 {
            result.push(',');
        }
        result.push(chars[i]);
        i += 1;
    }
    proof {
        lemma_written_is_grouped(chars@);
    }
    result
}

/// The sign of the currency in which prices are shown.
pub const CURRENCY_SIGN: char = '\u{20bd}';

/// The text of a price given by mantissa and scale: the currency sign and
/// the number without trailing zeros behind the decimal point.
pub open spec fn price_text(parts: (int, nat)) -> Seq<char> {
    let normal = strip_zeros(parts.0, parts.1);
    seq![CURRENCY_SIGN] + decimal_text(normal.0, normal.1)
}

/// A price per token as a price per million tokens, as mantissa and scale,
/// or nothing where that overflows.
pub open spec fn per_million(price: Price) -> Option<(int, nat)> {
    decimal_product(price.mantissa() as int, price.scale() as nat, 1_000_000, 0)
}

/// Puts the currency sign in front of the text of a number.
pub fn with_currency_sign(number: &str) -> (text: String)
    ensures
        text@ == seq![CURRENCY_SIGN] + number@,
{
    let mut text = String::new();
    text.push(CURRENCY_SIGN);
    text.append(number);
    proof {
        assert(text@ =~= seq![CURRENCY_SIGN] + number@);
    }
    text
}

/// The text of a price: the currency sign and the number with as many
/// decimal places as it needs.
fn price_to_text(price: Price) -> (text: String)
    ensures
        text@ == price_text(price.parts()),
{
    let number = price.normalize().to_text();
    with_currency_sign(number.as_str())
}

/// Formats a price per invocation with as many decimal places as it needs.
pub fn format_price_per_invocation(price: Price) -> (text: String)
    ensures
        text@ == price_text(price.parts()),
{
    price_to_text(price)
}

/// Formats a price per token as a price per million tokens, with as many
/// decimal places as it needs. The price per million must not overflow.
pub fn format_price_per_million(price: Price) -> (text: String)
    requires
        per_million(price) is Some,
    ensures
        text@ == price_text(per_million(price)->0),
{
    let million = Price::new(1_000_000, 0).unwrap();
    let product = price.checked_mul(&million).unwrap();
    price_to_text(product)
}

/// Formats a price per token as a price per million tokens, or gives nothing
/// where the price per million overflows.
pub fn try_format_price_per_million(price: Price) -> (text: Option<String>)
    ensures
        text is Some <==> per_million(price) is Some,
        text matches Some(t) ==> t@ == price_text(per_million(price)->0),
{
    let million = Price::new(1_000_000, 0).unwrap();
    match price.checked_mul(&million) {
        Some(_) => Some(format_price_per_million(price)),
        None => None,
    }
}

/// The RFC 2822 text of an instant given in seconds since the Unix epoch, in
/// UTC, or nothing where the instant has no such text.
pub uninterp spec fn rfc2822_text(seconds: int) -> Option<Seq<char>>;

/// `OffsetDateTime::format` with the `Rfc2822` description, on the UTC
/// instant that `OffsetDateTime::from_unix_timestamp` makes of the seconds.
/// Nothing comes back where either of the two refuses.
#[verifier::external_body]
fn rfc2822(seconds: i64) -> (text: Option<String>)
    ensures
        text.deep_view() == rfc2822_text(seconds as int),
{
    match OffsetDateTime::from_unix_timestamp(seconds) {
        Ok(instant) => instant.format(&Rfc2822).ok(),
        Err(_) => None,
    }
}

/// The text shown for an instant: its RFC 2822 form, or `Unknown date`.
pub open spec fn timestamp_text(date: Option<Seq<char>>) -> Seq<char> {
    match date {
        Some(text) => text,
        None => "Unknown date"@,
    }
}

/// The text shown for an instant, given what the formatter made of it.
pub fn timestamp_or_unknown(date: Option<String>) -> (text: String)
    ensures
        text@ == timestamp_text(date.deep_view()),
{
    match date {
        Some(text) => text,
        None => String::from_str("Unknown date"),
    }
}

/// Formats an instant, given in seconds since the Unix epoch, in the RFC 2822
/// format.
pub fn format_timestamp(seconds: i64) -> (text: String)
    ensures
        text@ == timestamp_text(rfc2822_text(seconds as int)),
{
    timestamp_or_unknown(rfc2822(seconds))
}

} // verus!
