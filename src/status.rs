//! Reason phrases of HTTP status codes, from reqwest's `StatusCode`.
use vstd::prelude::*;

verus! {

/// The canonical reason phrase registered for a status code, if any.
pub uninterp spec fn canonical_reason_of(code: u16) -> Option<Seq<char>>;

/// The character of a decimal digit.
pub open spec fn digit_char(d: nat) -> char {
    (48 + d) as char
}

/// `n` written in decimal, without leading zeros.
pub open spec fn decimal_digits(n: nat) -> Seq<char>
    decreases n,
{
    if n < 10 {
        seq![digit_char(n)]
    } else {
        decimal_digits(n / 10).push(digit_char(n % 10))
    }
}

/// What a `StatusCode` displays as: the code, a space, and its reason
/// phrase or a marker for an unknown code.
pub open spec fn status_display_of(code: u16) -> Seq<char> {
    decimal_digits(code as nat) + seq![' '] + match canonical_reason_of(code) {
        Some(p) => p,
        None => "<unknown status code>"@,
    }
}

/// The reason phrase reported for a status code: the canonical phrase, or
/// the displayed code where none is registered.
pub open spec fn reason_phrase_of(code: u16) -> Seq<char> {
    match canonical_reason_of(code) {
        Some(p) => p,
        None => status_display_of(code),
    }
}

/// Relies on `reqwest::StatusCode::from_u16`, which accepts 100..=999, and
/// `StatusCode::canonical_reason`: the phrase registered for the code.
#[verifier::external_body]
fn canonical_reason(code: u16) -> (r: Option<String>)
    requires
        100 <= code <= 999,
    ensures
        match r {
            Some(p) => canonical_reason_of(code) == Some(p@),
            None => canonical_reason_of(code) is None,
        },
{
    match reqwest::StatusCode::from_u16(code) {
        Ok(s) => s.canonical_reason().map(|p| p.to_string()),
        Err(_) => None,
    }
}

/// Relies on the `Display` impl of `reqwest::StatusCode` (http's
/// `StatusCode`): `"{code} {reason}"`, with `<unknown status code>` for a
/// code that has no canonical reason.
#[verifier::external_body]
fn status_display(code: u16) -> (r: String)
    requires
        100 <= code <= 999,
    ensures
        r@ == status_display_of(code),
{
    match reqwest::StatusCode::from_u16(code) {
        Ok(s) => s.to_string(),
        Err(_) => String::new(),
    }
}

/// The reason phrase of a response with status `code`.
pub fn reason_phrase(code: u16) -> (r: String)
    requires
        100 <= code <= 999,
    ensures
        r@ == reason_phrase_of(code),
{
    match canonical_reason(code) {
        Some(p) => p,
        None => status_display(code),
    }
}

} // verus!
