//! How a reported outcome is presented.
use vstd::prelude::*;

verus! {

/// The class of a status code, by its hundreds digit.
#[derive(Debug, Clone, Copy, PartialEq, Eq, Structural)]
pub enum StatusBand {
    Informational,
    Success,
    Redirection,
    ClientError,
    ServerError,
    /// Outside 100..=599.
    Unexpected,
}

/// The class of `code`.
pub open spec fn band_of(code: u16) -> StatusBand {
    if 100 <= code <= 199 {
        StatusBand::Informational
    } else if 200 <= code <= 299 {
        StatusBand::Success
    } else if 300 <= code <= 399 {
        StatusBand::Redirection
    } else if 400 <= code <= 499 {
        StatusBand::ClientError
    } else if 500 <= code <= 599 {
        StatusBand::ServerError
    } else {
        StatusBand::Unexpected
    }
}

/// The class that decides how a status code is shown.
pub fn status_band(code: u16) -> (r: StatusBand)
    ensures
        r == band_of(code),
{
    match code {
        100..=199 => StatusBand::Informational,
        200..=299 => StatusBand::Success,
        300..=399 => StatusBand::Redirection,
        400..=499 => StatusBand::ClientError,
        500..=599 => StatusBand::ServerError,
        _ => StatusBand::Unexpected,
    }
}

} // verus!
