//! Checking the settings typed in for a run, before any work starts.

use vstd::prelude::*;
use crate::generator::MAX_PRIME_LIMIT;
use crate::verification::{parse_number, parse_u64, trim, trim_line};

verus! {

/// A setting that cannot start a run.
#[derive(Clone, Copy, Debug, PartialEq, Eq, Structural)]
pub enum SettingsError {
    /// The lower bound is no 64-bit decimal number.
    MinNotANumber,
    /// The upper bound is no 64-bit decimal number.
    MaxNotANumber,
    /// The split count is no 64-bit decimal number.
    SplitNotANumber,
    /// The upper bound exceeds [`MAX_PRIME_LIMIT`].
    MaxTooLarge,
    /// The lower bound exceeds the upper bound.
    MinAboveMax,
}

/// The bounds and split count that a run starts with.
#[derive(Clone, Copy, Debug, PartialEq, Eq, Structural)]
pub struct RunSettings {
    pub prime_min: u64,
    pub prime_max: u64,
    pub split_count: u64,
}

/// The upper bound assumed, for the later checks, when the one typed in is
/// no number.
pub const FALLBACK_MAX: u64 = 10_000_000_000;

/// The errors of a set of typed-in settings, in this order: each field that
/// is no number, then a too large upper bound, then a lower bound above the
/// upper one. A field that is no number counts as 1 (lower bound) or
/// [`FALLBACK_MAX`] (upper bound) for the last two checks.
pub open spec fn settings_errors(min: Seq<u8>, max: Seq<u8>, split: Seq<u8>) -> Seq<SettingsError> {
    let lo = match parse_u64(trim(min)) {
        Some(v) => v,
        None => 1u64,
    };
    let hi = match parse_u64(trim(max)) {
        Some(v) => v,
        None => FALLBACK_MAX,
    };
    (if parse_u64(trim(min)) is None {
        seq![SettingsError::MinNotANumber]
    } else {
        seq![]
    }) + (if parse_u64(trim(max)) is None {
        seq![SettingsError::MaxNotANumber]
    } else {
        seq![]
    }) + (if parse_u64(trim(split)) is None {
        seq![SettingsError::SplitNotANumber]
    } else {
        seq![]
    }) + (if hi > MAX_PRIME_LIMIT {
        seq![SettingsError::MaxTooLarge]
    } else {
        seq![]
    }) + (if lo > hi {
        seq![SettingsError::MinAboveMax]
    } else {
        seq![]
    })
}

/// Reads and checks the typed-in lower bound, upper bound and split count
/// (each trimmed first). On success the run covers `[prime_min, prime_max]`
/// with `prime_min <= prime_max <= MAX_PRIME_LIMIT`; otherwise every error
/// found is listed.
pub fn validate_settings(min_text: &[u8], max_text: &[u8], split_text: &[u8]) -> (r: Result<
    RunSettings,
    Vec<SettingsError>,
>)
    ensures
        match r {
            Ok(s) => {
                &&& settings_errors(min_text@, max_text@, split_text@).len() == 0
                &&& parse_u64(trim(min_text@)) == Some(s.prime_min)
                &&& parse_u64(trim(max_text@)) == Some(s.prime_max)
                &&& parse_u64(trim(split_text@)) == Some(s.split_count)
            },
            Err(e) => {
                &&& e@.len() > 0
                &&& e@ == settings_errors(min_text@, max_text@, split_text@)
            },
        },
{
    let mut errors: Vec<SettingsError> = Vec::new();
    let min = parse_number(trim_line(min_text));
    let max = parse_number(trim_line(max_text));
    let split = parse_number(trim_line(split_text));
    let lo: u64 = match min {
        Some(v) => v,
        None => {
            errors.push(SettingsError::MinNotANumber);
            1
        },
    };
    let hi: u64 = match max {
        Some(v) => v,
        None => {
            errors.push(SettingsError::MaxNotANumber);
            FALLBACK_MAX
        },
    };
    let sc: u64 = match split {
        Some(v) => v,
        None => {
            errors.push(SettingsError::SplitNotANumber);
            0
        },
    };
    if hi > MAX_PRIME_LIMIT {
        errors.push(SettingsError::MaxTooLarge);
    }
    if lo > hi {
        errors.push(SettingsError::MinAboveMax);
    }
    assert(errors@ =~= settings_errors(min_text@, max_text@, split_text@));
    if errors.len() == 0 {
        Ok(RunSettings { prime_min: lo, prime_max: hi, split_count: sc })
    } else {
        Err(errors)
    }
}

} // verus!
