//! Generic (integration) devices: the outcome of a control write.
use vstd::prelude::*;
use crate::text::{contains_sub, str_contains};

verus! {

/// Outcome of a control write to a generic device.
#[derive(Debug, PartialEq, Eq)]
pub enum SetControlOutcome {
    Done,
    NotFound,
    BadCommand(String),
    ProviderError,
    Db,
}

/// Classify a provider's refusal of a control write: an unmapped control is
/// the caller's mistake, anything else the gateway's.
pub fn classify_control_error(e: String) -> (r: SetControlOutcome)
    ensures
        if contains_sub(e@, "no service mapping"@) {
            r == SetControlOutcome::BadCommand(e)
        } else {
            r == SetControlOutcome::ProviderError
        },
{
    if str_contains(e.as_str(), "no service mapping") {
        SetControlOutcome::BadCommand(e)
    } else {
        SetControlOutcome::ProviderError
    }
}

/// The HTTP status of a control write.
pub fn set_control_status(o: &SetControlOutcome) -> (code: u16)
    ensures
        code == match *o {
            SetControlOutcome::Done => 204u16,
            SetControlOutcome::NotFound => 404u16,
            SetControlOutcome::BadCommand(_) => 422u16,
            SetControlOutcome::ProviderError => 502u16,
            SetControlOutcome::Db => 500u16,
        },
{
    match o {
        SetControlOutcome::Done => 204,
        SetControlOutcome::NotFound => 404,
        SetControlOutcome::BadCommand(_) => 422,
        SetControlOutcome::ProviderError => 502,
        SetControlOutcome::Db => 500,
    }
}

} // verus!
