//! Gates and limits of the diagnostic routes.
//! A device's raw state is read from its upstream source.
use vstd::prelude::*;
use crate::text::{chars_of, find_char, find_from, lemma_find_from_bounds, string_of_range, str_eq};

verus! {

/// The refusal of a diagnostic route: invisible (404) unless diagnostics
/// mode is on, then 401 unless the caller is authenticated.
pub fn dev_guard(dev_mode: bool, authed: bool) -> (r: Option<u16>)
    ensures
        r == (if !dev_mode {
            Some(404u16)
        } else if !authed {
            Some(401u16)
        } else {
            None
        }),
{
    if !dev_mode {
        Some(404)
    } else if !authed {
        Some(401)
    } else {
        None
    }
}

/// How many journal entries one poll returns: 200 by default, at most 500.
pub fn journal_limit(limit: Option<usize>) -> (r: usize)
    ensures
        r == (match limit {
            None => 200,
            Some(l) => if l < 500 { l } else { 500 },
        }),
{
    match limit {
        None => 200,
        Some(l) => if l < 500 {
            l
        } else {
            500
        },
    }
}

/// How a device's raw upstream state is fetched, by provider type.
#[derive(Clone, Copy, Debug, PartialEq, Eq, Structural)]
pub enum RawSource {
    /// The bridge's own resource.
    HueResource,
    /// The integration's entity state.
    HaEntity,
    /// Not implemented for this provider type.
    Unsupported,
}

pub fn raw_source(provider_type: &str) -> (r: RawSource)
    ensures
        r == (if provider_type@ == "hue"@ {
            RawSource::HueResource
        } else if provider_type@ == "ha"@ {
            RawSource::HaEntity
        } else {
            RawSource::Unsupported
        }),
{
    if str_eq(provider_type, "hue") {
        RawSource::HueResource
    } else if str_eq(provider_type, "ha") {
        RawSource::HaEntity
    } else {
        RawSource::Unsupported
    }
}

/// The domain of an entity id: the part before its first '.'.
pub fn entity_domain(entity_id: &str) -> (r: String)
    ensures
        r@ == entity_id@.subrange(0, find_from(entity_id@, '.', 0)),
{
    let v = chars_of(entity_id);
    let end = find_char(&v, '.', 0);
    proof {
        lemma_find_from_bounds(v@, '.', 0);
    }
    string_of_range(&v, 0, end)
}

} // verus!
