//! Media feeds: how many recent items a board asks for, how many are
//! fetched to fill that after roll-up, and the key of the response cache.
use vstd::prelude::*;
use crate::kiosks::{dec_digits, push_decimal};
use crate::text::{concat, push_str};

verus! {

/// The most items a feed tile may ask for.
pub const MAX_LIMIT: usize = 30;

/// How many raw items are fetched per wanted tile (episodes roll up).
pub const OVERFETCH_FACTOR: usize = 5;

/// The number of items a feed request gets: 6 by default, clamped to
/// 1..=30.
pub fn recent_limit(limit: Option<usize>) -> (r: usize)
    ensures
        r == (match limit {
            None => 6,
            Some(l) => if l < 1 { 1 } else if l > MAX_LIMIT { MAX_LIMIT } else { l },
        }),
        1 <= r <= MAX_LIMIT,
{
    match limit {
        None => 6,
        Some(l) => {
            if l < 1 {
                1
            } else if l > MAX_LIMIT {
                MAX_LIMIT
            } else {
                l
            }
        },
    }
}

/// How many raw items to fetch for `limit` tiles.
pub fn overfetch(limit: usize) -> (r: usize)
    requires
        limit <= MAX_LIMIT,
    ensures
        r == limit * OVERFETCH_FACTOR,
{
    limit * OVERFETCH_FACTOR
}

/// The response cache key of a feed read: "provider:library:limit".
pub fn recent_cache_key(provider_id: &str, library: &str, limit: usize) -> (k: String)
    ensures
        k@ == provider_id@ + ":"@ + library@ + ":"@ + dec_digits(limit as nat),
{
    let mut k = concat(provider_id, ":");
    push_str(&mut k, library);
    push_str(&mut k, ":");
    push_decimal(&mut k, limit as u64);
    k
}

} // verus!
