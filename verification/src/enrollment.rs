//! Device enrollment: the one-time pairing token and the name a redeemed
//! device's key gets.
use vstd::prelude::*;
use crate::apikeys::{hex_encode, hex_lower, lemma_hex_lower_len, random_bytes};
use crate::text::{trim, trimmed};

verus! {

/// How long a pairing token stays redeemable, in seconds.
pub const TOKEN_TTL_SECS: i64 = 300;

/// The token made of `bytes`: the bytes in lower-case hex.
pub fn token_from_bytes(bytes: &[u8]) -> (t: String)
    ensures
        t@ == hex_lower(bytes@),
        t@.len() == 2 * bytes@.len(),
{
    proof {
        lemma_hex_lower_len(bytes@);
    }
    hex_encode(bytes)
}

/// A fresh pairing token: 24 random bytes in hex (48 characters).
pub fn generate_token() -> (t: String)
    ensures
        exists|b: Seq<u8>| b.len() == 24 && t@ == hex_lower(b),
        t@.len() == 48,
{
    let bytes = random_bytes(24);
    token_from_bytes(bytes.as_slice())
}

/// The name a redeemed device's key is given: the trimmed requested name,
/// or "Paired device" when none (or a blank one) was given.
pub fn enrolled_device_name(requested: Option<&str>) -> (r: String)
    ensures
        r@ == match requested {
            Some(n) => if trim(n@).len() > 0 { trim(n@) } else { "Paired device"@ },
            None => "Paired device"@,
        },
{
    match requested {
        Some(n) => {
            let t = trimmed(n);
            if t.as_str().is_empty() {
                "Paired device".to_owned()
            } else {
                t
            }
        },
        None => "Paired device".to_owned(),
    }
}

} // verus!
