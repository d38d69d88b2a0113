//! API keys: minting a key (a fixed prefix and 32 random bytes in hex),
//! storing only its SHA-256 hash, the prefix shown to users, and reading a
//! bearer token off an Authorization header.
use vstd::prelude::*;
use vstd::string::*;
use rand::RngCore;
use sha2::Digest;
use crate::ids::{is_uuid_text, new_uuid};
use crate::palette_scenes::hex_char;
use vstd::utf8::encode_utf8;
use crate::text::{concat, has_prefix, string_of_range, chars_of, trim, trimmed};

verus! {

/// Every key starts with this prefix.
pub const KEY_PREFIX: &'static str = "bfr_";

/// How many leading characters of a key are kept for display.
pub const DISPLAY_PREFIX_LEN: usize = 12;

/// Lower-case hexadecimal of a byte string: two digits per byte, high
/// nibble first.
pub open spec fn hex_lower(b: Seq<u8>) -> Seq<char>
    decreases b.len(),
{
    if b.len() == 0 {
        Seq::empty()
    } else {
        hex_lower(b.drop_last()) + seq![hex_char(b.last() as int / 16), hex_char(b.last() as int % 16)]
    }
}

/// Hex text is two characters per byte.
pub proof fn lemma_hex_lower_len(b: Seq<u8>)
    ensures
        hex_lower(b).len() == 2 * b.len(),
    decreases b.len(),
{
    if b.len() > 0 {
        lemma_hex_lower_len(b.drop_last());
    }
}

/// `hex::encode`: each byte as two lower-case hexadecimal digits, high
/// nibble first (the crate's `HEX_CHARS_LOWER` table).
#[verifier::external_body]
pub(crate) fn hex_encode(data: &[u8]) -> (r: String)
    ensures
        r@ == hex_lower(data@),
{
    hex::encode(data)
}

/// `n` bytes from `rand::thread_rng().fill_bytes`: nothing is promised of
/// their values.
#[verifier::external_body]
pub(crate) fn random_bytes(n: usize) -> (r: Vec<u8>)
    ensures
        r@.len() == n,
{
    let mut b = vec![0u8; n];
    rand::thread_rng().fill_bytes(&mut b);
    b
}

/// What SHA-256 gives for a byte string.
pub uninterp spec fn sha256(data: Seq<u8>) -> Seq<u8>;

/// `sha2::Sha256::digest`: the SHA-256 hash of `data`, 32 bytes (the
/// digest's output size).
#[verifier::external_body]
fn sha256_digest(data: &[u8]) -> (r: Vec<u8>)
    ensures
        r@ == sha256(data@),
        r@.len() == 32,
{
    sha2::Sha256::digest(data).to_vec()
}

/// An incremental SHA-256 hasher (`sha2::Sha256`), held whole: Verus does
/// not take a declaration of the crate's hasher type itself.
#[verifier::external_body]
pub struct Sha256State {
    inner: sha2::Sha256,
}

/// The bytes fed so far to an incremental hasher.
pub uninterp spec fn sha256_fed(h: Sha256State) -> Seq<u8>;

/// `sha2::Sha256::new`: a hasher that has been fed nothing.
#[verifier::external_body]
pub(crate) fn sha256_new() -> (h: Sha256State)
    ensures
        sha256_fed(h) == Seq::<u8>::empty(),
{
    Sha256State { inner: sha2::Sha256::new() }
}

/// `Digest::update` on `sha2::Sha256`: feeds `chunk` after what came before.
#[verifier::external_body]
pub(crate) fn sha256_update(h: &mut Sha256State, chunk: &[u8])
    ensures
        sha256_fed(*final(h)) == sha256_fed(*old(h)) + chunk@,
{
    h.inner.update(chunk);
}

/// `Digest::finalize` on `sha2::Sha256`: the SHA-256 hash of everything fed,
/// 32 bytes (the same hash `Sha256::digest` gives for those bytes at once).
#[verifier::external_body]
pub(crate) fn sha256_finalize(h: Sha256State) -> (d: Vec<u8>)
    ensures
        d@ == sha256(sha256_fed(h)),
        d@.len() == 32,
{
    h.inner.finalize().to_vec()
}

/// The key made of `bytes`: the prefix followed by the bytes in lower-case
/// hex.
pub fn key_from_bytes(bytes: &[u8]) -> (k: String)
    ensures
        k@ == KEY_PREFIX@ + hex_lower(bytes@),
        k@.len() == 4 + 2 * bytes@.len(),
{
    let hex = hex_encode(bytes);
    let k = concat(KEY_PREFIX, hex.as_str());
    proof {
        lemma_hex_lower_len(bytes@);
        reveal_strlit("bfr_");
    }
    k
}

/// A fresh key: the prefix followed by 32 random bytes in hex.
pub fn generate_key() -> (k: String)
    ensures
        exists|b: Seq<u8>| b.len() == 32 && k@ == KEY_PREFIX@ + hex_lower(b),
        k@.len() == 68,
{
    let bytes = random_bytes(32);
    key_from_bytes(bytes.as_slice())
}

/// What a key is stored as: the hex of the SHA-256 of its bytes.
pub fn hash_key(key: &str) -> (h: String)
    ensures
        h@ == hex_lower(sha256(key.spec_bytes())),
        h@.len() == 64,
{
    let d = sha256_digest(key.as_bytes());
    proof {
        lemma_hex_lower_len(d@);
    }
    hex_encode(d.as_slice())
}

/// The part of a key shown in listings: its first 12 characters.
pub fn display_prefix(key: &str) -> (p: String)
    requires
        key@.len() >= DISPLAY_PREFIX_LEN,
    ensures
        p@ == key@.subrange(0, DISPLAY_PREFIX_LEN as int),
{
    let v = chars_of(key);
    string_of_range(&v, 0, DISPLAY_PREFIX_LEN)
}

/// The bearer token of an Authorization header value: what follows
/// "Bearer ", trimmed, when that is not empty.
pub open spec fn bearer_spec(h: Seq<char>) -> Option<Seq<char>> {
    if has_prefix(h, "Bearer "@) && trim(h.subrange(7, h.len() as int)).len() > 0 {
        Some(trim(h.subrange(7, h.len() as int)))
    } else {
        None
    }
}

/// Read the bearer token of an Authorization header (`None` when the header
/// is missing or not readable text).
pub fn extract_bearer(header: Option<&str>) -> (r: Option<String>)
    ensures
        match header {
            None => r is None,
            Some(h) => match bearer_spec(h@) {
                Some(t) => r matches Some(s) && s@ == t,
                None => r is None,
            },
        },
{
    let h = match header {
        None => return None,
        Some(h) => h,
    };
    let v = chars_of(h);
    let p = chars_of("Bearer ");
    proof {
        reveal_strlit("Bearer ");
    }
    if v.len() < 7 || !crate::text::range_eq(&v, 0, 7, &p) {
        proof {
            if has_prefix(h@, "Bearer "@) {
                assert(v@.subrange(0, 7) =~= p@);
            }
        }
        return None;
    }
    proof {
        assert(has_prefix(h@, "Bearer "@));
    }
    let rest = string_of_range(&v, 7, v.len());
    let t = trimmed(rest.as_str());
    if t.as_str().is_empty() {
        None
    } else {
        Some(t)
    }
}

/// The trimmed name of a new key, or `None` when it is blank ("key name is
/// required").
pub fn key_name(name: &str) -> (r: Option<String>)
    ensures
        match r {
            Some(n) => n@ == trim(name@) && n@.len() > 0,
            None => trim(name@).len() == 0,
        },
{
    let n = trimmed(name);
    if n.as_str().is_empty() {
        None
    } else {
        Some(n)
    }
}

/// A freshly minted key, as stored and as shown once to its creator.
pub struct NewKey {
    pub id: String,
    pub name: String,
    /// The full key, returned exactly once.
    pub key: String,
    /// What is stored: the hex SHA-256 of the key.
    pub key_hash: String,
    /// What listings show.
    pub prefix: String,
}

/// The record of a new key `key` with row id `id` under `name`: `None` for
/// a blank name; else the trimmed name, the key, its stored hash and its
/// display prefix.
pub fn key_record(name: &str, id: String, key: String) -> (r: Option<NewKey>)
    requires
        key@.len() >= DISPLAY_PREFIX_LEN,
    ensures
        r is None <==> trim(name@).len() == 0,
        r matches Some(k) ==> {
            &&& k.name@ == trim(name@)
            &&& k.id == id
            &&& k.key == key
            &&& k.key_hash@ == hex_lower(sha256(encode_utf8(key@)))
            &&& k.prefix@ == key@.subrange(0, DISPLAY_PREFIX_LEN as int)
        },
{
    let n = match key_name(name) {
        None => return None,
        Some(n) => n,
    };
    let key_hash = hash_key(key.as_str());
    let prefix = display_prefix(key.as_str());
    Some(NewKey { id, name: n, key, key_hash, prefix })
}

/// Mint a key named `name` (trimmed): a fresh UUID id, a fresh key, its
/// hash and display prefix; `None` when the name is blank ("key name is
/// required").
pub fn new_key(name: &str) -> (r: Option<NewKey>)
    ensures
        r is None <==> trim(name@).len() == 0,
        r matches Some(k) ==> {
            &&& k.name@ == trim(name@)
            &&& is_uuid_text(k.id@)
            &&& exists|b: Seq<u8>| b.len() == 32 && k.key@ == KEY_PREFIX@ + hex_lower(b)
            &&& k.key_hash@ == hex_lower(sha256(encode_utf8(k.key@)))
            &&& k.prefix@ == k.key@.subrange(0, DISPLAY_PREFIX_LEN as int)
        },
{
    let id = new_uuid();
    let key = generate_key();
    key_record(name, id, key)
}

} // verus!
