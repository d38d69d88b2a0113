//! Configuration of the optional OpenAI-compatible model endpoints: the role
//! list, base-URL and model validation, the three-state key update, the
//! stored URL's normalisation, and the reading of a reachability probe.
use vstd::prelude::*;
use vstd::string::*;
use crate::text::{chars_of, has_prefix, range_eq, str_eq, string_of_range, trim, trim_bounds};

verus! {

/// `serde` default for `enabled`.
pub fn default_true() -> (r: bool)
    ensures
        r,
{
    true
}

/// The model roles the voice pipeline understands.
pub open spec fn is_role(r: Seq<char>) -> bool {
    r == "transcription"@ || r == "chat"@ || r == "tts"@
}

pub fn known_role(role: &str) -> (r: bool)
    ensures
        r == is_role(role@),
{
    str_eq(role, "transcription") || str_eq(role, "chat") || str_eq(role, "tts")
}

pub open spec fn http_prefix() -> Seq<char> {
    seq!['h', 't', 't', 'p', ':', '/', '/']
}

pub open spec fn https_prefix() -> Seq<char> {
    seq!['h', 't', 't', 'p', 's', ':', '/', '/']
}

/// The UTF-8 width of a character.
pub open spec fn utf8_width(c: char) -> nat {
    if (c as u32) < 0x80 {
        1
    } else if (c as u32) < 0x800 {
        2
    } else if (c as u32) < 0x10000 {
        3
    } else {
        4
    }
}

/// `str::len`: the UTF-8 length in bytes.
pub open spec fn utf8_len(s: Seq<char>) -> nat
    decreases s.len(),
{
    if s.len() == 0 {
        0
    } else {
        utf8_len(s.drop_last()) + utf8_width(s.last())
    }
}

/// Whether `v[lo..hi]` is longer than `n` bytes in UTF-8.
fn utf8_longer_than(v: &Vec<char>, lo: usize, hi: usize, n: u64) -> (r: bool)
    requires
        lo <= hi <= v@.len(),
        n < 0xffff_ffff,
    ensures
        r == (utf8_len(v@.subrange(lo as int, hi as int)) > n),
{
    let mut total: u64 = 0;
    let mut i = lo;
    while i < hi
        invariant
            lo <= i <= hi <= v@.len(),
            n < 0xffff_ffff,
            total == utf8_len(v@.subrange(lo as int, i as int)),
            total <= n,
        decreases hi - i,
    {
        let c = v[i];
        let w: u64 = if (c as u32) < 0x80 {
            1
        } else if (c as u32) < 0x800 {
            2
        } else if (c as u32) < 0x10000 {
            3
        } else {
            4
        };
        proof {
            let p = v@.subrange(lo as int, i + 1);
            assert(p.drop_last() =~= v@.subrange(lo as int, i as int));
            assert(p.last() == c);
        }
        total = total + w;
        i = i + 1;
        if total > n {
            proof {
                lemma_utf8_len_monotone(v@.subrange(lo as int, hi as int), i - lo);
                assert(v@.subrange(lo as int, hi as int).subrange(0, i - lo) =~= v@.subrange(
                    lo as int,
                    i as int,
                ));
            }
            return true;
        }
    }
    false
}

proof fn lemma_utf8_len_monotone(s: Seq<char>, k: int)
    requires
        0 <= k <= s.len(),
    ensures
        utf8_len(s.subrange(0, k)) <= utf8_len(s),
    decreases s.len() - k,
{
    if k < s.len() {
        lemma_utf8_len_monotone(s.drop_last(), k);
        assert(s.drop_last().subrange(0, k) =~= s.subrange(0, k));
    } else {
        assert(s.subrange(0, k) =~= s);
    }
}

/// An absolute http(s) URL, once trimmed: the scheme followed by a
/// non-empty rest (lengths in UTF-8 bytes).
pub open spec fn valid_base_url_spec(s: Seq<char>) -> bool {
    let t = trim(s);
    ||| (has_prefix(t, http_prefix()) && utf8_len(t) > 7)
    ||| (has_prefix(t, https_prefix()) && utf8_len(t) > 8)
}

pub fn valid_base_url(s: &str) -> (r: bool)
    ensures
        r == valid_base_url_spec(s@),
{
    let v = chars_of(s);
    let (lo, hi) = trim_bounds(&v, 0, v.len());
    assert(v@.subrange(0, v@.len() as int) =~= v@);
    let http: Vec<char> = vec!['h', 't', 't', 'p', ':', '/', '/'];
    let https: Vec<char> = vec!['h', 't', 't', 'p', 's', ':', '/', '/'];
    let ghost t = v@.subrange(lo as int, hi as int);
    let is_http = hi - lo >= 7 && range_eq(&v, lo, lo + 7, &http);
    let is_https = hi - lo >= 8 && range_eq(&v, lo, lo + 8, &https);
    proof {
        if hi - lo >= 7 {
            assert(t.subrange(0, 7) =~= v@.subrange(lo as int, lo + 7));
        }
        if hi - lo >= 8 {
            assert(t.subrange(0, 8) =~= v@.subrange(lo as int, lo + 8));
        }
    }
    if is_http && utf8_longer_than(&v, lo, hi, 7) {
        return true;
    }
    is_https && utf8_longer_than(&v, lo, hi, 8)
}

/// Why `PUT /api/ai-endpoints/{role}` is refused.
#[derive(Clone, Copy, Debug, PartialEq, Eq)]
pub enum EndpointError {
    /// Not one of the known roles (404).
    UnknownRole,
    /// The base URL is not an http(s) URL (422).
    BadBaseUrl,
    /// The model is blank (422).
    MissingModel,
}

/// A validated endpoint write: the trimmed base URL and model.
pub struct EndpointInput {
    pub base_url: String,
    pub model: String,
}

/// Validate an endpoint write in the handler's order: role, base URL, model.
pub fn validate_endpoint(role: &str, base_url: &str, model: &str) -> (r: Result<
    EndpointInput,
    EndpointError,
>)
    ensures
        match r {
            Ok(e) => is_role(role@) && valid_base_url_spec(base_url@) && trim(model@).len() > 0
                && e.base_url@ == trim(base_url@) && e.model@ == trim(model@),
            Err(EndpointError::UnknownRole) => !is_role(role@),
            Err(EndpointError::BadBaseUrl) => is_role(role@) && !valid_base_url_spec(base_url@),
            Err(EndpointError::MissingModel) => is_role(role@) && valid_base_url_spec(base_url@)
                && trim(model@).len() == 0,
        },
{
    if !known_role(role) {
        return Err(EndpointError::UnknownRole);
    }
    let bv = chars_of(base_url);
    let (blo, bhi) = trim_bounds(&bv, 0, bv.len());
    assert(bv@.subrange(0, bv@.len() as int) =~= bv@);
    let trimmed_url = string_of_range(&bv, blo, bhi);
    if !valid_base_url(base_url) {
        return Err(EndpointError::BadBaseUrl);
    }
    let mv = chars_of(model);
    let (mlo, mhi) = trim_bounds(&mv, 0, mv.len());
    assert(mv@.subrange(0, mv@.len() as int) =~= mv@);
    if mlo == mhi {
        return Err(EndpointError::MissingModel);
    }
    Ok(EndpointInput { base_url: trimmed_url, model: string_of_range(&mv, mlo, mhi) })
}

/// What a write does to the stored key: a non-empty key replaces it, an
/// empty one clears it, an omitted one keeps it.
#[derive(Debug, PartialEq, Eq)]
pub enum KeyUpdate {
    Replace(String),
    Clear,
    Keep,
}

pub fn key_update(api_key: Option<&str>) -> (r: KeyUpdate)
    ensures
        match api_key {
            None => r == KeyUpdate::Keep,
            Some(k) => if k@.len() == 0 {
                r == KeyUpdate::Clear
            } else {
                r matches KeyUpdate::Replace(s) && s@ == k@
            },
        },
{
    match api_key {
        None => KeyUpdate::Keep,
        Some(k) => {
            if k.is_empty() {
                KeyUpdate::Clear
            } else {
                KeyUpdate::Replace(String::from_str(k))
            }
        },
    }
}

/// Whether a stored key counts as present (`has_key`): stored and non-empty.
pub fn has_key(stored: Option<&str>) -> (r: bool)
    ensures
        r == (match stored {
            Some(k) => k@.len() > 0,
            None => false,
        }),
{
    match stored {
        Some(k) => !k.is_empty(),
        None => false,
    }
}

/// `str::trim_end_matches('/')`.
pub open spec fn trim_slashes_end(s: Seq<char>) -> Seq<char>
    decreases s.len(),
{
    if s.len() > 0 && s.last() == '/' {
        trim_slashes_end(s.drop_last())
    } else {
        s
    }
}

/// The stored base URL as the pipeline uses it: trailing slashes removed.
pub fn normalize_base_url(stored: &str) -> (r: String)
    ensures
        r@ == trim_slashes_end(stored@),
{
    let v = chars_of(stored);
    let mut hi = v.len();
    assert(v@.subrange(0, v@.len() as int) =~= v@);
    while hi > 0 && v[hi - 1] == '/'
        invariant
            hi <= v@.len(),
            trim_slashes_end(v@) == trim_slashes_end(v@.subrange(0, hi as int)),
        decreases hi,
    {
        proof {
            let s = v@.subrange(0, hi as int);
            assert(s.drop_last() =~= v@.subrange(0, hi - 1));
        }
        hi = hi - 1;
    }
    assert(v@.subrange(0, v@.len() as int) =~= v@);
    string_of_range(&v, 0, hi)
}

/// How a `GET {base_url}/models` probe ended.
pub enum ProbeOutcome {
    /// An HTTP answer: its status code and its display text (e.g. "404 Not Found").
    Status { code: u16, text: String },
    /// The connection could not be made.
    ConnectFailed,
    /// The request timed out.
    TimedOut,
    /// Any other transport error, with its message.
    Other(String),
}

/// What a probe answers: any 2xx status means reachable, 401 means the key
/// was rejected, and any other status or a transport failure gives a
/// readable message.
pub fn probe_result(outcome: ProbeOutcome) -> (r: Result<(), String>)
    ensures
        match outcome {
            ProbeOutcome::Status { code, text } => if 200 <= code < 300 {
                r is Ok
            } else if code == 401 {
                r matches Err(m) && m@ == "the endpoint rejected the API key (401)"@
            } else {
                r matches Err(m) && m@ == "the endpoint returned "@ + text@
            },
            ProbeOutcome::ConnectFailed => r matches Err(m) && m@
                == "couldn't connect to the endpoint"@,
            ProbeOutcome::TimedOut => r matches Err(m) && m@ == "the endpoint timed out"@,
            ProbeOutcome::Other(e) => r matches Err(m) && m@ == e@,
        },
{
    match outcome {
        ProbeOutcome::Status { code, text } => {
            if 200 <= code && code < 300 {
                Ok(())
            } else if code == 401 {
                Err(String::from_str("the endpoint rejected the API key (401)"))
            } else {
                let mut m = String::from_str("the endpoint returned ");
                m.append(text.as_str());
                Err(m)
            }
        },
        ProbeOutcome::ConnectFailed => Err(String::from_str("couldn't connect to the endpoint")),
        ProbeOutcome::TimedOut => Err(String::from_str("the endpoint timed out")),
        ProbeOutcome::Other(e) => Err(e),
    }
}

} // verus!
