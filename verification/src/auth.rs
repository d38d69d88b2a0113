//! Sessions and cookies: reading a named cookie off a Cookie header, and
//! the session cookies the hub sets and clears.
use vstd::prelude::*;
use argon2::PasswordVerifier;
use crate::ids::{is_uuid_text, new_uuid};
use crate::kiosks::{dec_digits, push_decimal};
use vstd::string::*;
use crate::text::{chars_of, concat, find_char, find_from, has_prefix, lemma_find_from_bounds, push_str, string_of_range, trim, trim_bounds};

verus! {

/// The session cookie's name.
pub const SESSION_COOKIE: &'static str = "bifrost_session";

/// How long a session lasts, in hours (one week).
pub const SESSION_TTL_HOURS: i64 = 168;

/// The cookie a paired kiosk carries its key in.
pub const KIOSK_KEY_COOKIE: &'static str = "bfr_key";

/// The value of cookie `name` in a Cookie header, scanning the `;`-separated
/// parts from `start`: the first trimmed part of the form `name=value`
/// gives `value`.
pub open spec fn cookie_from(h: Seq<char>, name: Seq<char>, start: int) -> Option<Seq<char>>
    decreases h.len() - start,
{
    if start > h.len() || start < 0 {
        None
    } else {
        let end = find_from(h, ';', start);
        let part = trim(h.subrange(start, end));
        let key = name.push('=');
        if has_prefix(part, key) {
            Some(part.subrange(key.len() as int, part.len() as int))
        } else if end >= h.len() {
            None
        } else {
            proof {
                lemma_find_from_bounds(h, ';', start);
            }
            cookie_from(h, name, end + 1)
        }
    }
}

/// Read the cookie `name` from a Cookie header value (`None` when the header
/// is missing or not readable text, or holds no such cookie).
pub fn extract_cookie(header: Option<&str>, name: &str) -> (r: Option<String>)
    ensures
        match header {
            None => r is None,
            Some(h) => match cookie_from(h@, name@, 0) {
                Some(v) => r matches Some(s) && s@ == v,
                None => r is None,
            },
        },
{
    match header {
        None => None,
        Some(h) => cookie_value(h, name),
    }
}

fn cookie_value(h: &str, name: &str) -> (r: Option<String>)
    ensures
        match cookie_from(h@, name@, 0) {
            Some(v) => r matches Some(s) && s@ == v,
            None => r is None,
        },
{
    let v = chars_of(h);
    let key = {
        let mut k = chars_of(name);
        k.push('=');
        k
    };
    let mut start: usize = 0;
    while start <= v.len()
        invariant
            start <= v@.len() + 1,
            v@ == h@,
            key@ == name@.push('='),
            cookie_from(h@, name@, 0) == cookie_from(h@, name@, start as int),
        decreases v@.len() + 1 - start,
    {
        let end = find_char(&v, ';', start);
        proof {
            lemma_find_from_bounds(v@, ';', start as int);
        }
        let (lo, hi) = trim_bounds(&v, start, end);
        let part_len = hi - lo;
        if part_len >= key.len() && crate::text::range_eq(&v, lo, lo + key.len(), &key) {
            proof {
                let part = v@.subrange(lo as int, hi as int);
                assert(part.subrange(0, key@.len() as int) =~= v@.subrange(lo as int, lo + key@.len()));
            }
            let r = string_of_range(&v, lo + key.len(), hi);
            proof {
                let part = v@.subrange(lo as int, hi as int);
                assert(part.subrange(key@.len() as int, part.len() as int) =~= v@.subrange(lo + key@.len(), hi as int));
                assert(part == trim(h@.subrange(start as int, end as int)));
                assert(has_prefix(part, name@.push('=')));
                assert(cookie_from(h@, name@, start as int) == Some(r@));
            }
            return Some(r);
        }
        proof {
            let part = v@.subrange(lo as int, hi as int);
            if has_prefix(part, key@) {
                assert(part.subrange(0, key@.len() as int) =~= v@.subrange(lo as int, lo + key@.len()));
            }
        }
        if end >= v.len() {
            return None;
        }
        start = end + 1;
    }
    None
}

/// The session cookie for a new session.
pub open spec fn session_cookie_spec(session_id: Seq<char>) -> Seq<char> {
    SESSION_COOKIE@ + "="@ + session_id + "; HttpOnly; SameSite=Strict; Path=/; Max-Age="@ + dec_digits(604800)
}

pub fn session_cookie(session_id: &str) -> (c: String)
    ensures
        c@ == session_cookie_spec(session_id@),
{
    let mut c = concat(SESSION_COOKIE, "=");
    push_str(&mut c, session_id);
    push_str(&mut c, "; HttpOnly; SameSite=Strict; Path=/; Max-Age=");
    push_decimal(&mut c, (SESSION_TTL_HOURS * 3600) as u64);
    c
}

/// The cookie that clears the session on logout.
pub fn clear_session_cookie() -> (c: String)
    ensures
        c@ == SESSION_COOKIE@ + "=; HttpOnly; Path=/; Max-Age=0"@,
{
    concat(SESSION_COOKIE, "=; HttpOnly; Path=/; Max-Age=0")
}

/// A login request: the hub password.
pub struct LoginRequest {
    pub password: String,
}

/// Proof that a request carries a live session.
pub struct Session;

/// Proof that a request carries a live session or a paired kiosk's key.
pub struct SessionOrKiosk;

/// Whether a user agent is the kiosk app's.
pub fn is_kiosk_user_agent(ua: Option<&str>) -> (r: bool)
    ensures
        r == (match ua {
            Some(u) => crate::text::contains_sub(u@, "BifrostKiosk"@),
            None => false,
        }),
{
    match ua {
        Some(u) => crate::text::str_contains(u, "BifrostKiosk"),
        None => false,
    }
}

// ── Logging in ───────────────────────────────────────────────────────────────

/// Whether `phc` parses as a PHC password-hash string.
pub uninterp spec fn phc_parses(phc: Seq<char>) -> bool;

/// Whether Argon2 accepts `password` against the PHC hash string `phc`: it
/// re-hashes the password with the hash's own algorithm, version, cost
/// parameters and salt, and compares.
pub uninterp spec fn argon2_accepts(password: Seq<u8>, phc: Seq<char>) -> bool;

/// `password_hash::PasswordHash::new`: whether the stored hash parses.
#[verifier::external_body]
fn parse_phc(hash: &str) -> (r: bool)
    ensures
        r == phc_parses(hash@),
{
    argon2::PasswordHash::new(hash).is_ok()
}

/// `argon2::Argon2::default().verify_password`: whether the password matches
/// a parsed stored hash. Verification follows the parameters written in the
/// hash itself, so the answer depends on the password and the hash alone.
#[verifier::external_body]
fn argon2_verify(password: &str, hash: &str) -> (r: bool)
    requires
        phc_parses(hash@),
    ensures
        r == argon2_accepts(password.spec_bytes(), hash@),
{
    match argon2::PasswordHash::new(hash) {
        Ok(h) => argon2::Argon2::default().verify_password(password.as_bytes(), &h).is_ok(),
        Err(_) => false,
    }
}

/// How a login attempt ends.
#[derive(Clone, Copy, Debug, PartialEq, Eq, Structural)]
pub enum LoginOutcome {
    /// The password matches: a session is minted.
    Granted,
    /// No password is configured yet (401 "not configured").
    NotConfigured,
    /// The stored hash does not parse (500 "bad hash").
    BadHash,
    /// The password does not match (401 "wrong password").
    WrongPassword,
}

/// The outcome of a login from what the checks found: `None` when no hash
/// is stored, else whether it parses and whether the password matched.
pub fn login_verdict(found: Option<(bool, bool)>) -> (r: LoginOutcome)
    ensures
        r == match found {
            None => LoginOutcome::NotConfigured,
            Some((parses, accepted)) => if !parses {
                LoginOutcome::BadHash
            } else if accepted {
                LoginOutcome::Granted
            } else {
                LoginOutcome::WrongPassword
            },
        },
{
    match found {
        None => LoginOutcome::NotConfigured,
        Some((parses, accepted)) => if !parses {
            LoginOutcome::BadHash
        } else if accepted {
            LoginOutcome::Granted
        } else {
            LoginOutcome::WrongPassword
        },
    }
}

/// Check a login password against the stored hash (`None` when no
/// password is configured).
pub fn login_outcome(stored_hash: Option<&str>, password: &str) -> (r: LoginOutcome)
    ensures
        r == match stored_hash {
            None => LoginOutcome::NotConfigured,
            Some(h) => if !phc_parses(h@) {
                LoginOutcome::BadHash
            } else if argon2_accepts(password.spec_bytes(), h@) {
                LoginOutcome::Granted
            } else {
                LoginOutcome::WrongPassword
            },
        },
{
    match stored_hash {
        None => login_verdict(None),
        Some(h) => {
            if !parse_phc(h) {
                login_verdict(Some((false, false)))
            } else {
                let ok = argon2_verify(password, h);
                login_verdict(Some((true, ok)))
            }
        },
    }
}

/// The HTTP status and body text of a refused login.
pub fn login_refusal(o: LoginOutcome) -> (r: Option<(u16, &'static str)>)
    ensures
        match o {
            LoginOutcome::Granted => r is None,
            LoginOutcome::NotConfigured => r matches Some((c, m)) && c == 401 && m@ == "not configured"@,
            LoginOutcome::BadHash => r matches Some((c, m)) && c == 500 && m@ == "bad hash"@,
            LoginOutcome::WrongPassword => r matches Some((c, m)) && c == 401 && m@ == "wrong password"@,
        },
{
    match o {
        LoginOutcome::Granted => None,
        LoginOutcome::NotConfigured => Some((401, "not configured")),
        LoginOutcome::BadHash => Some((500, "bad hash")),
        LoginOutcome::WrongPassword => Some((401, "wrong password")),
    }
}

/// A new session: a fresh UUID id and the cookie that carries it.
pub fn new_session() -> (r: (String, String))
    ensures
        is_uuid_text(r.0@),
        r.1@ == session_cookie_spec(r.0@),
{
    let id = new_uuid();
    let cookie = session_cookie(id.as_str());
    (id, cookie)
}

} // verus!
