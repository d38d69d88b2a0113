//! Dashboards: the checks on an uploaded background (its media type,
//! read off the Content-Type header, and a non-empty body).
use vstd::prelude::*;
use crate::text::{chars_of, find_char, find_from, lemma_find_from_bounds, push_char, trim, trim_bounds};

verus! {

/// The largest background upload, in bytes.
pub const BG_MEDIA_MAX_BYTES: usize = 26214400;

/// ASCII lower-casing of one character (`char::to_ascii_lowercase`).
pub open spec fn ascii_lower(c: char) -> char {
    if 'A' <= c && c <= 'Z' {
        ((c as u32) + 32) as char
    } else {
        c
    }
}

pub open spec fn ascii_lower_seq(s: Seq<char>) -> Seq<char> {
    s.map_values(|c: char| ascii_lower(c))
}

fn lower_char(c: char) -> (r: char)
    ensures
        r == ascii_lower(c),
{
    if 'A' <= c && c <= 'Z' {
        let v: Vec<char> = vec!['a', 'b', 'c', 'd', 'e', 'f', 'g', 'h', 'i', 'j', 'k', 'l', 'm', 'n', 'o', 'p', 'q', 'r', 's', 't', 'u', 'v', 'w', 'x', 'y', 'z'];
        let k = (c as u32 - 'A' as u32) as usize;
        let r = v[k];
        assert(r == ((c as u32) + 32) as char) by {
            assert(v@[k as int] == ((('a' as u32) + k) as char));
        }
        r
    } else {
        c
    }
}

/// The media type of a Content-Type header: its first `;`-separated part,
/// trimmed and lower-cased; empty without a readable header.
pub open spec fn media_type_spec(header: Option<Seq<char>>) -> Seq<char> {
    match header {
        None => Seq::empty(),
        Some(h) => ascii_lower_seq(trim(h.subrange(0, find_from(h, ';', 0)))),
    }
}

pub fn media_type(header: Option<&str>) -> (r: String)
    ensures
        r@ == media_type_spec(match header { Some(h) => Some(h@), None => None }),
{
    match header {
        None => String::new(),
        Some(h) => {
            let v = chars_of(h);
            let end = find_char(&v, ';', 0);
            proof {
                lemma_find_from_bounds(v@, ';', 0);
            }
            let (lo, hi) = trim_bounds(&v, 0, end);
            let mut out = String::new();
            let mut i = lo;
            let ghost part = v@.subrange(lo as int, hi as int);
            while i < hi
                invariant
                    lo <= i <= hi <= v@.len(),
                    part == v@.subrange(lo as int, hi as int),
                    out@ == ascii_lower_seq(part.subrange(0, i - lo)),
                decreases hi - i,
            {
                let c = lower_char(v[i]);
                push_char(&mut out, c);
                i = i + 1;
                assert(out@ =~= ascii_lower_seq(part.subrange(0, i - lo)));
            }
            assert(part.subrange(0, hi - lo) =~= part);
            out
        },
    }
}

/// The accepted background media types.
pub open spec fn allowed_mime(m: Seq<char>) -> bool {
    m == "image/jpeg"@ || m == "image/png"@ || m == "image/webp"@ || m == "image/gif"@
        || m == "video/mp4"@ || m == "video/webm"@
}

/// Why an upload is refused, with its HTTP status: a media type outside the
/// allowlist (415), else an empty body (422).
pub fn check_bg_upload(mime: &str, body_len: usize) -> (r: Option<(u16, String)>)
    ensures
        !allowed_mime(mime@) ==> (r matches Some((code, m)) && code == 415 && m@ == "background media must be one of [\"image/jpeg\", \"image/png\", \"image/webp\", \"image/gif\", \"video/mp4\", \"video/webm\"]"@),
        allowed_mime(mime@) && body_len == 0 ==> (r matches Some((code, m)) && code == 422 && m@ == "empty upload"@),
        allowed_mime(mime@) && body_len > 0 ==> r is None,
{
    let ok = crate::text::str_eq(mime, "image/jpeg") || crate::text::str_eq(mime, "image/png")
        || crate::text::str_eq(mime, "image/webp") || crate::text::str_eq(mime, "image/gif")
        || crate::text::str_eq(mime, "video/mp4") || crate::text::str_eq(mime, "video/webm");
    if !ok {
        return Some((415, "background media must be one of [\"image/jpeg\", \"image/png\", \"image/webp\", \"image/gif\", \"video/mp4\", \"video/webm\"]".to_owned()));
    }
    if body_len == 0 {
        return Some((422, "empty upload".to_owned()));
    }
    None
}

} // verus!
