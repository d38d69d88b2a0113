//! The kiosk OTA relay's pure parts: the update-source configuration and its
//! validation, the version parse of the tagged `build.gradle.kts`, the pick
//! of the release asset, and the decision to skip a re-download.
use vstd::prelude::*;
use vstd::string::*;
use crate::apikeys::{hex_encode, hex_lower, sha256, sha256_fed, sha256_finalize, sha256_new, sha256_update, Sha256State};
use crate::text::{chars_of, find_from, find_in_range, lemma_find_from_bounds, is_ws, parse_i64_spec, parse_magnitude, range_eq, str_eq, string_of_range, trim, trim_bounds};

verus! {

/// The kiosk app repository the hub pulls releases from by default.
pub const DEFAULT_REPO: &'static str = "others-git/bifrost-kiosk";

/// The release asset cached by default.
pub const DEFAULT_ASSET: &'static str = "app-release.apk";

/// Where (and from where) the hub caches the kiosk APK.
pub struct KioskUpdateConfig {
    /// Cache directory holding the APK and its manifest.
    pub dir: String,
    /// GitHub REST API base.
    pub api_base: String,
    /// raw.githubusercontent base.
    pub raw_base: String,
    /// `owner/repo` of the kiosk app.
    pub repo: String,
    /// The release asset to cache.
    pub asset: String,
}

/// The cached APK's identity, compared by kiosks against their own version.
#[derive(Debug, PartialEq, Eq)]
pub struct UpdateManifest {
    pub version_code: i64,
    pub version_name: String,
    pub size: i64,
    /// Hex SHA-256 of the APK.
    pub sha256: String,
}

/// What a streamed APK download has been folded into so far: a hasher over
/// the bytes and their count.
pub struct ApkAcc {
    pub hasher: Sha256State,
    pub size: i64,
}

impl ApkAcc {
    /// The bytes received so far.
    pub open spec fn fed(&self) -> Seq<u8> {
        sha256_fed(self.hasher)
    }

    /// Nothing received yet.
    pub fn new() -> (a: ApkAcc)
        ensures
            a.fed() == Seq::<u8>::empty(),
            a.size == 0,
    {
        ApkAcc { hasher: sha256_new(), size: 0 }
    }

    /// Fold in the next chunk of the download.
    pub fn feed(&mut self, chunk: &[u8])
        requires
            old(self).size == old(self).fed().len(),
            old(self).fed().len() + chunk@.len() <= i64::MAX,
        ensures
            final(self).fed() == old(self).fed() + chunk@,
            final(self).size == final(self).fed().len(),
    {
        sha256_update(&mut self.hasher, chunk);
        self.size = self.size + chunk.len() as i64;
    }

    /// The manifest of the finished download of `remote`: its version, the
    /// byte count and the lower-case hex SHA-256 of the bytes.
    pub fn manifest(self, remote: &RemoteRelease) -> (m: UpdateManifest)
        ensures
            m.version_code == remote.version_code,
            m.version_name@ == remote.version_name@,
            m.size == self.size,
            m.sha256@ == hex_lower(sha256(self.fed())),
    {
        let digest = sha256_finalize(self.hasher);
        UpdateManifest {
            version_code: remote.version_code,
            version_name: remote.version_name.clone(),
            size: self.size,
            sha256: hex_encode(digest.as_slice()),
        }
    }
}

/// The latest release resolved from GitHub, before download.
#[derive(Debug, PartialEq, Eq)]
pub struct RemoteRelease {
    pub tag: String,
    pub apk_url: String,
    pub version_code: i64,
    pub version_name: String,
}

/// The dashboard-editable update source.
pub struct SourceConfig {
    pub repo: String,
    pub asset: String,
}

// ── build.gradle.kts version parse ───────────────────────────────────────────

/// `s` without leading `"` characters.
pub open spec fn trim_q_start(s: Seq<char>) -> Seq<char>
    decreases s.len(),
{
    if s.len() > 0 && s[0] == '"' {
        trim_q_start(s.drop_first())
    } else {
        s
    }
}

/// `s` without trailing `"` characters.
pub open spec fn trim_q_end(s: Seq<char>) -> Seq<char>
    decreases s.len(),
{
    if s.len() > 0 && s.last() == '"' {
        trim_q_end(s.drop_last())
    } else {
        s
    }
}

/// `str::trim_matches('"')`.
pub open spec fn trim_quotes(s: Seq<char>) -> Seq<char> {
    trim_q_end(trim_q_start(s))
}

pub open spec fn version_code_key() -> Seq<char> {
    seq!['v', 'e', 'r', 's', 'i', 'o', 'n', 'C', 'o', 'd', 'e']
}

pub open spec fn version_name_key() -> Seq<char> {
    seq!['v', 'e', 'r', 's', 'i', 'o', 'n', 'N', 'a', 'm', 'e']
}

/// One line of the scan: a `key = value` line sets `versionCode` (parsed as
/// `i64`, retried on later lines while unset) or `versionName` (trimmed and
/// unquoted, first one wins); other lines change nothing.
pub open spec fn gradle_step(line: Seq<char>, code: Option<int>, name: Option<Seq<char>>) -> (
    Option<int>,
    Option<Seq<char>>,
) {
    let k = find_from(line, '=', 0);
    if k >= line.len() {
        (code, name)
    } else {
        let key = trim(line.subrange(0, k));
        let val = trim(line.subrange(k + 1, line.len() as int));
        if key == version_code_key() && code is None {
            (parse_i64_spec(val), name)
        } else if key == version_name_key() && name is None {
            (code, Some(trim_quotes(val)))
        } else {
            (code, name)
        }
    }
}

/// The end of the line starting at `i`, without its line terminator: a `\n`,
/// or `\r\n` (a `\r` is dropped only before a `\n`, as `str::lines` does).
pub open spec fn line_content_end(s: Seq<char>, i: int) -> int {
    let j = find_from(s, '\n', i);
    if j < s.len() && j > i && s[j - 1] == '\r' {
        j - 1
    } else {
        j
    }
}

/// The scan over the lines of `s` from position `i`.
pub open spec fn gradle_scan(s: Seq<char>, i: int, code: Option<int>, name: Option<Seq<char>>) -> (
    Option<int>,
    Option<Seq<char>>,
)
    decreases s.len() - i,
{
    if i < 0 || i >= s.len() {
        (code, name)
    } else {
        let j = find_from(s, '\n', i);
        let st = gradle_step(s.subrange(i, line_content_end(s, i)), code, name);
        proof {
            lemma_find_from_bounds(s, '\n', i);
        }
        if j >= s.len() {
            st
        } else {
            gradle_scan(s, j + 1, st.0, st.1)
        }
    }
}

/// `parse_gradle_version`: both fields found, or `None`.
pub open spec fn gradle_version_spec(s: Seq<char>) -> Option<(int, Seq<char>)> {
    match gradle_scan(s, 0, None, None) {
        (Some(c), Some(n)) => Some((c, n)),
        _ => None,
    }
}

/// `i64::from_str` on `v[lo..hi]`.
pub fn parse_i64_range(v: &Vec<char>, lo: usize, hi: usize) -> (r: Option<i64>)
    requires
        lo <= hi <= v@.len(),
    ensures
        r matches Some(x) ==> parse_i64_spec(v@.subrange(lo as int, hi as int)) == Some(x as int),
        r is None ==> parse_i64_spec(v@.subrange(lo as int, hi as int)) is None,
{
    let ghost s = v@.subrange(lo as int, hi as int);
    if hi - lo > 1 && v[lo] == '-' {
        assert(s.drop_first() =~= v@.subrange(lo + 1, hi as int));
        match parse_magnitude(v, lo + 1, hi, 0x8000_0000_0000_0000) {
            Some(m) => {
                if m == 0x8000_0000_0000_0000 {
                    Some(i64::MIN)
                } else {
                    Some(-(m as i64))
                }
            },
            None => None,
        }
    } else {
        let mut start = lo;
        if hi - lo > 1 && v[lo] == '+' {
            start = lo + 1;
            assert(s.drop_first() =~= v@.subrange(start as int, hi as int));
        } else {
            assert(s =~= v@.subrange(start as int, hi as int));
        }
        match parse_magnitude(v, start, hi, 0x7fff_ffff_ffff_ffff) {
            Some(m) => Some(m as i64),
            None => None,
        }
    }
}

/// Leading quotes can be dropped before trimming them from the start.
pub proof fn lemma_trim_q_start_skip(s: Seq<char>, i: int)
    requires
        0 <= i <= s.len(),
        forall|k: int| 0 <= k < i ==> #[trigger] s[k] == '"',
    ensures
        trim_q_start(s) == trim_q_start(s.subrange(i, s.len() as int)),
    decreases i,
{
    if i > 0 {
        lemma_trim_q_start_skip(s.drop_first(), i - 1);
        assert(s.drop_first().subrange(i - 1, s.drop_first().len() as int) =~= s.subrange(
            i,
            s.len() as int,
        ));
    } else {
        assert(s.subrange(0, s.len() as int) =~= s);
    }
}

/// Trailing quotes can be dropped before trimming them from the end.
pub proof fn lemma_trim_q_end_skip(s: Seq<char>, j: int)
    requires
        0 <= j <= s.len(),
        forall|k: int| j <= k < s.len() ==> #[trigger] s[k] == '"',
    ensures
        trim_q_end(s) == trim_q_end(s.subrange(0, j)),
    decreases s.len() - j,
{
    if j < s.len() {
        lemma_trim_q_end_skip(s.drop_last(), j);
        assert(s.drop_last().subrange(0, j) =~= s.subrange(0, j));
    } else {
        assert(s.subrange(0, j) =~= s);
    }
}

/// The bounds of `trim_quotes(v[from..to])` inside `v`.
fn trim_quote_bounds(v: &Vec<char>, from: usize, to: usize) -> (r: (usize, usize))
    requires
        from <= to <= v@.len(),
    ensures
        from <= r.0 <= r.1 <= to,
        v@.subrange(r.0 as int, r.1 as int) == trim_quotes(v@.subrange(from as int, to as int)),
{
    let ghost s = v@.subrange(from as int, to as int);
    let mut lo = from;
    while lo < to && v[lo] == '"'
        invariant
            from <= lo <= to <= v@.len(),
            s == v@.subrange(from as int, to as int),
            forall|k: int| from <= k < lo ==> #[trigger] v@[k] == '"',
        decreases to - lo,
    {
        lo = lo + 1;
    }
    proof {
        assert forall|k: int| 0 <= k < lo - from implies #[trigger] s[k] == '"' by {
            assert(s[k] == v@[from + k]);
        }
        lemma_trim_q_start_skip(s, lo - from);
        assert(s.subrange(lo - from, s.len() as int) =~= v@.subrange(lo as int, to as int));
    }
    let ghost t = v@.subrange(lo as int, to as int);
    let mut hi = to;
    while hi > lo && v[hi - 1] == '"'
        invariant
            from <= lo <= hi <= to <= v@.len(),
            t == v@.subrange(lo as int, to as int),
            forall|k: int| hi <= k < to ==> #[trigger] v@[k] == '"',
        decreases hi - lo,
    {
        hi = hi - 1;
    }
    proof {
        assert forall|k: int| hi - lo <= k < t.len() implies #[trigger] t[k] == '"' by {
            assert(t[k] == v@[lo + k]);
        }
        lemma_trim_q_end_skip(t, hi - lo);
        assert(t.subrange(0, hi - lo) =~= v@.subrange(lo as int, hi as int));
    }
    (lo, hi)
}

pub open spec fn opt_str_view(o: Option<String>) -> Option<Seq<char>> {
    match o {
        Some(s) => Some(s@),
        None => None,
    }
}

/// Parse `versionCode`/`versionName` out of the kiosk's `app/build.gradle.kts`.
pub fn parse_gradle_version(src: &str) -> (r: Option<(i64, String)>)
    ensures
        match r {
            Some((c, n)) => gradle_version_spec(src@) == Some((c as int, n@)),
            None => gradle_version_spec(src@) is None,
        },
{
    let v = chars_of(src);
    let code_key: Vec<char> = vec!['v', 'e', 'r', 's', 'i', 'o', 'n', 'C', 'o', 'd', 'e'];
    let name_key: Vec<char> = vec!['v', 'e', 'r', 's', 'i', 'o', 'n', 'N', 'a', 'm', 'e'];
    let mut code: Option<i64> = None;
    let mut name: Option<String> = None;
    let mut i: usize = 0;
    while i < v.len()
        invariant
            v@ == src@,
            code_key@ == version_code_key(),
            name_key@ == version_name_key(),
            i <= v@.len(),
            gradle_scan(v@, 0, None, None) == gradle_scan(
                v@,
                i as int,
                match code {
                    Some(c) => Some(c as int),
                    None => None,
                },
                opt_str_view(name),
            ),
        decreases v@.len() - i,
    {
        let ghost code_v: Option<int> = match code {
            Some(c) => Some(c as int),
            None => None,
        };
        let ghost name_v = opt_str_view(name);
        let ghost i_old = i as int;
        let j = find_in_range(&v, '\n', i, v.len());
        proof {
            assert(v@.subrange(i as int, v@.len() as int).len() == v@.len() - i);
            lemma_find_shift(v@, '\n', i as int);
        }
        let e = if j < v.len() && j > i && v[j - 1] == '\r' {
            j - 1
        } else {
            j
        };
        let ghost line = v@.subrange(i as int, e as int);
        let k = find_in_range(&v, '=', i, e);
        let ghost st = gradle_step(line, code_v, name_v);
        if k < e {
            let (klo, khi) = trim_bounds(&v, i, k);
            let (vlo, vhi) = trim_bounds(&v, k + 1, e);
            proof {
                assert(line.subrange(0, k - i) =~= v@.subrange(i as int, k as int));
                assert(line.subrange(k - i + 1, line.len() as int) =~= v@.subrange(
                    k + 1,
                    e as int,
                ));
            }
            if range_eq(&v, klo, khi, &code_key) && code.is_none() {
                code = parse_i64_range(&v, vlo, vhi);
            } else if range_eq(&v, klo, khi, &name_key) && name.is_none() {
                let (qlo, qhi) = trim_quote_bounds(&v, vlo, vhi);
                name = Some(string_of_range(&v, qlo, qhi));
            }
        }
        i = if j < v.len() {
            j + 1
        } else {
            v.len()
        };
        proof {
            lemma_find_from_bounds(v@, '\n', i as int);
            assert(match code {
                Some(c) => Some(c as int),
                None => None,
            } == st.0);
            assert(opt_str_view(name) == st.1);
            assert(line_content_end(v@, i_old) == e);
            assert(gradle_scan(v@, i_old, code_v, name_v) == gradle_scan(v@, i as int, st.0, st.1));
        }
    }
    match (code, name) {
        (Some(c), Some(n)) => Some((c, n)),
        _ => None,
    }
}

/// Searching `s[i..]` from its start finds what searching `s` from `i` does.
pub proof fn lemma_find_shift(s: Seq<char>, c: char, i: int)
    requires
        0 <= i <= s.len(),
    ensures
        find_from(s.subrange(i, s.len() as int), c, 0) + i == find_from(s, c, i),
{
    lemma_find_shift_from(s, c, i, 0);
}

proof fn lemma_find_shift_from(s: Seq<char>, c: char, i: int, k: int)
    requires
        0 <= i <= s.len(),
        0 <= k <= s.len() - i,
    ensures
        find_from(s.subrange(i, s.len() as int), c, k) + i == find_from(s, c, i + k),
    decreases s.len() - i - k,
{
    if k < s.len() - i {
        lemma_find_shift_from(s, c, i, k + 1);
    }
}

// ── Source configuration ─────────────────────────────────────────────────────

/// `valid_repo`: exactly one `/`, both halves non-empty and free of
/// whitespace, `/` and `\`.
pub open spec fn valid_repo_spec(s: Seq<char>) -> bool {
    let k = find_from(s, '/', 0);
    &&& k < s.len()
    &&& 0 < k
    &&& k + 1 < s.len()
    &&& forall|i: int| 0 <= i < s.len() && i != k ==> #[trigger] repo_char_ok(s[i])
}

pub open spec fn repo_char_ok(c: char) -> bool {
    !is_ws(c) && c != '/' && c != '\\'
}

/// Validate an `owner/repo` slug.
pub fn valid_repo(repo: &str) -> (r: bool)
    ensures
        r == valid_repo_spec(repo@),
{
    let v = chars_of(repo);
    let k = find_in_range(&v, '/', 0, v.len());
    assert(v@.subrange(0, v@.len() as int) =~= v@);
    if k >= v.len() || k == 0 || k + 1 >= v.len() {
        return false;
    }
    let mut i: usize = 0;
    while i < v.len()
        invariant
            v@ == repo@,
            k < v@.len(),
            k == find_from(repo@, '/', 0),
            i <= v@.len(),
            forall|j: int| 0 <= j < i && j != k ==> #[trigger] repo_char_ok(v@[j]),
        decreases v@.len() - i,
    {
        if i != k {
            let c = v[i];
            if crate::text::is_whitespace(c) || c == '/' || c == '\\' {
                assert(!repo_char_ok(v@[i as int]));
                return false;
            }
        }
        i = i + 1;
    }
    true
}

/// A release asset name: non-empty, without `/` or whitespace.
pub open spec fn valid_asset_spec(s: Seq<char>) -> bool {
    s.len() > 0 && forall|i: int| 0 <= i < s.len() ==> #[trigger] asset_char_ok(s[i])
}

pub open spec fn asset_char_ok(c: char) -> bool {
    !is_ws(c) && c != '/'
}

/// Why `PUT …/update/config` is refused.
#[derive(Clone, Copy, Debug, PartialEq, Eq)]
pub enum SourceError {
    /// The repo is not `owner/name`.
    BadRepo,
    /// The asset is not a release file name.
    BadAsset,
}

/// `PUT …/update/config`: trim both fields and validate them, repo first.
pub fn validate_source(repo: &str, asset: &str) -> (r: Result<SourceConfig, SourceError>)
    ensures
        match r {
            Ok(c) => c.repo@ == trim(repo@) && c.asset@ == trim(asset@) && valid_repo_spec(
                trim(repo@),
            ) && valid_asset_spec(trim(asset@)),
            Err(SourceError::BadRepo) => !valid_repo_spec(trim(repo@)),
            Err(SourceError::BadAsset) => valid_repo_spec(trim(repo@)) && !valid_asset_spec(
                trim(asset@),
            ),
        },
{
    let rv = chars_of(repo);
    let (rlo, rhi) = trim_bounds(&rv, 0, rv.len());
    assert(rv@.subrange(0, rv@.len() as int) =~= rv@);
    let repo_t = string_of_range(&rv, rlo, rhi);
    if !valid_repo(repo_t.as_str()) {
        return Err(SourceError::BadRepo);
    }
    assert(valid_repo_spec(trim(repo@)));
    let av = chars_of(asset);
    let (alo, ahi) = trim_bounds(&av, 0, av.len());
    assert(av@.subrange(0, av@.len() as int) =~= av@);
    if alo == ahi {
        return Err(SourceError::BadAsset);
    }
    let mut i = alo;
    while i < ahi
        invariant
            valid_repo_spec(trim(repo@)),
            av@ == asset@,
            av@.subrange(alo as int, ahi as int) == trim(asset@),
            alo <= i <= ahi <= av@.len(),
            forall|j: int| alo <= j < i ==> #[trigger] asset_char_ok(av@[j]),
        decreases ahi - i,
    {
        let c = av[i];
        if crate::text::is_whitespace(c) || c == '/' {
            proof {
                let t = av@.subrange(alo as int, ahi as int);
                assert(t[i - alo] == c);
                assert(!asset_char_ok(t[i - alo]));
            }
            return Err(SourceError::BadAsset);
        }
        i = i + 1;
    }
    proof {
        let t = av@.subrange(alo as int, ahi as int);
        assert forall|j: int| 0 <= j < t.len() implies #[trigger] asset_char_ok(t[j]) by {
            assert(t[j] == av@[alo + j]);
        }
    }
    Ok(SourceConfig { repo: repo_t, asset: string_of_range(&av, alo, ahi) })
}

/// A persisted source field, trimmed, or `default` when absent or blank.
pub open spec fn pick_spec(stored: Option<Seq<char>>, default: Seq<char>) -> Seq<char> {
    match stored {
        Some(s) => if trim(s).len() > 0 {
            trim(s)
        } else {
            default
        },
        None => default,
    }
}

/// The persisted `(repo, asset)` source, falling back to the defaults when a
/// field is unset or blank (`row` is `None` when no config row exists).
pub fn load_source(row: Option<(Option<String>, Option<String>)>) -> (r: (String, String))
    ensures
        r.0@ == (match row {
            Some((repo, _)) => pick_spec(opt_str_view(repo), DEFAULT_REPO@),
            None => DEFAULT_REPO@,
        }),
        r.1@ == (match row {
            Some((_, asset)) => pick_spec(opt_str_view(asset), DEFAULT_ASSET@),
            None => DEFAULT_ASSET@,
        }),
{
    match row {
        Some((repo, asset)) => (pick(repo, DEFAULT_REPO), pick(asset, DEFAULT_ASSET)),
        None => (String::from_str(DEFAULT_REPO), String::from_str(DEFAULT_ASSET)),
    }
}

fn pick(stored: Option<String>, default: &str) -> (r: String)
    ensures
        r@ == pick_spec(opt_str_view(stored), default@),
{
    match stored {
        Some(s) => {
            let v = chars_of(s.as_str());
            let (lo, hi) = trim_bounds(&v, 0, v.len());
            assert(v@.subrange(0, v@.len() as int) =~= v@);
            if lo < hi {
                string_of_range(&v, lo, hi)
            } else {
                String::from_str(default)
            }
        },
        None => String::from_str(default),
    }
}

// ── Release resolution ───────────────────────────────────────────────────────

/// One release asset as GitHub lists it.
pub struct ReleaseAsset {
    pub name: String,
    pub browser_download_url: String,
}

/// Why resolving the latest release failed after GitHub answered.
#[derive(Clone, Debug, PartialEq, Eq)]
pub enum ReleaseError {
    /// The release has no asset of the configured name.
    MissingAsset,
    /// The tagged `build.gradle.kts` carries no version.
    NoVersion,
}

/// The download URL of the first asset named `wanted`.
pub fn find_asset_url(assets: &Vec<ReleaseAsset>, wanted: &str) -> (r: Option<String>)
    ensures
        match r {
            Some(u) => exists|i: int|
                0 <= i < assets@.len() && assets@[i].name@ == wanted@ && u@
                    == assets@[i].browser_download_url@ && forall|j: int|
                    0 <= j < i ==> #[trigger] assets@[j].name@ != wanted@,
            None => forall|i: int| 0 <= i < assets@.len() ==> #[trigger] assets@[i].name@ != wanted@,
        },
{
    let mut i: usize = 0;
    while i < assets.len()
        invariant
            i <= assets@.len(),
            forall|j: int| 0 <= j < i ==> #[trigger] assets@[j].name@ != wanted@,
        decreases assets@.len() - i,
    {
        if str_eq(assets[i].name.as_str(), wanted) {
            let u = assets[i].browser_download_url.clone();
            assert(assets@[i as int].name@ == wanted@);
            return Some(u);
        }
        i = i + 1;
    }
    None
}

/// Assemble the release once GitHub's release listing and the tagged
/// `build.gradle.kts` text are in hand: the configured asset's URL and the
/// parsed version, or the reason there is none (asset checked first).
pub fn resolve_release(tag: String, assets: &Vec<ReleaseAsset>, asset: &str, gradle: &str) -> (r:
    Result<RemoteRelease, ReleaseError>)
    ensures
        match r {
            Ok(rel) => rel.tag == tag && (exists|i: int|
                0 <= i < assets@.len() && assets@[i].name@ == asset@ && rel.apk_url@
                    == assets@[i].browser_download_url@ && forall|j: int|
                    0 <= j < i ==> #[trigger] assets@[j].name@ != asset@) && gradle_version_spec(
                gradle@,
            ) == Some((rel.version_code as int, rel.version_name@)),
            Err(ReleaseError::MissingAsset) => forall|i: int|
                0 <= i < assets@.len() ==> #[trigger] assets@[i].name@ != asset@,
            Err(ReleaseError::NoVersion) => (exists|i: int|
                0 <= i < assets@.len() && assets@[i].name@ == asset@) && gradle_version_spec(
                gradle@,
            ) is None,
        },
{
    let apk_url = match find_asset_url(assets, asset) {
        Some(u) => u,
        None => return Err(ReleaseError::MissingAsset),
    };
    match parse_gradle_version(gradle) {
        Some((version_code, version_name)) => Ok(
            RemoteRelease { tag, apk_url, version_code, version_name },
        ),
        None => Err(ReleaseError::NoVersion),
    }
}

/// `POST …/update` skips the download when the cache already holds this
/// version code (or a newer one) and the APK file is present.
pub fn cache_is_current(cached: Option<&UpdateManifest>, apk_present: bool, remote_code: i64) -> (r:
    bool)
    ensures
        r == (match cached {
            Some(m) => m.version_code >= remote_code && apk_present,
            None => false,
        }),
{
    match cached {
        Some(m) => m.version_code >= remote_code && apk_present,
        None => false,
    }
}

} // verus!
