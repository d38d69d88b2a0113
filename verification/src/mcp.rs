//! Name resolution for the assistant tools: an id, an exact name or a name
//! substring (case-insensitively) picks one item; none or several give a
//! message the assistant can act on. Also the parsing of tool arguments.
use vstd::prelude::*;
use crate::palette_scenes::{hex_color_spec, parse_hex_color};
use crate::routing::TransportCmd;
use crate::text::{concat, contains_sub, lowercase, push_str, str_contains, str_eq, to_lower, trim, trimmed};

verus! {

/// An item the assistant can name: its id and display name.
pub struct Named {
    pub id: String,
    pub name: String,
}

/// `parts` joined with `sep` between consecutive entries.
pub open spec fn join_with(parts: Seq<Seq<char>>, sep: Seq<char>) -> Seq<char>
    decreases parts.len(),
{
    if parts.len() == 0 {
        Seq::empty()
    } else if parts.len() == 1 {
        parts[0]
    } else {
        join_with(parts.drop_last(), sep) + sep + parts.last()
    }
}

/// An item as `(id, name)`.
pub type NamedView = (Seq<char>, Seq<char>);

pub open spec fn item_views(items: Seq<Named>) -> Seq<NamedView> {
    items.map_values(|n: Named| (n.id@, n.name@))
}

pub open spec fn names_of(items: Seq<NamedView>) -> Seq<Seq<char>> {
    items.map_values(|n: NamedView| n.1)
}

/// The names of `items` joined with ", ", or "(none)" for no items.
pub open spec fn join_names_spec(items: Seq<NamedView>) -> Seq<char> {
    if items.len() == 0 {
        "(none)"@
    } else {
        join_with(names_of(items), ", "@)
    }
}

fn join_strings(parts: &Vec<String>, sep: &str) -> (r: String)
    ensures
        r@ == join_with(parts@.map_values(|s: String| s@), sep@),
{
    let ghost ps = parts@.map_values(|s: String| s@);
    let mut acc = String::new();
    if parts.len() == 0 {
        assert(acc@ =~= Seq::<char>::empty());
        return acc;
    }
    acc = parts[0].clone();
    let mut k: usize = 1;
    assert(ps.subrange(0, 1).drop_last() =~= Seq::<Seq<char>>::empty());
    while k < parts.len()
        invariant
            1 <= k <= parts@.len(),
            ps == parts@.map_values(|s: String| s@),
            acc@ == join_with(ps.subrange(0, k as int), sep@),
        decreases parts@.len() - k,
    {
        push_str(&mut acc, sep);
        push_str(&mut acc, parts[k].as_str());
        proof {
            let next = ps.subrange(0, k + 1);
            assert(next.drop_last() =~= ps.subrange(0, k as int));
            assert(next.last() == parts@[k as int]@);
        }
        k = k + 1;
    }
    assert(ps.subrange(0, parts@.len() as int) =~= ps);
    acc
}

/// The display names of `items`, joined with ", ", or "(none)" when there
/// are none.
pub fn join_names(items: &Vec<Named>) -> (r: String)
    ensures
        r@ == join_names_spec(item_views(items@)),
{
    if items.len() == 0 {
        return "(none)".to_owned();
    }
    let mut names: Vec<String> = Vec::new();
    let mut i: usize = 0;
    while i < items.len()
        invariant
            i <= items@.len(),
            names@.len() == i,
            forall|k: int| 0 <= k < i ==> (#[trigger] names@[k])@ == items@[k].name@,
        decreases items@.len() - i,
    {
        names.push(items[i].name.clone());
        i = i + 1;
    }
    assert(names@.map_values(|s: String| s@) =~= names_of(item_views(items@)));
    join_strings(&names, ", ")
}

/// Whether `n`'s lower-cased name is `q`.
pub open spec fn name_is(n: NamedView, q: Seq<char>) -> bool {
    lowercase(n.1) == q
}

/// Whether `n`'s lower-cased name contains `q`.
pub open spec fn name_has(n: NamedView, q: Seq<char>) -> bool {
    contains_sub(lowercase(n.1), q)
}

/// The items an unmatched id falls back to: those whose lower-cased name is
/// `q`, else those whose lower-cased name contains it.
pub open spec fn name_matches(items: Seq<NamedView>, q: Seq<char>) -> Seq<NamedView> {
    let exact = items.filter(|n: NamedView| name_is(n, q));
    if exact.len() > 0 {
        exact
    } else {
        items.filter(|n: NamedView| name_has(n, q))
    }
}

/// Whether `r` is the first item whose id is `query`.
pub open spec fn first_id_match(items: Seq<NamedView>, query: Seq<char>, r: int) -> bool {
    0 <= r < items.len() && items[r].0 == query && forall|j: int| 0 <= j < r ==> (#[trigger] items[j]).0 != query
}

/// What resolving `query` against `items` gives: the first item with that
/// exact id; else, with `q` the trimmed, lower-cased query, the one item
/// whose name matches `q` (exactly, else as a substring); else a message
/// naming what is available or what the query is ambiguous between.
pub open spec fn resolve_spec(kind: Seq<char>, query: Seq<char>, items: Seq<NamedView>) -> Result<Seq<char>, Seq<char>> {
    if exists|r: int| first_id_match(items, query, r) {
        Ok(items[choose|r: int| first_id_match(items, query, r)].0)
    } else {
        let m = name_matches(items, lowercase(trim(query)));
        if m.len() == 1 {
            Ok(m[0].0)
        } else if m.len() == 0 {
            Err("no "@ + kind + " matching '"@ + query + "'. Available: "@ + join_names_spec(items))
        } else {
            Err("'"@ + query + "' is ambiguous — it matches: "@ + join_with(names_of(m), ", "@))
        }
    }
}

fn find_id(items: &Vec<Named>, query: &str) -> (r: Option<usize>)
    ensures
        match r {
            Some(k) => first_id_match(item_views(items@), query@, k as int),
            None => !exists|k: int| first_id_match(item_views(items@), query@, k),
        },
{
    let mut i: usize = 0;
    while i < items.len()
        invariant
            i <= items@.len(),
            forall|j: int| 0 <= j < i ==> (#[trigger] item_views(items@)[j]).0 != query@,
        decreases items@.len() - i,
    {
        if str_eq(items[i].id.as_str(), query) {
            assert(item_views(items@)[i as int].0 == query@);
            return Some(i);
        }
        assert(item_views(items@)[i as int].0 != query@);
        i = i + 1;
    }
    proof {
        if exists|k: int| first_id_match(item_views(items@), query@, k) {
            let k = choose|k: int| first_id_match(item_views(items@), query@, k);
            assert(item_views(items@)[k].0 != query@);
        }
    }
    None
}

/// The indices of the items whose lower-cased name is `q` (`exact`) or
/// contains `q` (otherwise).
fn match_indices(items: &Vec<Named>, q: &String, exact: bool) -> (r: Vec<usize>)
    ensures
        exact ==> r@.map_values(|k: usize| item_views(items@)[k as int]) == item_views(items@).filter(|n: NamedView| name_is(n, q@)),
        !exact ==> r@.map_values(|k: usize| item_views(items@)[k as int]) == item_views(items@).filter(|n: NamedView| name_has(n, q@)),
        forall|j: int| 0 <= j < r@.len() ==> #[trigger] r@[j] < items@.len(),
{
    let ghost vs = item_views(items@);
    let ghost pred = if exact {
        |n: NamedView| name_is(n, q@)
    } else {
        |n: NamedView| name_has(n, q@)
    };
    let mut r: Vec<usize> = Vec::new();
    let mut i: usize = 0;
    proof {
        reveal(Seq::filter);
        assert(vs.subrange(0, 0) =~= Seq::<NamedView>::empty());
        assert(r@.map_values(|k: usize| vs[k as int]) =~= Seq::<NamedView>::empty());
    }
    while i < items.len()
        invariant
            i <= items@.len(),
            vs == item_views(items@),
            pred == (if exact {
                |n: NamedView| name_is(n, q@)
            } else {
                |n: NamedView| name_has(n, q@)
            }),
            r@.map_values(|k: usize| vs[k as int]) == vs.subrange(0, i as int).filter(pred),
            forall|j: int| 0 <= j < r@.len() ==> #[trigger] r@[j] < i,
        decreases items@.len() - i,
    {
        let lname = to_lower(items[i].name.as_str());
        let hit = if exact {
            str_eq(lname.as_str(), q.as_str())
        } else {
            str_contains(lname.as_str(), q.as_str())
        };
        let ghost before = r@;
        if hit {
            r.push(i);
        }
        proof {
            reveal(Seq::filter);
            let next = vs.subrange(0, i + 1);
            assert(next.drop_last() =~= vs.subrange(0, i as int));
            assert(next.last() == vs[i as int]);
            assert(vs[i as int].1 == items@[i as int].name@);
            assert(hit == pred(vs[i as int]));
            if hit {
                assert(r@.map_values(|k: usize| vs[k as int]) =~= before.map_values(|k: usize| vs[k as int]).push(vs[i as int]));
            } else {
                assert(r@ == before);
            }
        }
        i = i + 1;
    }
    assert(vs.subrange(0, items@.len() as int) =~= vs);
    r
}

/// Resolve `query` against `items`: exact id, then exact name, then name
/// substring (names compared case-insensitively, the query trimmed). No or
/// an ambiguous match gives the message the assistant reads.
pub fn resolve(kind: &str, query: &str, items: &Vec<Named>) -> (r: Result<String, String>)
    ensures
        match r {
            Ok(id) => resolve_spec(kind@, query@, item_views(items@)) == Ok::<Seq<char>, Seq<char>>(id@),
            Err(m) => resolve_spec(kind@, query@, item_views(items@)) == Err::<Seq<char>, Seq<char>>(m@),
        },
{
    if let Some(k) = find_id(items, query) {
        proof {
            let vs = item_views(items@);
            let c = choose|r: int| first_id_match(vs, query@, r);
            if c < k {
                assert(vs[c].0 != query@);
            } else if c > k {
                assert(vs[k as int].0 != query@);
            }
        }
        return Ok(items[k].id.clone());
    }
    let t = trimmed(query);
    let q = to_lower(t.as_str());
    let exact = match_indices(items, &q, true);
    let m = if exact.len() > 0 {
        exact
    } else {
        match_indices(items, &q, false)
    };
    let ghost vs = item_views(items@);
    let ghost ms = m@.map_values(|k: usize| vs[k as int]);
    assert(ms == name_matches(vs, lowercase(trim(query@))));
    if m.len() == 1 {
        return Ok(items[m[0]].id.clone());
    }
    if m.len() == 0 {
        let mut msg = concat("no ", kind);
        push_str(&mut msg, " matching '");
        push_str(&mut msg, query);
        push_str(&mut msg, "'. Available: ");
        let names = join_names(items);
        push_str(&mut msg, names.as_str());
        return Err(msg);
    }
    let mut names: Vec<String> = Vec::new();
    let mut j: usize = 0;
    while j < m.len()
        invariant
            j <= m@.len(),
            forall|x: int| 0 <= x < m@.len() ==> #[trigger] m@[x] < items@.len(),
            vs == item_views(items@),
            names@.len() == j,
            forall|x: int| 0 <= x < j ==> (#[trigger] names@[x])@ == items@[m@[x] as int].name@,
        decreases m@.len() - j,
    {
        names.push(items[m[j]].name.clone());
        j = j + 1;
    }
    assert(names@.map_values(|s: String| s@) =~= names_of(ms));
    let mut msg = concat("'", query);
    push_str(&mut msg, "' is ambiguous — it matches: ");
    let joined = join_strings(&names, ", ");
    push_str(&mut msg, joined.as_str());
    Err(msg)
}

/// One saved favorite of a media device.
pub struct MediaFavorite {
    pub id: String,
    pub title: String,
    pub subtitle: Option<String>,
}

pub open spec fn favorite_views(favs: Seq<MediaFavorite>) -> Seq<NamedView> {
    favs.map_values(|f: MediaFavorite| (f.id@, f.title@))
}

/// Resolve a favorite as `resolve` does an item: by id, exact title, then
/// title substring.
pub fn resolve_favorite(query: &str, favs: &Vec<MediaFavorite>) -> (r: Result<String, String>)
    ensures
        match r {
            Ok(id) => resolve_spec("favorite"@, query@, favorite_views(favs@)) == Ok::<Seq<char>, Seq<char>>(id@),
            Err(m) => resolve_spec("favorite"@, query@, favorite_views(favs@)) == Err::<Seq<char>, Seq<char>>(m@),
        },
{
    let mut items: Vec<Named> = Vec::new();
    let mut i: usize = 0;
    while i < favs.len()
        invariant
            i <= favs@.len(),
            items@.len() == i,
            forall|k: int| 0 <= k < i ==> (#[trigger] items@[k]).id@ == favs@[k].id@ && items@[k].name@ == favs@[k].title@,
        decreases favs@.len() - i,
    {
        items.push(Named { id: favs[i].id.clone(), name: favs[i].title.clone() });
        i = i + 1;
    }
    assert(item_views(items@) =~= favorite_views(favs@));
    resolve("favorite", query, &items)
}

/// The transport command a (trimmed, case-insensitive) word names.
pub open spec fn transport_spec(t: Seq<char>) -> Option<TransportCmd> {
    let w = lowercase(trim(t));
    if w == "play"@ {
        Some(TransportCmd::Play)
    } else if w == "pause"@ {
        Some(TransportCmd::Pause)
    } else if w == "stop"@ {
        Some(TransportCmd::Stop)
    } else if w == "next"@ {
        Some(TransportCmd::Next)
    } else if w == "previous"@ {
        Some(TransportCmd::Previous)
    } else if w == "toggle"@ {
        Some(TransportCmd::Toggle)
    } else {
        None
    }
}

/// Parse a transport word: play, pause, stop, next, previous or toggle.
pub fn parse_transport(t: &str) -> (r: Option<TransportCmd>)
    ensures
        r == transport_spec(t@),
{
    let tt = trimmed(t);
    let w = to_lower(tt.as_str());
    let s = w.as_str();
    if str_eq(s, "play") {
        Some(TransportCmd::Play)
    } else if str_eq(s, "pause") {
        Some(TransportCmd::Pause)
    } else if str_eq(s, "stop") {
        Some(TransportCmd::Stop)
    } else if str_eq(s, "next") {
        Some(TransportCmd::Next)
    } else if str_eq(s, "previous") {
        Some(TransportCmd::Previous)
    } else if str_eq(s, "toggle") {
        Some(TransportCmd::Toggle)
    } else {
        None
    }
}

/// The message for a transport word that names no command.
pub fn unknown_transport_message(t: &str) -> (m: String)
    ensures
        m@ == "unknown transport command '"@ + t@ + "'; use play, pause, stop, next, previous or toggle"@,
{
    let mut m = concat("unknown transport command '", t);
    push_str(&mut m, "'; use play, pause, stop, next, previous or toggle");
    m
}

/// The parts of a light-state tool call that need no floating point: the
/// power (omitted means on), the colour parsed from "#rrggbb", and the
/// effect (an empty name means none). A colour that does not parse is
/// refused with the message the assistant reads.
pub fn light_args(on: Option<bool>, color: Option<String>, effect: Option<String>) -> (r: Result<(bool, Option<(u8, u8, u8)>, Option<String>), String>)
    ensures
        match color {
            Some(hex) if hex_color_spec(hex@) is None => r matches Err(m) && m@ == "invalid hex color '"@ + hex@ + "'; use e.g. #ff8800"@,
            _ => r matches Ok((o, c, e)) && o == (match on { Some(b) => b, None => true })
                && c == (match color { Some(hex) => hex_color_spec(hex@), None => None })
                && e == (match effect { Some(x) => if x@.len() == 0 { None } else { Some(x) }, None => None }),
        },
{
    let rgb = match &color {
        None => None,
        Some(hex) => match parse_hex_color(hex.as_str()) {
            Some(c) => Some(c),
            None => {
                let mut m = concat("invalid hex color '", hex.as_str());
                push_str(&mut m, "'; use e.g. #ff8800");
                return Err(m);
            },
        },
    };
    let o = match on {
        Some(b) => b,
        None => true,
    };
    let e = match effect {
        Some(x) => if x.as_str().is_empty() {
            None
        } else {
            Some(x)
        },
        None => None,
    };
    Ok((o, rgb, e))
}

// ── Tool arguments ───────────────────────────────────────────────────────────

/// Activate a scene by id or name.
pub struct ActivateSceneRequest {
    pub scene: String,
}

/// Save a room's current state as a named scene.
pub struct SaveRoomSceneRequest {
    pub room: String,
    pub name: String,
}

/// Save the whole home's current state as a named scene.
pub struct SaveHomeSceneRequest {
    pub name: String,
}

/// Control a media device; only the given fields are sent.
pub struct SetMediaRequest {
    pub device: String,
    pub power: Option<bool>,
    pub volume: Option<u8>,
    pub mute: Option<bool>,
    pub source: Option<String>,
    pub transport: Option<String>,
}

impl SetMediaRequest {
    /// The command this request sends: its fields as given, the transport
    /// word parsed; an unknown transport word is refused with the message
    /// the assistant reads.
    pub fn into_command(self) -> (r: Result<crate::routing::MediaCommand, String>)
        ensures
            match self.transport {
                Some(t) => match transport_spec(t@) {
                    Some(cmd) => r matches Ok(c) && c.transport == Some(cmd) && c.power == self.power
                        && c.volume == self.volume && c.mute == self.mute && c.source == self.source,
                    None => r matches Err(m) && m@ == "unknown transport command '"@ + t@ + "'; use play, pause, stop, next, previous or toggle"@,
                },
                None => r matches Ok(c) && c.transport is None && c.power == self.power
                    && c.volume == self.volume && c.mute == self.mute && c.source == self.source,
            },
    {
        let transport = match &self.transport {
            None => None,
            Some(t) => match parse_transport(t.as_str()) {
                Some(cmd) => Some(cmd),
                None => return Err(unknown_transport_message(t.as_str())),
            },
        };
        Ok(crate::routing::MediaCommand { power: self.power, volume: self.volume, mute: self.mute, source: self.source, transport })
    }
}

/// Name one media device.
pub struct MediaDeviceRequest {
    pub device: String,
}

/// Play one of a media device's favorites.
pub struct PlayFavoriteRequest {
    pub device: String,
    pub favorite: String,
}

/// Cast provider-native content to a media device.
pub struct CastMediaRequest {
    pub device: String,
    pub content_id: String,
    pub content_type: String,
}

/// Join speakers into a synced group under a coordinator.
pub struct GroupSpeakersRequest {
    pub speakers: Vec<String>,
    pub coordinator: String,
}

/// Bind a source to a receiver (or unbind it with no receiver).
pub struct BindReceiverRequest {
    pub device: String,
    pub receiver: Option<String>,
    pub receiver_source: Option<String>,
}

/// Turn a power device on or off.
pub struct SetPowerRequest {
    pub device: String,
    pub on: bool,
}

/// Press one key on a remote.
pub struct PressRemoteKeyRequest {
    pub device: String,
    pub key: String,
}

/// Launch an app on a remote.
pub struct LaunchAppRequest {
    pub device: String,
    pub app: String,
}

/// Play something on a TV, in natural language.
pub struct PlayOnRequest {
    pub device: String,
    pub query: String,
}

/// The text a speaker's grouping outcome is reported with.
pub fn group_result_text(o: crate::media::GroupOutcome) -> (r: Option<String>)
    ensures
        match o {
            crate::media::GroupOutcome::Done => r matches Some(m) && m@ == "ok"@,
            crate::media::GroupOutcome::NotFound => r matches Some(m) && m@ == "not found"@,
            crate::media::GroupOutcome::BadRequest(x) => r matches Some(m) && m@ == x@,
            crate::media::GroupOutcome::Unreachable => r matches Some(m) && m@ == "unreachable"@,
            crate::media::GroupOutcome::Db => r is None,
        },
{
    match o {
        crate::media::GroupOutcome::Done => Some("ok".to_owned()),
        crate::media::GroupOutcome::NotFound => Some("not found".to_owned()),
        crate::media::GroupOutcome::BadRequest(x) => Some(x),
        crate::media::GroupOutcome::Unreachable => Some("unreachable".to_owned()),
        crate::media::GroupOutcome::Db => None,
    }
}

} // verus!
