//! Floor plans: the grid bounds every saved tile, wall, placement and room
//! region must respect, the refusal messages, the wire names of wall
//! directions and mounts, and which placed lights join which Room.
use vstd::prelude::*;
use crate::kiosks::{dec_digits, push_decimal};
use crate::text::{concat, push_char, push_str, trim, trimmed};

verus! {

/// The largest plan side, in tiles.
pub const MAX_DIM: i64 = 128;

/// A wall's direction: along a row (`H`) or a column (`V`).
#[derive(Clone, Copy, Debug, PartialEq, Eq, Structural)]
pub enum WallDir {
    H,
    V,
}

impl WallDir {
    pub fn as_str(self) -> (r: &'static str)
        ensures
            r@ == (match self {
                WallDir::H => "h"@,
                WallDir::V => "v"@,
            }),
    {
        match self {
            WallDir::H => "h",
            WallDir::V => "v",
        }
    }

    /// The direction a stored name denotes: "h" is a row wall, anything
    /// else a column wall.
    pub fn from_db(s: &str) -> (d: WallDir)
        ensures
            d == (if s@ == "h"@ {
                WallDir::H
            } else {
                WallDir::V
            }),
    {
        if crate::text::str_eq(s, "h") {
            WallDir::H
        } else {
            WallDir::V
        }
    }
}

/// Where a placed device is mounted on its tile: centre or one edge.
#[derive(Clone, Copy, Debug, PartialEq, Eq, Structural)]
pub enum Mount {
    C,
    N,
    S,
    E,
    W,
}

impl Mount {
    pub open spec fn text(self) -> Seq<char> {
        match self {
            Mount::C => "c"@,
            Mount::N => "n"@,
            Mount::S => "s"@,
            Mount::E => "e"@,
            Mount::W => "w"@,
        }
    }

    pub fn as_str(self) -> (r: &'static str)
        ensures
            r@ == self.text(),
    {
        match self {
            Mount::C => "c",
            Mount::N => "n",
            Mount::S => "s",
            Mount::E => "e",
            Mount::W => "w",
        }
    }

    /// The mount a stored name denotes; anything unknown is the centre.
    pub fn from_db(s: &str) -> (m: Mount)
        ensures
            m == (if s@ == "n"@ {
                Mount::N
            } else if s@ == "s"@ {
                Mount::S
            } else if s@ == "e"@ {
                Mount::E
            } else if s@ == "w"@ {
                Mount::W
            } else {
                Mount::C
            }),
    {
        if crate::text::str_eq(s, "n") {
            Mount::N
        } else if crate::text::str_eq(s, "s") {
            Mount::S
        } else if crate::text::str_eq(s, "e") {
            Mount::E
        } else if crate::text::str_eq(s, "w") {
            Mount::W
        } else {
            Mount::C
        }
    }
}

/// `as_str` and `from_db` are inverse: every mount reads back as itself.
pub proof fn lemma_mount_roundtrip(m: Mount)
    ensures
        (if m.text() == "n"@ {
            Mount::N
        } else if m.text() == "s"@ {
            Mount::S
        } else if m.text() == "e"@ {
            Mount::E
        } else if m.text() == "w"@ {
            Mount::W
        } else {
            Mount::C
        }) == m,
{
    reveal_strlit("n");
    reveal_strlit("s");
    reveal_strlit("e");
    reveal_strlit("w");
    reveal_strlit("c");
    assert("n"@[0] == 'n' && "s"@[0] == 's' && "e"@[0] == 'e' && "w"@[0] == 'w' && "c"@[0] == 'c');
    match m {
        Mount::C => {
            assert("c"@ != "n"@ && "c"@ != "s"@ && "c"@ != "e"@ && "c"@ != "w"@);
        },
        Mount::N => {},
        Mount::S => {
            assert("s"@ != "n"@);
        },
        Mount::E => {
            assert("e"@ != "n"@ && "e"@ != "s"@);
        },
        Mount::W => {
            assert("w"@ != "n"@ && "w"@ != "s"@ && "w"@ != "e"@);
        },
    }
}

/// A wall segment at grid point `(x, y)`.
#[derive(Clone, Copy, Debug, PartialEq, Eq, Structural)]
pub struct Wall {
    pub x: i64,
    pub y: i64,
    pub dir: WallDir,
}

pub open spec fn tile_in(x: int, y: int, width: int, height: int) -> bool {
    0 <= x < width && 0 <= y < height
}

/// A wall may reach the far boundary along its own direction (x == width
/// for a column wall, y == height for a row wall).
pub open spec fn wall_in(w: Wall, width: int, height: int) -> bool {
    let x_max = if w.dir == WallDir::V { width } else { width - 1 };
    let y_max = if w.dir == WallDir::H { height } else { height - 1 };
    0 <= w.x <= x_max && 0 <= w.y <= y_max
}

/// The first coordinate of a layout outside the grid: tiles first, then
/// walls.
pub open spec fn layout_out_of_bounds(tiles: Seq<(i64, i64)>, walls: Seq<Wall>, width: int, height: int) -> Option<(i64, i64)> {
    if exists|i: int| 0 <= i < tiles.len() && !tile_in((#[trigger] tiles[i]).0 as int, tiles[i].1 as int, width, height) {
        let i = choose|i: int| 0 <= i < tiles.len() && !tile_in((#[trigger] tiles[i]).0 as int, tiles[i].1 as int, width, height)
            && forall|j: int| 0 <= j < i ==> tile_in((#[trigger] tiles[j]).0 as int, tiles[j].1 as int, width, height);
        Some(tiles[i])
    } else if exists|i: int| 0 <= i < walls.len() && !wall_in(#[trigger] walls[i], width, height) {
        let i = choose|i: int| 0 <= i < walls.len() && !wall_in(#[trigger] walls[i], width, height)
            && forall|j: int| 0 <= j < i ==> wall_in(#[trigger] walls[j], width, height);
        Some((walls[i].x, walls[i].y))
    } else {
        None
    }
}

fn first_tile_out(tiles: &Vec<(i64, i64)>, width: i64, height: i64) -> (r: Option<usize>)
    ensures
        match r {
            Some(k) => k < tiles@.len() && !tile_in(tiles@[k as int].0 as int, tiles@[k as int].1 as int, width as int, height as int)
                && forall|j: int| 0 <= j < k ==> tile_in((#[trigger] tiles@[j]).0 as int, tiles@[j].1 as int, width as int, height as int),
            None => forall|j: int| 0 <= j < tiles@.len() ==> tile_in((#[trigger] tiles@[j]).0 as int, tiles@[j].1 as int, width as int, height as int),
        },
{
    let mut i: usize = 0;
    while i < tiles.len()
        invariant
            i <= tiles@.len(),
            forall|j: int| 0 <= j < i ==> tile_in((#[trigger] tiles@[j]).0 as int, tiles@[j].1 as int, width as int, height as int),
        decreases tiles@.len() - i,
    {
        let (x, y) = tiles[i];
        if !(0 <= x && x < width && 0 <= y && y < height) {
            return Some(i);
        }
        i = i + 1;
    }
    None
}

/// The first layout coordinate outside a `width` x `height` grid: a tile
/// outside it, else a wall beyond its reach.
pub fn first_out_of_bounds(tiles: &Vec<(i64, i64)>, walls: &Vec<Wall>, width: i64, height: i64) -> (r: Option<(i64, i64)>)
    requires
        width > i64::MIN,
        height > i64::MIN,
    ensures
        r == layout_out_of_bounds(tiles@, walls@, width as int, height as int),
{
    if let Some(k) = first_tile_out(tiles, width, height) {
        proof {
            let w = width as int;
            let h = height as int;
            let c = choose|i: int| 0 <= i < tiles@.len() && !tile_in((#[trigger] tiles@[i]).0 as int, tiles@[i].1 as int, w, h)
                && forall|j: int| 0 <= j < i ==> tile_in((#[trigger] tiles@[j]).0 as int, tiles@[j].1 as int, w, h);
            assert(tiles@[k as int] == tiles@[k as int]);
            if c < k {
                assert(tile_in(tiles@[c].0 as int, tiles@[c].1 as int, w, h));
            } else if c > k {
                assert(tile_in(tiles@[k as int].0 as int, tiles@[k as int].1 as int, w, h));
            }
        }
        return Some(tiles[k]);
    }
    match first_wall_out(walls, width, height) {
        Some(k) => {
            proof {
                let c = choose|c: int| 0 <= c < walls@.len() && !wall_in(#[trigger] walls@[c], width as int, height as int)
                    && forall|j: int| 0 <= j < c ==> wall_in(#[trigger] walls@[j], width as int, height as int);
                if c < k {
                    assert(wall_in(walls@[c], width as int, height as int));
                } else if c > k {
                    assert(wall_in(walls@[k as int], width as int, height as int));
                }
            }
            Some((walls[k].x, walls[k].y))
        },
        None => None,
    }
}

fn first_wall_out(walls: &Vec<Wall>, width: i64, height: i64) -> (r: Option<usize>)
    requires
        width > i64::MIN,
        height > i64::MIN,
    ensures
        match r {
            Some(k) => k < walls@.len() && !wall_in(walls@[k as int], width as int, height as int)
                && forall|j: int| 0 <= j < k ==> wall_in(#[trigger] walls@[j], width as int, height as int),
            None => forall|j: int| 0 <= j < walls@.len() ==> wall_in(#[trigger] walls@[j], width as int, height as int),
        },
{
    let mut i: usize = 0;
    while i < walls.len()
        invariant
            i <= walls@.len(),
            width > i64::MIN,
            height > i64::MIN,
            forall|j: int| 0 <= j < i ==> wall_in(#[trigger] walls@[j], width as int, height as int),
        decreases walls@.len() - i,
    {
        let w = walls[i];
        let x_max = if w.dir == WallDir::V {
            width
        } else {
            width - 1
        };
        let y_max = if w.dir == WallDir::H {
            height
        } else {
            height - 1
        };
        if !(0 <= w.x && w.x <= x_max && 0 <= w.y && w.y <= y_max) {
            return Some(i);
        }
        i = i + 1;
    }
    None
}

/// The decimal text of an integer.
pub open spec fn int_text(v: int) -> Seq<char> {
    if v < 0 {
        seq!['-'] + dec_digits((-v) as nat)
    } else {
        dec_digits(v as nat)
    }
}

/// Append the decimal text of `v`.
pub fn push_int(s: &mut String, v: i64)
    ensures
        final(s)@ == old(s)@ + int_text(v as int),
{
    if v < 0 {
        push_char(s, '-');
        let m = (0i128 - (v as i128)) as u64;
        push_decimal(s, m);
        assert(old(s)@ + int_text(v as int) =~= old(s)@.push('-') + dec_digits(m as nat));
    } else {
        push_decimal(s, v as u64);
    }
}

/// "`what` (x, y) is outside the `width`x`height` grid".
pub open spec fn outside_message(what: Seq<char>, x: int, y: int, width: int, height: int) -> Seq<char> {
    what + " ("@ + int_text(x) + ", "@ + int_text(y) + ") is outside the "@ + int_text(width) + "x"@ + int_text(height) + " grid"@
}

pub fn outside_grid_message(what: &str, x: i64, y: i64, width: i64, height: i64) -> (m: String)
    ensures
        m@ == outside_message(what@, x as int, y as int, width as int, height as int),
{
    let mut m = concat(what, " (");
    push_int(&mut m, x);
    push_str(&mut m, ", ");
    push_int(&mut m, y);
    push_str(&mut m, ") is outside the ");
    push_int(&mut m, width);
    push_str(&mut m, "x");
    push_int(&mut m, height);
    push_str(&mut m, " grid");
    m
}

/// Plan sides must each be 1 to `MAX_DIM` tiles.
pub open spec fn dims_ok(width: int, height: int) -> bool {
    1 <= width <= MAX_DIM && 1 <= height <= MAX_DIM
}

/// The refusal of a plan size, if any.
pub fn check_dims(width: i64, height: i64) -> (r: Option<String>)
    ensures
        dims_ok(width as int, height as int) ==> r is None,
        !dims_ok(width as int, height as int) ==> (r matches Some(m) && m@ == "width and height must be between 1 and 128"@),
{
    if 1 <= width && width <= MAX_DIM && 1 <= height && height <= MAX_DIM {
        None
    } else {
        Some("width and height must be between 1 and 128".to_owned())
    }
}

/// A new plan: its trimmed name, or the refusal of its name or size.
pub fn check_new_plan(name: &str, width: i64, height: i64) -> (r: Result<String, String>)
    ensures
        trim(name@).len() == 0 ==> (r matches Err(m) && m@ == "plan name is required"@),
        trim(name@).len() > 0 && !dims_ok(width as int, height as int) ==> (r matches Err(m) && m@ == "width and height must be between 1 and 128"@),
        trim(name@).len() > 0 && dims_ok(width as int, height as int) ==> (r matches Ok(n) && n@ == trim(name@)),
{
    let n = trimmed(name);
    if n.as_str().is_empty() {
        return Err("plan name is required".to_owned());
    }
    match check_dims(width, height) {
        Some(m) => Err(m),
        None => Ok(n),
    }
}

/// A light placement: its start tile and, for a strip, the later vertices.
pub struct PlacementVertices {
    pub x: i64,
    pub y: i64,
    pub points: Option<Vec<(i64, i64)>>,
}

/// Every vertex of a placement, start first.
pub open spec fn vertices(p: PlacementVertices) -> Seq<(i64, i64)> {
    seq![(p.x, p.y)] + match p.points {
        Some(v) => v@,
        None => Seq::empty(),
    }
}

/// The first vertex of a placement outside the grid, if any.
pub fn placement_out_of_bounds(p: &PlacementVertices, width: i64, height: i64) -> (r: Option<(i64, i64)>)
    ensures
        match r {
            Some(v) => exists|k: int| 0 <= k < vertices(*p).len() && vertices(*p)[k] == v
                && !tile_in(v.0 as int, v.1 as int, width as int, height as int)
                && forall|j: int| 0 <= j < k ==> tile_in((#[trigger] vertices(*p)[j]).0 as int, vertices(*p)[j].1 as int, width as int, height as int),
            None => forall|j: int| 0 <= j < vertices(*p).len() ==> tile_in((#[trigger] vertices(*p)[j]).0 as int, vertices(*p)[j].1 as int, width as int, height as int),
        },
{
    let ghost vs = vertices(*p);
    if !(0 <= p.x && p.x < width && 0 <= p.y && p.y < height) {
        assert(vs[0] == (p.x, p.y));
        return Some((p.x, p.y));
    }
    match &p.points {
        None => {
            assert(vs =~= seq![(p.x, p.y)]);
            None
        },
        Some(points) => {
            match first_tile_out(points, width, height) {
                Some(k) => {
                    assert(vs[k + 1] == points@[k as int]);
                    assert forall|j: int| 0 <= j < k + 1 implies tile_in((#[trigger] vs[j]).0 as int, vs[j].1 as int, width as int, height as int) by {
                        if j > 0 {
                            assert(vs[j] == points@[j - 1]);
                        }
                    }
                    Some(points[k])
                },
                None => {
                    assert forall|j: int| 0 <= j < vs.len() implies tile_in((#[trigger] vs[j]).0 as int, vs[j].1 as int, width as int, height as int) by {
                        if j > 0 {
                            assert(vs[j] == points@[j - 1]);
                        }
                    }
                    None
                },
            }
        },
    }
}

/// A room region as saved: its plan-room id (empty for a new one), name and
/// tiles.
pub struct PlanRoomInput {
    pub id: String,
    pub name: String,
    pub tiles: Vec<(i64, i64)>,
}

/// The refusal of a set of room regions: the first region, in order, with
/// a blank name or a tile outside the grid.
pub open spec fn rooms_error(rooms: Seq<PlanRoomInput>, width: int, height: int) -> Option<Seq<char>>
    decreases rooms.len(),
{
    if rooms.len() == 0 {
        None
    } else {
        match rooms_error(rooms.drop_last(), width, height) {
            Some(m) => Some(m),
            None => room_error(rooms.last(), width, height),
        }
    }
}

pub open spec fn room_error(r: PlanRoomInput, width: int, height: int) -> Option<Seq<char>> {
    if trim(r.name@).len() == 0 {
        Some("room name is required"@)
    } else if exists|i: int| 0 <= i < r.tiles@.len() && !tile_in((#[trigger] r.tiles@[i]).0 as int, r.tiles@[i].1 as int, width, height) {
        let i = choose|i: int| 0 <= i < r.tiles@.len() && !tile_in((#[trigger] r.tiles@[i]).0 as int, r.tiles@[i].1 as int, width, height)
            && forall|j: int| 0 <= j < i ==> tile_in((#[trigger] r.tiles@[j]).0 as int, r.tiles@[j].1 as int, width, height);
        Some(outside_message("room tile"@, r.tiles@[i].0 as int, r.tiles@[i].1 as int, width, height))
    } else {
        None
    }
}

fn check_room(r: &PlanRoomInput, width: i64, height: i64) -> (e: Option<String>)
    ensures
        match room_error(*r, width as int, height as int) {
            None => e is None,
            Some(m) => e matches Some(x) && x@ == m,
        },
{
    let n = trimmed(r.name.as_str());
    if n.as_str().is_empty() {
        return Some("room name is required".to_owned());
    }
    match first_tile_out(&r.tiles, width, height) {
        Some(k) => {
            proof {
                let w = width as int;
                let h = height as int;
                let c = choose|i: int| 0 <= i < r.tiles@.len() && !tile_in((#[trigger] r.tiles@[i]).0 as int, r.tiles@[i].1 as int, w, h)
                    && forall|j: int| 0 <= j < i ==> tile_in((#[trigger] r.tiles@[j]).0 as int, r.tiles@[j].1 as int, w, h);
                if c < k {
                    assert(tile_in(r.tiles@[c].0 as int, r.tiles@[c].1 as int, w, h));
                } else if c > k {
                    assert(tile_in(r.tiles@[k as int].0 as int, r.tiles@[k as int].1 as int, w, h));
                }
            }
            let (x, y) = r.tiles[k];
            Some(outside_grid_message("room tile", x, y, width, height))
        },
        None => None,
    }
}

/// Validate room regions before anything is stored.
pub fn validate_plan_rooms(rooms: &Vec<PlanRoomInput>, width: i64, height: i64) -> (r: Result<(), String>)
    ensures
        match rooms_error(rooms@, width as int, height as int) {
            None => r is Ok,
            Some(m) => r matches Err(x) && x@ == m,
        },
{
    let mut i: usize = 0;
    assert(rooms@.subrange(0, 0) =~= Seq::<PlanRoomInput>::empty());
    while i < rooms.len()
        invariant
            i <= rooms@.len(),
            rooms_error(rooms@.subrange(0, i as int), width as int, height as int) is None,
        decreases rooms@.len() - i,
    {
        let e = check_room(&rooms[i], width, height);
        proof {
            let next = rooms@.subrange(0, i + 1);
            assert(next.drop_last() =~= rooms@.subrange(0, i as int));
            assert(next.last() == rooms@[i as int]);
        }
        if let Some(m) = e {
            proof {
                lemma_rooms_error_prefix(rooms@, i as int + 1, width as int, height as int);
            }
            return Err(m);
        }
        i = i + 1;
    }
    assert(rooms@.subrange(0, rooms@.len() as int) =~= rooms@);
    Ok(())
}

/// Once a prefix of the regions is refused, so is the whole list, with the
/// same message.
proof fn lemma_rooms_error_prefix(rooms: Seq<PlanRoomInput>, k: int, width: int, height: int)
    requires
        0 <= k <= rooms.len(),
        rooms_error(rooms.subrange(0, k), width, height) is Some,
    ensures
        rooms_error(rooms, width, height) == rooms_error(rooms.subrange(0, k), width, height),
    decreases rooms.len() - k,
{
    if k < rooms.len() {
        let next = rooms.subrange(0, k + 1);
        assert(next.drop_last() =~= rooms.subrange(0, k));
        lemma_rooms_error_prefix(rooms, k + 1, width, height);
    } else {
        assert(rooms.subrange(0, k) =~= rooms);
    }
}

/// How a saved region binds to a Room.
#[derive(Debug, PartialEq, Eq)]
pub enum RoomBinding {
    /// The region keeps its Room; `rename` when the region's name changed.
    Keep { room_id: String, rename: bool },
    /// A new region (or one whose binding was lost): bind to the same-named
    /// Room if one exists, else create one.
    FindOrCreate,
}

/// The binding of a saved region, from what the plan had stored for its id
/// (`(name, room_id)`) and its new trimmed name.
pub fn room_binding(existing: Option<(String, Option<String>)>, name: &str) -> (r: RoomBinding)
    ensures
        match existing {
            Some((old_name, Some(rid))) => r matches RoomBinding::Keep { room_id, rename } && room_id@ == rid@ && rename == (old_name@ != name@),
            _ => r is FindOrCreate,
        },
{
    match existing {
        Some((old_name, Some(rid))) => {
            let rename = !crate::text::str_eq(old_name.as_str(), name);
            RoomBinding::Keep { room_id: rid, rename }
        },
        _ => RoomBinding::FindOrCreate,
    }
}

/// A bound region and its tiles; a placed light and its tile.
pub struct BoundRegion {
    pub room_id: Option<String>,
    pub tiles: Vec<(i64, i64)>,
}

pub struct PlacedLight {
    pub light_id: String,
    pub x: i64,
    pub y: i64,
}

/// The `(room, light)` pairs that add-on-save considers: each light placed
/// on a tile of a bound region, per region in order, then per placement.
pub open spec fn placed_pairs(regions: Seq<BoundRegion>, lights: Seq<PlacedLight>) -> Seq<(Seq<char>, Seq<char>)>
    decreases regions.len(),
{
    if regions.len() == 0 {
        Seq::empty()
    } else {
        placed_pairs(regions.drop_last(), lights) + region_pairs(regions.last(), lights)
    }
}

pub open spec fn region_pairs(r: BoundRegion, lights: Seq<PlacedLight>) -> Seq<(Seq<char>, Seq<char>)> {
    match r.room_id {
        None => Seq::empty(),
        Some(rid) => lights.filter(|p: PlacedLight| r.tiles@.contains((p.x, p.y))).map_values(|p: PlacedLight| (rid@, p.light_id@)),
    }
}

fn has_tile(tiles: &Vec<(i64, i64)>, x: i64, y: i64) -> (r: bool)
    ensures
        r == tiles@.contains((x, y)),
{
    let mut i: usize = 0;
    while i < tiles.len()
        invariant
            i <= tiles@.len(),
            forall|k: int| 0 <= k < i ==> tiles@[k] != (x, y),
        decreases tiles@.len() - i,
    {
        if tiles[i].0 == x && tiles[i].1 == y {
            assert(tiles@[i as int] == (x, y));
            return true;
        }
        i = i + 1;
    }
    false
}

fn region_candidates(r: &BoundRegion, lights: &Vec<PlacedLight>, out: &mut Vec<(String, String)>)
    ensures
        final(out)@.map_values(|e: (String, String)| (e.0@, e.1@)) == old(out)@.map_values(|e: (String, String)| (e.0@, e.1@)) + region_pairs(*r, lights@),
{
    let ghost start = out@.map_values(|e: (String, String)| (e.0@, e.1@));
    match &r.room_id {
        None => {
            assert(start + region_pairs(*r, lights@) =~= start);
        },
        Some(rid) => {
            let ghost pred = |p: PlacedLight| r.tiles@.contains((p.x, p.y));
            let mut i: usize = 0;
            proof {
                reveal(Seq::filter);
                assert(lights@.subrange(0, 0) =~= Seq::<PlacedLight>::empty());
                assert(start + lights@.subrange(0, 0).filter(pred).map_values(|p: PlacedLight| (rid@, p.light_id@)) =~= start);
            }
            while i < lights.len()
                invariant
                    i <= lights@.len(),
                    pred == (|p: PlacedLight| r.tiles@.contains((p.x, p.y))),
                    out@.map_values(|e: (String, String)| (e.0@, e.1@)) == start + lights@.subrange(0, i as int).filter(pred).map_values(|p: PlacedLight| (rid@, p.light_id@)),
                decreases lights@.len() - i,
            {
                let ghost before = out@;
                if has_tile(&r.tiles, lights[i].x, lights[i].y) {
                    out.push((rid.clone(), lights[i].light_id.clone()));
                }
                proof {
                    reveal(Seq::filter);
                    let next = lights@.subrange(0, i + 1);
                    assert(next.drop_last() =~= lights@.subrange(0, i as int));
                    assert(next.last() == lights@[i as int]);
                    let f0 = lights@.subrange(0, i as int).filter(pred);
                    if pred(lights@[i as int]) {
                        assert(next.filter(pred) == f0.push(lights@[i as int]));
                        assert(f0.push(lights@[i as int]).map_values(|p: PlacedLight| (rid@, p.light_id@)) =~= f0.map_values(|p: PlacedLight| (rid@, p.light_id@)).push((rid@, lights@[i as int].light_id@)));
                        assert(out@.map_values(|e: (String, String)| (e.0@, e.1@)) =~= before.map_values(|e: (String, String)| (e.0@, e.1@)).push((rid@, lights@[i as int].light_id@)));
                    } else {
                        assert(next.filter(pred) == f0);
                    }
                }
                i = i + 1;
            }
            assert(lights@.subrange(0, lights@.len() as int) =~= lights@);
        },
    }
}

/// The lights placed inside bound regions, as `(room_id, light_id)`
/// candidates for add-on-save membership.
pub fn placed_light_candidates(regions: &Vec<BoundRegion>, lights: &Vec<PlacedLight>) -> (r: Vec<(String, String)>)
    ensures
        r@.map_values(|e: (String, String)| (e.0@, e.1@)) == placed_pairs(regions@, lights@),
{
    let mut out: Vec<(String, String)> = Vec::new();
    let mut i: usize = 0;
    assert(regions@.subrange(0, 0) =~= Seq::<BoundRegion>::empty());
    assert(out@.map_values(|e: (String, String)| (e.0@, e.1@)) =~= Seq::<(Seq<char>, Seq<char>)>::empty());
    while i < regions.len()
        invariant
            i <= regions@.len(),
            out@.map_values(|e: (String, String)| (e.0@, e.1@)) == placed_pairs(regions@.subrange(0, i as int), lights@),
        decreases regions@.len() - i,
    {
        region_candidates(&regions[i], lights, &mut out);
        proof {
            let next = regions@.subrange(0, i + 1);
            assert(next.drop_last() =~= regions@.subrange(0, i as int));
            assert(next.last() == regions@[i as int]);
        }
        i = i + 1;
    }
    assert(regions@.subrange(0, regions@.len() as int) =~= regions@);
    out
}

} // verus!
