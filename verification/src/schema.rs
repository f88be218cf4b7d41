//! The RPG module's region geometry and layer bodies. Coordinates are
//! zero-based, `x` to the right, `y` down; a tile is `(x, y)`. A region has
//! a terrain layer (one glyph per tile) and a collision layer (`#` solid,
//! `.` walkable) derived from the terrain, with explicit per-tile overrides
//! that survive later terrain paints.

use vstd::prelude::*;

use crate::ir::RelPath;
use crate::reference::{lemma_split_join, lemma_split_single, object_of_path, split_on};
use crate::text::{chars_equal, chars_of, push_str};

verus! {

pub const OWNER_MODULE: &'static str = "systole.rpg";
pub const MAX_REGION_DIMENSION: u32 = 256;
pub const MAX_HANDLE_LEN: usize = 64;

/// Cardinal facing for placements and entities.
#[derive(Clone, Copy, PartialEq, Eq, Debug, Structural)]
pub enum Facing {
    Down,
    Up,
    Left,
    Right,
}

impl Facing {
    /// The default facing, `down`.
    pub fn default_facing() -> (res: Facing)
        ensures
            res == Facing::Down,
    {
        Facing::Down
    }

    /// The lowercase wire name.
    pub fn name(&self) -> (res: &'static str)
        ensures
            res@ == facing_name(*self),
    {
        match self {
            Facing::Down => "down",
            Facing::Up => "up",
            Facing::Left => "left",
            Facing::Right => "right",
        }
    }
}

pub open spec fn facing_name(f: Facing) -> Seq<char> {
    match f {
        Facing::Down => "down"@,
        Facing::Up => "up"@,
        Facing::Left => "left"@,
        Facing::Right => "right"@,
    }
}

/// The five Release-0 terrain kinds. `wall` and `water` are solid by default;
/// the rest are walkable.
#[derive(Clone, Copy, PartialEq, Eq, Debug, Structural)]
pub enum Terrain {
    Grass,
    Floor,
    Path,
    Wall,
    Water,
}

pub open spec fn terrain_kind(t: Terrain) -> Seq<char> {
    match t {
        Terrain::Grass => "grass"@,
        Terrain::Floor => "floor"@,
        Terrain::Path => "path"@,
        Terrain::Wall => "wall"@,
        Terrain::Water => "water"@,
    }
}

pub open spec fn terrain_of_kind(kind: Seq<char>) -> Option<Terrain> {
    if kind == "grass"@ {
        Some(Terrain::Grass)
    } else if kind == "floor"@ {
        Some(Terrain::Floor)
    } else if kind == "path"@ {
        Some(Terrain::Path)
    } else if kind == "wall"@ {
        Some(Terrain::Wall)
    } else if kind == "water"@ {
        Some(Terrain::Water)
    } else {
        None
    }
}

pub open spec fn terrain_glyph(t: Terrain) -> char {
    match t {
        Terrain::Grass => '.',
        Terrain::Floor => ':',
        Terrain::Path => '-',
        Terrain::Wall => '#',
        Terrain::Water => '~',
    }
}

/// A terrain glyph is solid iff its kind is wall or water (the legend is
/// fixed, so glyph and kind are interchangeable).
pub open spec fn is_solid_glyph(glyph: char) -> bool {
    glyph == '#' || glyph == '~'
}

impl Terrain {
    pub fn from_kind(kind: &str) -> (res: Option<Terrain>)
        ensures
            res == terrain_of_kind(kind@),
    {
        let k = chars_of(kind);
        if chars_equal(&k, &chars_of("grass")) {
            Some(Terrain::Grass)
        } else if chars_equal(&k, &chars_of("floor")) {
            Some(Terrain::Floor)
        } else if chars_equal(&k, &chars_of("path")) {
            Some(Terrain::Path)
        } else if chars_equal(&k, &chars_of("wall")) {
            Some(Terrain::Wall)
        } else if chars_equal(&k, &chars_of("water")) {
            Some(Terrain::Water)
        } else {
            None
        }
    }

    pub fn kind(self) -> (res: &'static str)
        ensures
            res@ == terrain_kind(self),
    {
        match self {
            Terrain::Grass => "grass",
            Terrain::Floor => "floor",
            Terrain::Path => "path",
            Terrain::Wall => "wall",
            Terrain::Water => "water",
        }
    }

    pub fn glyph(self) -> (res: char)
        ensures
            res == terrain_glyph(self),
    {
        match self {
            Terrain::Grass => '.',
            Terrain::Floor => ':',
            Terrain::Path => '-',
            Terrain::Wall => '#',
            Terrain::Water => '~',
        }
    }

    pub fn solid(self) -> (res: bool)
        ensures
            res == (self == Terrain::Wall || self == Terrain::Water),
    {
        match self {
            Terrain::Wall | Terrain::Water => true,
            _ => false,
        }
    }
}

/// A kind's glyph is solid exactly when the kind is.
pub proof fn law_glyph_solidity_matches_kind(t: Terrain)
    ensures
        is_solid_glyph(terrain_glyph(t)) == (t == Terrain::Wall || t == Terrain::Water),
        terrain_of_kind(terrain_kind(t)) == Some(t),
{
    reveal_strlit("grass");
    reveal_strlit("floor");
    reveal_strlit("path");
    reveal_strlit("wall");
    reveal_strlit("water");
    assert("grass"@[0] == 'g' && "floor"@[0] == 'f' && "path"@[0] == 'p' && "wall"@[1] == 'a' && "water"@[1] == 'a');
    assert("wall"@.len() == 4 && "water"@.len() == 5);
    assert("path"@ != "grass"@ && "path"@ != "floor"@);
    assert("wall"@ != "grass"@ && "wall"@ != "floor"@ && "wall"@ != "path"@);
    assert("water"@ != "grass"@ && "water"@ != "floor"@ && "water"@ != "path"@ && "water"@ != "wall"@);
    assert("floor"@ != "grass"@);
}

pub fn glyph_solid(glyph: char) -> (res: bool)
    ensures
        res == is_solid_glyph(glyph),
{
    glyph == '#' || glyph == '~'
}

pub open spec fn is_lower(b: u8) -> bool {
    0x61 <= b <= 0x7a
}

pub open spec fn is_handle_byte(b: u8) -> bool {
    is_lower(b) || (0x30 <= b <= 0x39) || b == 0x5f
}

/// The handle grammar `^[a-z][a-z0-9_]{0,63}$`, over the UTF-8 bytes.
pub open spec fn is_valid_handle(bytes: Seq<u8>) -> bool {
    &&& bytes.len() > 0
    &&& bytes.len() <= 64
    &&& is_lower(bytes[0])
    &&& forall|i: int| 0 <= i < bytes.len() ==> #[trigger] is_handle_byte(bytes[i])
}

/// Handles match `^[a-z][a-z0-9_]{0,63}$`.
pub fn valid_handle(id: &str) -> (res: bool)
    ensures
        res == is_valid_handle(vstd::utf8::encode_utf8(id@)),
{
    let bytes = id.as_bytes();
    let ghost b = bytes@;
    assert(b == vstd::utf8::encode_utf8(id@));
    if bytes.len() == 0 || bytes.len() > MAX_HANDLE_LEN {
        return false;
    }
    let first = bytes[0];
    if !(first >= 0x61 && first <= 0x7a) {
        assert(b[0] == first);
        assert(!is_lower(b[0]));
        return false;
    }
    let mut i: usize = 0;
    while i < bytes.len()
        invariant
            i <= bytes.len(),
            b == bytes@,
            b == vstd::utf8::encode_utf8(id@),
            forall|j: int| 0 <= j < i ==> #[trigger] is_handle_byte(b[j]),
        decreases bytes.len() - i,
    {
        let c = bytes[i];
        if !((c >= 0x61 && c <= 0x7a) || (c >= 0x30 && c <= 0x39) || c == 0x5f) {
            assert(!is_handle_byte(b[i as int]));
            return false;
        }
        i = i + 1;
    }
    true
}

pub open spec fn region_path_text(stable_id: Seq<char>) -> Seq<char> {
    "regions/"@ + stable_id + "/region.json"@
}

pub open spec fn terrain_path_text(stable_id: Seq<char>) -> Seq<char> {
    "regions/"@ + stable_id + "/layers/terrain.json"@
}

pub open spec fn collision_path_text(stable_id: Seq<char>) -> Seq<char> {
    "regions/"@ + stable_id + "/layers/collision.json"@
}

pub open spec fn npc_path_text(stable_id: Seq<char>) -> Seq<char> {
    "entities/npc/"@ + stable_id + ".json"@
}

/// A region's file path names that region: the object the path declares is
/// `(stable_id, region)`, for a stable id without `/`.
pub proof fn law_region_path_round_trip(stable_id: Seq<char>)
    requires
        !stable_id.contains('/'),
    ensures
        object_of_path(region_path_text(stable_id)) == Some((stable_id, "region"@)),
{
    reveal_strlit("regions/");
    reveal_strlit("/region.json");
    reveal_strlit("regions");
    reveal_strlit("region.json");
    let head = "regions"@;
    let tail = "region.json"@;
    assert(region_path_text(stable_id) =~= head.push('/') + (stable_id.push('/') + tail));
    lemma_split_join(head, stable_id.push('/') + tail, '/');
    lemma_split_join(stable_id, tail, '/');
    assert(!head.contains('/')) by {
        if head.contains('/') {
            let k = choose|k: int| 0 <= k < head.len() && head[k] == '/';
        }
    }
    assert(!tail.contains('/')) by {
        if tail.contains('/') {
            let k = choose|k: int| 0 <= k < tail.len() && tail[k] == '/';
        }
    }
    lemma_split_single(head, '/');
    lemma_split_single(tail, '/');
    lemma_split_single(stable_id, '/');
    let segs = split_on(region_path_text(stable_id), '/');
    assert(segs =~= seq![head, stable_id, tail]);
}

pub fn region_path(stable_id: &str) -> (res: RelPath)
    ensures
        res@ == region_path_text(stable_id@),
{
    let mut out: Vec<char> = Vec::new();
    push_str(&mut out, "regions/");
    push_str(&mut out, stable_id);
    push_str(&mut out, "/region.json");
    RelPath::from_chars(&out)
}

pub fn terrain_path(stable_id: &str) -> (res: RelPath)
    ensures
        res@ == terrain_path_text(stable_id@),
{
    let mut out: Vec<char> = Vec::new();
    push_str(&mut out, "regions/");
    push_str(&mut out, stable_id);
    push_str(&mut out, "/layers/terrain.json");
    RelPath::from_chars(&out)
}

pub fn collision_path(stable_id: &str) -> (res: RelPath)
    ensures
        res@ == collision_path_text(stable_id@),
{
    let mut out: Vec<char> = Vec::new();
    push_str(&mut out, "regions/");
    push_str(&mut out, stable_id);
    push_str(&mut out, "/layers/collision.json");
    RelPath::from_chars(&out)
}

pub fn npc_path(stable_id: &str) -> (res: RelPath)
    ensures
        res@ == npc_path_text(stable_id@),
{
    let mut out: Vec<char> = Vec::new();
    push_str(&mut out, "entities/npc/");
    push_str(&mut out, stable_id);
    push_str(&mut out, ".json");
    RelPath::from_chars(&out)
}

pub fn point_inside(x: u32, y: u32, width: u32, height: u32) -> (res: bool)
    ensures
        res == (x < width && y < height),
{
    x < width && y < height
}

/// The rectangle `[x, x+w) × [y, y+h)` lies inside `width × height`; a zero
/// `w` or `h` is out of bounds.
pub open spec fn rect_fits(x: int, y: int, w: int, h: int, width: int, height: int) -> bool {
    w >= 1 && h >= 1 && x + w <= width && y + h <= height
}

pub fn rect_inside(x: u32, y: u32, w: u32, h: u32, width: u32, height: u32) -> (res: bool)
    ensures
        res == rect_fits(x as int, y as int, w as int, h as int, width as int, height as int),
{
    w >= 1 && h >= 1 && (x as u64) + (w as u64) <= (width as u64) && (y as u64) + (h as u64) <= (height as u64)
}

/// The tiles of the rect `[x, x+w) × [y, y+h)`.
pub open spec fn in_rect(t: (u32, u32), x: int, y: int, w: int, h: int) -> bool {
    x <= t.0 < x + w && y <= t.1 < y + h
}

/// The tiles of a rect, each once.
pub fn rect_tiles(x: u32, y: u32, w: u32, h: u32) -> (res: Vec<(u32, u32)>)
    requires
        x + w <= u32::MAX + 1,
        y + h <= u32::MAX + 1,
    ensures
        res@.no_duplicates(),
        forall|t: (u32, u32)| res@.contains(t) <==> in_rect(t, x as int, y as int, w as int, h as int),
{
    let mut tiles: Vec<(u32, u32)> = Vec::new();
    let mut dy: u32 = 0;
    while dy < h
        invariant
            dy <= h,
            x + w <= u32::MAX + 1,
            y + h <= u32::MAX + 1,
            tiles@.no_duplicates(),
            forall|t: (u32, u32)| tiles@.contains(t) <==> in_rect(t, x as int, y as int, w as int, dy as int),
        decreases h - dy,
    {
        let mut dx: u32 = 0;
        while dx < w
            invariant
                dx <= w,
                dy < h,
                x + w <= u32::MAX + 1,
                y + h <= u32::MAX + 1,
                tiles@.no_duplicates(),
                forall|t: (u32, u32)| tiles@.contains(t) <==> (in_rect(t, x as int, y as int, w as int, dy as int)
                    || (t.1 == y + dy && x <= t.0 < x + dx)),
            decreases w - dx,
        {
            let t = (x + dx, y + dy);
            assert(!tiles@.contains(t));
            let ghost old_tiles = tiles@;
            tiles.push(t);
            proof {
                assert forall|i: int, j: int| 0 <= i < j < tiles@.len() implies tiles@[i] != tiles@[j] by {
                    if j == tiles@.len() - 1 {
                        assert(old_tiles.contains(tiles@[i]) || i == j);
                    }
                }
                assert forall|u: (u32, u32)| tiles@.contains(u) <==> (in_rect(u, x as int, y as int, w as int, dy as int)
                    || (u.1 == y + dy && x <= u.0 < x + dx + 1)) by {
                    if tiles@.contains(u) {
                        let k = choose|k: int| 0 <= k < tiles@.len() && tiles@[k] == u;
                        if k < old_tiles.len() {
                            assert(old_tiles.contains(u));
                        }
                    }
                    if u == t {
                        assert(tiles@[tiles@.len() - 1] == u);
                    } else if old_tiles.contains(u) {
                        let k = choose|k: int| 0 <= k < old_tiles.len() && old_tiles[k] == u;
                        assert(tiles@[k] == u);
                    }
                }
            }
            dx = dx + 1;
        }
        dy = dy + 1;
    }
    tiles
}


/// Whether `t` is one of `tiles`.
pub fn contains_tile(tiles: &Vec<(u32, u32)>, t: (u32, u32)) -> (res: bool)
    ensures
        res == tiles@.contains(t),
{
    let mut i: usize = 0;
    while i < tiles.len()
        invariant
            i <= tiles.len(),
            forall|j: int| 0 <= j < i ==> tiles@[j] != t,
        decreases tiles.len() - i,
    {
        if tiles[i].0 == t.0 && tiles[i].1 == t.1 {
            return true;
        }
        i = i + 1;
    }
    false
}

/// Adds `t` to a duplicate-free tile list unless it is already there.
pub fn insert_tile(tiles: &mut Vec<(u32, u32)>, t: (u32, u32))
    requires
        old(tiles)@.no_duplicates(),
    ensures
        final(tiles)@.no_duplicates(),
        forall|u: (u32, u32)| final(tiles)@.contains(u) <==> (old(tiles)@.contains(u) || u == t),
{
    if !contains_tile(tiles, t) {
        let ghost before = tiles@;
        tiles.push(t);
        proof {
            assert forall|i: int, j: int| 0 <= i < j < tiles@.len() implies tiles@[i] != tiles@[j] by {
                if j == tiles@.len() - 1 {
                    assert(before.contains(tiles@[i]));
                }
            }
            assert forall|u: (u32, u32)| tiles@.contains(u) <==> (before.contains(u) || u == t) by {
                if tiles@.contains(u) {
                    let k = choose|k: int| 0 <= k < tiles@.len() && tiles@[k] == u;
                    if k < before.len() {
                        assert(before[k] == u);
                    }
                }
                if before.contains(u) {
                    let k = choose|k: int| 0 <= k < before.len() && before[k] == u;
                    assert(tiles@[k] == u);
                }
                if u == t {
                    assert(tiles@[tiles@.len() - 1] == t);
                }
            }
        }
    }
}

pub open spec fn min_u32(a: u32, b: u32) -> u32 {
    if a <= b { a } else { b }
}

pub open spec fn max_u32(a: u32, b: u32) -> u32 {
    if a <= b { b } else { a }
}

/// The L-shaped path from `from` to `to`: horizontal at `from.y` between the
/// two x's, then vertical at `to.x` between the two y's.
pub open spec fn on_l_path(t: (u32, u32), from: [u32; 2], to: [u32; 2]) -> bool {
    ||| (t.1 == from[1] && min_u32(from[0], to[0]) <= t.0 <= max_u32(from[0], to[0]))
    ||| (t.0 == to[0] && min_u32(from[1], to[1]) <= t.1 <= max_u32(from[1], to[1]))
}

/// The L-shaped path's tiles, each once. The corner is one tile.
pub fn l_path_tiles(from: [u32; 2], to: [u32; 2]) -> (res: Vec<(u32, u32)>)
    ensures
        res@.no_duplicates(),
        forall|t: (u32, u32)| res@.contains(t) <==> on_l_path(t, from, to),
{
    let mut tiles: Vec<(u32, u32)> = Vec::new();
    let (lo_x, hi_x) = if from[0] <= to[0] { (from[0], to[0]) } else { (to[0], from[0]) };
    let mut x: u64 = lo_x as u64;
    while x <= hi_x as u64
        invariant
            lo_x <= x <= hi_x as u64 + 1,
            lo_x == min_u32(from[0], to[0]),
            hi_x == max_u32(from[0], to[0]),
            tiles@.no_duplicates(),
            forall|t: (u32, u32)| tiles@.contains(t) <==> (t.1 == from[1] && lo_x <= t.0 < x),
        decreases hi_x as u64 + 1 - x,
    {
        insert_tile(&mut tiles, (x as u32, from[1]));
        x = x + 1;
    }
    let (lo_y, hi_y) = if from[1] <= to[1] { (from[1], to[1]) } else { (to[1], from[1]) };
    let mut y: u64 = lo_y as u64;
    while y <= hi_y as u64
        invariant
            lo_y <= y <= hi_y as u64 + 1,
            lo_x == min_u32(from[0], to[0]),
            hi_x == max_u32(from[0], to[0]),
            lo_y == min_u32(from[1], to[1]),
            hi_y == max_u32(from[1], to[1]),
            tiles@.no_duplicates(),
            forall|t: (u32, u32)| tiles@.contains(t) <==> ((t.1 == from[1] && lo_x <= t.0 <= hi_x)
                || (t.0 == to[0] && lo_y <= t.1 < y)),
        decreases hi_y as u64 + 1 - y,
    {
        insert_tile(&mut tiles, (to[0], y as u32));
        y = y + 1;
    }
    tiles
}

} // verus!
