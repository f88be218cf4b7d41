//! A region's terrain and collision layers. The terrain layer holds one
//! glyph per tile; the collision layer holds the effective solidity rows
//! (`#` solid, `.` walkable) plus explicit per-tile overrides. A tile's
//! effective solidity is its override when it has one, else its terrain
//! glyph's default.

use vstd::prelude::*;

use crate::schema::{contains_tile, glyph_solid, is_solid_glyph, terrain_glyph, Terrain};

verus! {

pub open spec fn entry_key(e: (u32, u32, bool)) -> (u32, u32) {
    (e.0, e.1)
}

/// The map a list of `(x, y, solid)` rows denotes; a later row wins.
pub open spec fn override_map(s: Seq<(u32, u32, bool)>) -> Map<(u32, u32), bool>
    decreases s.len(),
{
    if s.len() == 0 {
        Map::empty()
    } else {
        override_map(s.drop_last()).insert(entry_key(s.last()), s.last().2)
    }
}

pub open spec fn keys_unique(s: Seq<(u32, u32, bool)>) -> bool {
    forall|i: int, j: int| 0 <= i < j < s.len() ==> entry_key(s[i]) != entry_key(s[j])
}

proof fn lemma_override_map_domain(s: Seq<(u32, u32, bool)>, k: (u32, u32))
    ensures
        override_map(s).contains_key(k) <==> exists|i: int| 0 <= i < s.len() && entry_key(s[i]) == k,
    decreases s.len(),
{
    if s.len() > 0 {
        lemma_override_map_domain(s.drop_last(), k);
        if override_map(s).contains_key(k) && entry_key(s.last()) != k {
            let i = choose|i: int| 0 <= i < s.drop_last().len() && entry_key(s.drop_last()[i]) == k;
            assert(s[i] == s.drop_last()[i]);
        }
        if exists|i: int| 0 <= i < s.len() && entry_key(s[i]) == k {
            let i = choose|i: int| 0 <= i < s.len() && entry_key(s[i]) == k;
            if i < s.len() - 1 {
                assert(s.drop_last()[i] == s[i]);
            }
        }
    }
}

proof fn lemma_override_map_value(s: Seq<(u32, u32, bool)>, i: int)
    requires
        keys_unique(s),
        0 <= i < s.len(),
    ensures
        override_map(s).contains_key(entry_key(s[i])),
        override_map(s)[entry_key(s[i])] == s[i].2,
    decreases s.len(),
{
    if i < s.len() - 1 {
        assert(keys_unique(s.drop_last()));
        assert(s.drop_last()[i] == s[i]);
        lemma_override_map_value(s.drop_last(), i);
        assert(entry_key(s.last()) != entry_key(s[i]));
    }
}

proof fn lemma_override_map_update(s: Seq<(u32, u32, bool)>, i: int, v: bool)
    requires
        keys_unique(s),
        0 <= i < s.len(),
    ensures
        override_map(s.update(i, (s[i].0, s[i].1, v))) =~= override_map(s).insert(entry_key(s[i]), v),
    decreases s.len(),
{
    let t = s.update(i, (s[i].0, s[i].1, v));
    if i == s.len() - 1 {
        assert(t.drop_last() =~= s.drop_last());
        assert(!override_map(s.drop_last()).contains_key(entry_key(s[i])) || true);
    } else {
        assert(keys_unique(s.drop_last()));
        lemma_override_map_update(s.drop_last(), i, v);
        assert(t.drop_last() =~= s.drop_last().update(i, (s[i].0, s[i].1, v)));
        assert(entry_key(s.last()) != entry_key(s[i]));
    }
}

/// Explicit per-tile solidity overrides: each tile at most once.
pub struct Overrides {
    entries: Vec<(u32, u32, bool)>,
}

impl View for Overrides {
    type V = Map<(u32, u32), bool>;

    closed spec fn view(&self) -> Map<(u32, u32), bool> {
        override_map(self.entries@)
    }
}

impl Overrides {
    #[verifier::type_invariant]
    spec fn inv(self) -> bool {
        keys_unique(self.entries@)
    }

    pub fn new() -> (res: Overrides)
        ensures
            res@ == Map::<(u32, u32), bool>::empty(),
    {
        Overrides { entries: Vec::new() }
    }

    fn find(&self, x: u32, y: u32) -> (res: Option<usize>)
        ensures
            match res {
                Some(i) => i < self.entries@.len() && entry_key(self.entries@[i as int]) == (x, y),
                None => forall|i: int| 0 <= i < self.entries@.len() ==> entry_key(self.entries@[i]) != (x, y),
            },
    {
        let mut i: usize = 0;
        while i < self.entries.len()
            invariant
                i <= self.entries@.len(),
                forall|j: int| 0 <= j < i ==> entry_key(self.entries@[j]) != (x, y),
            decreases self.entries.len() - i,
        {
            if self.entries[i].0 == x && self.entries[i].1 == y {
                return Some(i);
            }
            i = i + 1;
        }
        None
    }

    /// The override at `(x, y)`, if the tile has one.
    pub fn get(&self, x: u32, y: u32) -> (res: Option<bool>)
        ensures
            res == (if self@.contains_key((x, y)) { Some(self@[(x, y)]) } else { None }),
    {
        proof {
            use_type_invariant(self);
            lemma_override_map_domain(self.entries@, (x, y));
        }
        match self.find(x, y) {
            Some(i) => {
                proof { lemma_override_map_value(self.entries@, i as int); }
                Some(self.entries[i].2)
            },
            None => None,
        }
    }

    /// Records `solid` as the override at `(x, y)`.
    pub fn set(&mut self, x: u32, y: u32, solid: bool)
        ensures
            final(self)@ == old(self)@.insert((x, y), solid),
    {
        proof { use_type_invariant(&*self); }
        let found = self.find(x, y);
        let mut entries: Vec<(u32, u32, bool)> = Vec::new();
        std::mem::swap(&mut entries, &mut self.entries);
        let ghost before = entries@;
        match found {
            Some(i) => {
                proof { lemma_override_map_update(before, i as int, solid); }
                entries.set(i, (x, y, solid));
                assert(entries@ == before.update(i as int, (before[i as int].0, before[i as int].1, solid)));
                assert forall|a: int, b: int| 0 <= a < b < entries@.len()
                    implies entry_key(entries@[a]) != entry_key(entries@[b]) by {
                    assert(entry_key(entries@[a]) == entry_key(before[a]));
                    assert(entry_key(entries@[b]) == entry_key(before[b]));
                }
            },
            None => {
                entries.push((x, y, solid));
                proof {
                    assert(entries@.drop_last() =~= before);
                    assert forall|a: int, b: int| 0 <= a < b < entries@.len()
                        implies entry_key(entries@[a]) != entry_key(entries@[b]) by {
                        if b == entries@.len() - 1 {
                            assert(entries@[a] == before[a]);
                        } else {
                            assert(entries@[a] == before[a] && entries@[b] == before[b]);
                        }
                    }
                }
            },
        }
        self.entries = entries;
    }

    /// The number of overridden tiles.
    pub fn len(&self) -> (res: usize)
        ensures
            res as nat == self@.len(),
    {
        proof {
            use_type_invariant(self);
            lemma_override_map_len(self.entries@);
        }
        self.entries.len()
    }

    /// The `i`-th `(x, y, solid)` row, in insertion order.
    pub fn entry(&self, i: usize) -> (res: (u32, u32, bool))
        requires
            i < self@.len(),
        ensures
            self@.contains_key((res.0, res.1)),
            self@[(res.0, res.1)] == res.2,
    {
        proof {
            use_type_invariant(self);
            lemma_override_map_len(self.entries@);
            lemma_override_map_value(self.entries@, i as int);
        }
        self.entries[i]
    }
}

proof fn lemma_override_map_len(s: Seq<(u32, u32, bool)>)
    requires
        keys_unique(s),
    ensures
        override_map(s).len() == s.len(),
        override_map(s).dom().finite(),
    decreases s.len(),
{
    if s.len() > 0 {
        assert(keys_unique(s.drop_last()));
        lemma_override_map_len(s.drop_last());
        lemma_override_map_domain(s.drop_last(), entry_key(s.last()));
        if override_map(s.drop_last()).contains_key(entry_key(s.last())) {
            let i = choose|i: int| 0 <= i < s.drop_last().len() && entry_key(s.drop_last()[i]) == entry_key(s.last());
            assert(s.drop_last()[i] == s[i]);
            assert(false);
        }
    }
}


/// `'#'` for solid, `'.'` for walkable.
pub open spec fn solid_char(solid: bool) -> char {
    if solid { '#' } else { '.' }
}

/// The glyph at `(x, y)` of `rows`, when the tile exists.
pub open spec fn cell(rows: Seq<Vec<char>>, x: int, y: int) -> Option<char> {
    if 0 <= y < rows.len() && 0 <= x < rows[y]@.len() {
        Some(rows[y]@[x])
    } else {
        None
    }
}

/// Effective solidity at `(x, y)`: the override if present, else the
/// terrain glyph's default (a missing tile is walkable).
pub open spec fn effective(terrain: Seq<Vec<char>>, overrides: Map<(u32, u32), bool>, x: u32, y: u32) -> bool {
    if overrides.contains_key((x, y)) {
        overrides[(x, y)]
    } else {
        match cell(terrain, x as int, y as int) {
            Some(g) => is_solid_glyph(g),
            None => false,
        }
    }
}

/// The rows are no wider or taller than a `u32` coordinate can address.
pub open spec fn addressable(rows: Seq<Vec<char>>) -> bool {
    rows.len() <= u32::MAX && forall|y: int| 0 <= y < rows.len() ==> #[trigger] rows[y]@.len() <= u32::MAX
}

/// `rows` is the effective-solidity grid of `terrain` under `overrides`:
/// same shape, and each cell `#` or `.` per [`effective`].
pub open spec fn derived_from(rows: Seq<Vec<char>>, terrain: Seq<Vec<char>>, overrides: Map<(u32, u32), bool>) -> bool {
    &&& rows.len() == terrain.len()
    &&& forall|y: int| 0 <= y < rows.len() ==> #[trigger] rows[y]@.len() == terrain[y]@.len()
    &&& forall|y: int, x: int| 0 <= y < rows.len() && 0 <= x < rows[y]@.len() ==>
            #[trigger] rows[y]@[x] == solid_char(effective(terrain, overrides, x as u32, y as u32))
}

/// Effective solidity rows for `terrain` under `overrides`.
pub fn derive_rows(terrain: &Vec<Vec<char>>, overrides: &Overrides) -> (res: Vec<Vec<char>>)
    requires
        addressable(terrain@),
    ensures
        derived_from(res@, terrain@, overrides@),
{
    let mut out: Vec<Vec<char>> = Vec::new();
    let mut y: usize = 0;
    while y < terrain.len()
        invariant
            y <= terrain@.len(),
            addressable(terrain@),
            out@.len() == y,
            forall|j: int| 0 <= j < y ==> #[trigger] out@[j]@.len() == terrain@[j]@.len(),
            forall|j: int, x: int| 0 <= j < y && 0 <= x < out@[j]@.len() ==>
                #[trigger] out@[j]@[x] == solid_char(effective(terrain@, overrides@, x as u32, j as u32)),
        decreases terrain@.len() - y,
    {
        let row = &terrain[y];
        let mut line: Vec<char> = Vec::new();
        let mut x: usize = 0;
        assert(row@.len() <= u32::MAX);
        while x < row.len()
            invariant
                x <= row@.len(),
                row@ == terrain@[y as int]@,
                y < terrain@.len(),
                row@.len() <= u32::MAX,
                terrain@.len() <= u32::MAX,
                line@.len() == x,
                forall|i: int| 0 <= i < x ==> #[trigger] line@[i] == solid_char(effective(terrain@, overrides@, i as u32, y as u32)),
            decreases row@.len() - x,
        {
            let solid = match overrides.get(x as u32, y as u32) {
                Some(b) => b,
                None => glyph_solid(row[x]),
            };
            line.push(if solid { '#' } else { '.' });
            x = x + 1;
        }
        out.push(line);
        y = y + 1;
    }
    out
}

/// Effective solidity at `(x, y)`.
pub fn effective_solid(terrain: &Vec<Vec<char>>, overrides: &Overrides, x: u32, y: u32) -> (res: bool)
    ensures
        res == effective(terrain@, overrides@, x, y),
{
    match overrides.get(x, y) {
        Some(b) => b,
        None => {
            if (y as usize) < terrain.len() && (x as usize) < terrain[y as usize].len() {
                glyph_solid(terrain[y as usize][x as usize])
            } else {
                false
            }
        },
    }
}


/// A region's terrain layer: one glyph per tile, `rows[y][x]`.
pub struct TerrainLayer {
    pub width: u32,
    pub height: u32,
    pub rows: Vec<Vec<char>>,
}

/// A region's collision layer: the effective solidity rows and the explicit
/// overrides. `overrides` is `None` when the stored overrides are not a
/// key-value table (a hand-edited file).
pub struct CollisionLayer {
    pub width: u32,
    pub height: u32,
    pub rows: Vec<Vec<char>>,
    pub overrides: Option<Overrides>,
}

/// The overrides a collision layer carries, an unreadable table counting as
/// none.
pub open spec fn overrides_of(c: CollisionLayer) -> Map<(u32, u32), bool> {
    match c.overrides {
        Some(o) => o@,
        None => Map::empty(),
    }
}

/// `height` rows of `width` copies of `g`.
pub open spec fn uniform(rows: Seq<Vec<char>>, width: nat, height: nat, g: char) -> bool {
    &&& rows.len() == height
    &&& forall|y: int| 0 <= y < height ==> #[trigger] rows[y]@.len() == width
    &&& forall|y: int, x: int| 0 <= y < height && 0 <= x < width ==> #[trigger] rows[y]@[x] == g
}

/// A row of `width` copies of `g`.
fn filled_row(width: u32, g: char) -> (res: Vec<char>)
    ensures
        res@.len() == width,
        forall|x: int| 0 <= x < width ==> #[trigger] res@[x] == g,
{
    let mut row: Vec<char> = Vec::new();
    let mut x: u32 = 0;
    while x < width
        invariant
            x <= width,
            row@.len() == x,
            forall|i: int| 0 <= i < x ==> #[trigger] row@[i] == g,
        decreases width - x,
    {
        row.push(g);
        x = x + 1;
    }
    row
}

/// A terrain layer of `width × height` tiles, all `fill`.
pub fn terrain_file(width: u32, height: u32, fill: Terrain) -> (res: TerrainLayer)
    ensures
        res.width == width,
        res.height == height,
        uniform(res.rows@, width as nat, height as nat, terrain_glyph(fill)),
{
    let g = fill.glyph();
    let mut rows: Vec<Vec<char>> = Vec::new();
    let mut y: u32 = 0;
    while y < height
        invariant
            y <= height,
            g == terrain_glyph(fill),
            rows@.len() == y,
            forall|j: int| 0 <= j < y ==> #[trigger] rows@[j]@.len() == width,
            forall|j: int, x: int| 0 <= j < y && 0 <= x < width ==> #[trigger] rows@[j]@[x] == g,
        decreases height - y,
    {
        rows.push(filled_row(width, g));
        y = y + 1;
    }
    TerrainLayer { width, height, rows }
}

/// A collision layer derived from `terrain` with no overrides.
pub fn collision_file(width: u32, height: u32, terrain: &TerrainLayer) -> (res: CollisionLayer)
    requires
        addressable(terrain.rows@),
    ensures
        res.width == width,
        res.height == height,
        res.overrides is Some,
        overrides_of(res) == Map::<(u32, u32), bool>::empty(),
        derived_from(res.rows@, terrain.rows@, overrides_of(res)),
{
    let overrides = Overrides::new();
    let rows = derive_rows(&terrain.rows, &overrides);
    CollisionLayer { width, height, rows, overrides: Some(overrides) }
}

/// Tiles among `tiles` whose glyph in `rows` exists and differs from `g`.
pub open spec fn count_changed(rows: Seq<Vec<char>>, tiles: Seq<(u32, u32)>, g: char) -> nat
    decreases tiles.len(),
{
    if tiles.len() == 0 {
        0
    } else {
        count_changed(rows, tiles.drop_last(), g) + match cell(rows, tiles.last().0 as int, tiles.last().1 as int) {
            Some(c) => if c != g { 1nat } else { 0nat },
            None => 0nat,
        }
    }
}

/// `new` is `old` with every existing tile of `tiles` set to `g`.
pub open spec fn is_painted(old: Seq<Vec<char>>, new: Seq<Vec<char>>, tiles: Seq<(u32, u32)>, g: char) -> bool {
    &&& new.len() == old.len()
    &&& forall|y: int| 0 <= y < old.len() ==> #[trigger] new[y]@.len() == old[y]@.len()
    &&& forall|y: int, x: int| 0 <= y < old.len() && 0 <= x < old[y]@.len() ==>
            #[trigger] new[y]@[x] == (if tiles.contains((x as u32, y as u32)) { g } else { old[y]@[x] })
}

/// Sets the glyph at `(x, y)`.
pub(crate) fn set_cell(rows: &mut Vec<Vec<char>>, x: usize, y: usize, g: char)
    requires
        y < old(rows)@.len(),
        x < old(rows)@[y as int]@.len(),
    ensures
        final(rows)@.len() == old(rows)@.len(),
        forall|j: int| 0 <= j < old(rows)@.len() && j != y ==> #[trigger] final(rows)@[j] == old(rows)@[j],
        final(rows)@[y as int]@ == old(rows)@[y as int]@.update(x as int, g),
{
    let mut row: Vec<char> = Vec::new();
    std::mem::swap(&mut row, &mut rows[y]);
    row.set(x, g);
    rows.set(y, row);
}

/// Sets `tiles` in a terrain layer to `kind`'s glyph (tiles outside the
/// rows are skipped). Returns the number of tiles whose glyph changed.
pub fn paint_terrain(terrain: &mut TerrainLayer, tiles: &Vec<(u32, u32)>, kind: Terrain) -> (changed: u64)
    requires
        tiles@.no_duplicates(),
        addressable(old(terrain).rows@),
    ensures
        final(terrain).width == old(terrain).width,
        final(terrain).height == old(terrain).height,
        is_painted(old(terrain).rows@, final(terrain).rows@, tiles@, terrain_glyph(kind)),
        changed == count_changed(old(terrain).rows@, tiles@, terrain_glyph(kind)),
{
    let g = kind.glyph();
    let ghost orig = terrain.rows@;
    let mut changed: u64 = 0;
    let mut i: usize = 0;
    while i < tiles.len()
        invariant
            i <= tiles@.len(),
            tiles@.no_duplicates(),
            addressable(orig),
            g == terrain_glyph(kind),
            terrain.width == old(terrain).width,
            terrain.height == old(terrain).height,
            orig == old(terrain).rows@,
            changed <= i,
            changed == count_changed(orig, tiles@.subrange(0, i as int), g),
            is_painted(orig, terrain.rows@, tiles@.subrange(0, i as int), g),
        decreases tiles@.len() - i,
    {
        let (x, y) = tiles[i];
        let ghost pre = tiles@.subrange(0, i as int);
        let ghost post = tiles@.subrange(0, i + 1);
        proof {
            assert(post.drop_last() =~= pre);
            assert(!pre.contains((x, y)));
            assert forall|u: (u32, u32)| post.contains(u) <==> (pre.contains(u) || u == (x, y)) by {
                if post.contains(u) {
                    let k = choose|k: int| 0 <= k < post.len() && post[k] == u;
                    if k < pre.len() { assert(pre[k] == u); }
                }
                if pre.contains(u) {
                    let k = choose|k: int| 0 <= k < pre.len() && pre[k] == u;
                    assert(post[k] == u);
                }
                if u == (x, y) { assert(post[i as int] == u); }
            }
        }
        if (y as usize) < terrain.rows.len() && (x as usize) < terrain.rows[y as usize].len() {
            proof {
                assert(terrain.rows@[y as int]@[x as int] == orig[y as int]@[x as int]);
            }
            if terrain.rows[y as usize][x as usize] != g {
                set_cell(&mut terrain.rows, x as usize, y as usize, g);
                changed = changed + 1;
            }
        }
        proof {
            assert forall|yy: int, xx: int| 0 <= yy < orig.len() && 0 <= xx < orig[yy]@.len() implies
                #[trigger] terrain.rows@[yy]@[xx] == (if post.contains((xx as u32, yy as u32)) { g } else { orig[yy]@[xx] }) by {
                assert(orig[yy]@.len() <= u32::MAX);
                if (xx as u32, yy as u32) == (x, y) {
                    assert(xx == x && yy == y);
                }
            }
        }
        i = i + 1;
    }
    assert(tiles@.subrange(0, tiles@.len() as int) =~= tiles@);
    changed
}


/// The terrain's default solidity at `(x, y)`; a missing tile is walkable.
pub open spec fn terrain_solid(terrain: Seq<Vec<char>>, x: int, y: int) -> bool {
    match cell(terrain, x, y) {
        Some(g) => is_solid_glyph(g),
        None => false,
    }
}

/// `new` is `old` with every existing, non-overridden tile of `tiles` reset
/// to `terrain`'s default solidity.
pub open spec fn is_recomputed(
    old: Seq<Vec<char>>,
    new: Seq<Vec<char>>,
    terrain: Seq<Vec<char>>,
    overrides: Map<(u32, u32), bool>,
    tiles: Seq<(u32, u32)>,
) -> bool {
    &&& new.len() == old.len()
    &&& forall|y: int| 0 <= y < old.len() ==> #[trigger] new[y]@.len() == old[y]@.len()
    &&& forall|y: int, x: int| 0 <= y < old.len() && 0 <= x < old[y]@.len() ==>
            #[trigger] new[y]@[x] == (if tiles.contains((x as u32, y as u32)) && !overrides.contains_key((x as u32, y as u32)) {
                solid_char(terrain_solid(terrain, x, y))
            } else {
                old[y]@[x]
            })
}

/// Recomputes a collision layer's rows for `tiles` after a terrain change:
/// tiles with an override keep it; the rest take the terrain glyph's
/// default. Overrides are never touched, so they survive paints.
pub fn recompute_collision(collision: &mut CollisionLayer, terrain: &TerrainLayer, tiles: &Vec<(u32, u32)>)
    requires
        addressable(old(collision).rows@),
    ensures
        final(collision).width == old(collision).width,
        final(collision).height == old(collision).height,
        final(collision).overrides == old(collision).overrides,
        is_recomputed(old(collision).rows@, final(collision).rows@, terrain.rows@, overrides_of(*old(collision)), tiles@),
{
    let ghost orig = collision.rows@;
    let ghost ov = overrides_of(*collision);
    let mut i: usize = 0;
    while i < tiles.len()
        invariant
            i <= tiles@.len(),
            addressable(orig),
            orig == old(collision).rows@,
            ov == overrides_of(*old(collision)),
            collision.width == old(collision).width,
            collision.height == old(collision).height,
            collision.overrides == old(collision).overrides,
            is_recomputed(orig, collision.rows@, terrain.rows@, ov, tiles@.subrange(0, i as int)),
        decreases tiles@.len() - i,
    {
        let (x, y) = tiles[i];
        let ghost pre = tiles@.subrange(0, i as int);
        let ghost post = tiles@.subrange(0, i + 1);
        proof {
            assert forall|u: (u32, u32)| post.contains(u) <==> (pre.contains(u) || u == (x, y)) by {
                if post.contains(u) {
                    let k = choose|k: int| 0 <= k < post.len() && post[k] == u;
                    if k < pre.len() { assert(pre[k] == u); }
                }
                if pre.contains(u) {
                    let k = choose|k: int| 0 <= k < pre.len() && pre[k] == u;
                    assert(post[k] == u);
                }
                if u == (x, y) { assert(post[i as int] == u); }
            }
        }
        let overridden = match &collision.overrides {
            Some(o) => o.get(x, y).is_some(),
            None => false,
        };
        if !overridden && (y as usize) < collision.rows.len() && (x as usize) < collision.rows[y as usize].len() {
            let solid = if (y as usize) < terrain.rows.len() && (x as usize) < terrain.rows[y as usize].len() {
                glyph_solid(terrain.rows[y as usize][x as usize])
            } else {
                false
            };
            set_cell(&mut collision.rows, x as usize, y as usize, if solid { '#' } else { '.' });
        }
        proof {
            assert forall|yy: int, xx: int| 0 <= yy < orig.len() && 0 <= xx < orig[yy]@.len() implies
                #[trigger] collision.rows@[yy]@[xx] == (if post.contains((xx as u32, yy as u32)) && !ov.contains_key((xx as u32, yy as u32)) {
                    solid_char(terrain_solid(terrain.rows@, xx, yy))
                } else {
                    orig[yy]@[xx]
                }) by {
                assert(orig[yy]@.len() <= u32::MAX);
                if (xx as u32, yy as u32) == (x, y) {
                    assert(xx == x && yy == y);
                }
            }
        }
        i = i + 1;
    }
    assert(tiles@.subrange(0, tiles@.len() as int) =~= tiles@);
}

/// Existing tiles of row `y` in `[x, x + n)` whose cell differs from `c`.
pub open spec fn count_row(rows: Seq<Vec<char>>, x: int, y: int, n: nat, c: char) -> nat
    decreases n,
{
    if n == 0 {
        0
    } else {
        count_row(rows, x, y, (n - 1) as nat, c) + match cell(rows, x + n - 1, y) {
            Some(g) => if g != c { 1nat } else { 0nat },
            None => 0nat,
        }
    }
}

/// Existing tiles of the rect `[x, x + w) × [y, y + n)` whose cell differs from `c`.
pub open spec fn count_rect(rows: Seq<Vec<char>>, x: int, y: int, w: nat, n: nat, c: char) -> nat
    decreases n,
{
    if n == 0 {
        0
    } else {
        count_rect(rows, x, y, w, (n - 1) as nat, c) + count_row(rows, x, y + n - 1, w, c)
    }
}

/// `new` is `old` with every existing tile of the rect set to `c`.
pub open spec fn is_filled(old: Seq<Vec<char>>, new: Seq<Vec<char>>, x: int, y: int, w: int, h: int, c: char) -> bool {
    &&& new.len() == old.len()
    &&& forall|j: int| 0 <= j < old.len() ==> #[trigger] new[j]@.len() == old[j]@.len()
    &&& forall|j: int, i: int| 0 <= j < old.len() && 0 <= i < old[j]@.len() ==>
            #[trigger] new[j]@[i] == (if x <= i < x + w && y <= j < y + h { c } else { old[j]@[i] })
}

/// The overrides with every tile of the rect set to `solid`.
pub open spec fn with_rect(overrides: Map<(u32, u32), bool>, x: int, y: int, w: int, h: int, solid: bool) -> Map<(u32, u32), bool> {
    Map::new(
        |k: (u32, u32)| overrides.contains_key(k) || (x <= k.0 < x + w && y <= k.1 < y + h),
        |k: (u32, u32)| if x <= k.0 < x + w && y <= k.1 < y + h { solid } else { overrides[k] },
    )
}

/// Records `solid` overrides for every tile of the rect and sets the
/// effective rows accordingly. Returns the number of existing tiles whose
/// effective solidity changed (a repeated request is a no-op and reports
/// zero); refuses a layer whose overrides are not a key-value table.
pub fn apply_collision_override(collision: &mut CollisionLayer, x: u32, y: u32, w: u32, h: u32, solid: bool) -> (res: Result<u64, String>)
    requires
        x + w <= u32::MAX + 1,
        y + h <= u32::MAX + 1,
    ensures
        match res {
            Ok(n) => {
                &&& old(collision).overrides is Some
                &&& final(collision).overrides is Some
                &&& overrides_of(*final(collision)) == with_rect(overrides_of(*old(collision)), x as int, y as int, w as int, h as int, solid)
                &&& is_filled(old(collision).rows@, final(collision).rows@, x as int, y as int, w as int, h as int, solid_char(solid))
                &&& n == count_rect(old(collision).rows@, x as int, y as int, w as nat, h as nat, solid_char(solid))
            },
            Err(e) => {
                &&& old(collision).overrides is None
                &&& *final(collision) == *old(collision)
                &&& e@ == "collision overrides must be an object"@
            },
        },
        final(collision).width == old(collision).width,
        final(collision).height == old(collision).height,
{
    if collision.overrides.is_none() {
        return Err(String::from_str("collision overrides must be an object"));
    }
    let mut overrides = match collision.overrides.take() {
        Some(o) => o,
        None => Overrides::new(),
    };
    let ghost ov0 = overrides@;
    let ghost orig = collision.rows@;
    let next = if solid { '#' } else { '.' };
    let mut changed: u64 = 0;
    let mut dy: u32 = 0;
    while dy < h
        invariant
            dy <= h,
            x + w <= u32::MAX + 1,
            y + h <= u32::MAX + 1,
            next == solid_char(solid),
            orig == old(collision).rows@,
            collision.width == old(collision).width,
            collision.height == old(collision).height,
            overrides@ == with_rect(ov0, x as int, y as int, w as int, dy as int, solid),
            is_filled(orig, collision.rows@, x as int, y as int, w as int, dy as int, next),
            changed == count_rect(orig, x as int, y as int, w as nat, dy as nat, next),
            changed <= (dy as int) * (w as int),
        decreases h - dy,
    {
        let mut dx: u32 = 0;
        let ghost row_start = changed;
        while dx < w
            invariant
                dx <= w,
                dy < h,
                x + w <= u32::MAX + 1,
                y + h <= u32::MAX + 1,
                next == solid_char(solid),
                orig == old(collision).rows@,
                collision.width == old(collision).width,
                collision.height == old(collision).height,
                overrides@ == Map::new(
                    |k: (u32, u32)| with_rect(ov0, x as int, y as int, w as int, dy as int, solid).contains_key(k)
                        || (x <= k.0 < x + dx && k.1 == y + dy),
                    |k: (u32, u32)| if x <= k.0 < x + dx && k.1 == y + dy { solid } else {
                        with_rect(ov0, x as int, y as int, w as int, dy as int, solid)[k]
                    },
                ),
                collision.rows@.len() == orig.len(),
                forall|j: int| 0 <= j < orig.len() ==> #[trigger] collision.rows@[j]@.len() == orig[j]@.len(),
                forall|j: int, i: int| 0 <= j < orig.len() && 0 <= i < orig[j]@.len() ==>
                    #[trigger] collision.rows@[j]@[i] == (if (x <= i < x + w && y <= j < y + dy) || (x <= i < x + dx && j == y + dy) {
                        next
                    } else {
                        orig[j]@[i]
                    }),
                row_start == count_rect(orig, x as int, y as int, w as nat, dy as nat, next),
                row_start <= (dy as int) * (w as int),
                changed == row_start + count_row(orig, x as int, y + dy, dx as nat, next),
                changed <= row_start + dx,
            decreases w - dx,
        {
            let tx = x + dx;
            let ty = y + dy;
            overrides.set(tx, ty, solid);
            proof {
                assert(cell(orig, tx as int, ty as int) == cell(orig, x + dx, y + dy));
            }
            if (ty as usize) < collision.rows.len() && (tx as usize) < collision.rows[ty as usize].len() {
                proof {
                    assert(collision.rows@[ty as int]@[tx as int] == orig[ty as int]@[tx as int]);
                }
                if collision.rows[ty as usize][tx as usize] != next {
                    proof {
                        assert(row_start + dx + 1 <= u64::MAX) by (nonlinear_arith)
                            requires
                                row_start <= (dy as int) * (w as int),
                                dx < w,
                                dy < h,
                                w <= u32::MAX,
                                h <= u32::MAX;
                    }
                    set_cell(&mut collision.rows, tx as usize, ty as usize, next);
                    changed = changed + 1;
                }
            }
            dx = dx + 1;
            proof {
                assert(overrides@ =~= Map::new(
                    |k: (u32, u32)| with_rect(ov0, x as int, y as int, w as int, dy as int, solid).contains_key(k)
                        || (x <= k.0 < x + dx && k.1 == y + dy),
                    |k: (u32, u32)| if x <= k.0 < x + dx && k.1 == y + dy { solid } else {
                        with_rect(ov0, x as int, y as int, w as int, dy as int, solid)[k]
                    },
                ));
            }
        }
        proof {
            assert((dy as int) * (w as int) + (w as int) == ((dy + 1) as int) * (w as int)) by (nonlinear_arith);
            assert(overrides@ =~= with_rect(ov0, x as int, y as int, w as int, (dy + 1) as int, solid));
        }
        dy = dy + 1;
    }
    collision.overrides = Some(overrides);
    Ok(changed)
}


/// A terrain paint followed by the collision recompute over the same tiles
/// keeps the collision rows the effective-solidity grid of the painted
/// terrain: derived before, derived after.
pub proof fn law_paint_keeps_collision_derived(
    c0: Seq<Vec<char>>,
    c1: Seq<Vec<char>>,
    t0: Seq<Vec<char>>,
    t1: Seq<Vec<char>>,
    overrides: Map<(u32, u32), bool>,
    tiles: Seq<(u32, u32)>,
    g: char,
)
    requires
        addressable(t0),
        derived_from(c0, t0, overrides),
        is_painted(t0, t1, tiles, g),
        is_recomputed(c0, c1, t1, overrides, tiles),
    ensures
        derived_from(c1, t1, overrides),
{
    assert forall|y: int, x: int| 0 <= y < c1.len() && 0 <= x < c1[y]@.len() implies
        #[trigger] c1[y]@[x] == solid_char(effective(t1, overrides, x as u32, y as u32)) by {
        assert(t0[y]@.len() <= u32::MAX);
        assert(c0[y]@[x] == solid_char(effective(t0, overrides, x as u32, y as u32)));
        assert(x as u32 as int == x && y as u32 as int == y);
        assert(cell(t1, x, y) == Some(t1[y]@[x]));
    }
}

/// Tiles carrying an override keep their collision cell through a recompute:
/// overrides survive later terrain paints.
pub proof fn law_overrides_survive_paint(
    c0: Seq<Vec<char>>,
    c1: Seq<Vec<char>>,
    terrain: Seq<Vec<char>>,
    overrides: Map<(u32, u32), bool>,
    tiles: Seq<(u32, u32)>,
    x: u32,
    y: u32,
)
    requires
        is_recomputed(c0, c1, terrain, overrides, tiles),
        overrides.contains_key((x, y)),
        cell(c0, x as int, y as int) is Some,
    ensures
        cell(c1, x as int, y as int) == cell(c0, x as int, y as int),
{
    assert(c1[y as int]@[x as int] == c0[y as int]@[x as int]);
}

/// Setting collision overrides on a rect keeps the collision rows the
/// effective-solidity grid of the (unchanged) terrain under the extended
/// overrides.
pub proof fn law_override_keeps_collision_derived(
    c0: Seq<Vec<char>>,
    c1: Seq<Vec<char>>,
    terrain: Seq<Vec<char>>,
    overrides: Map<(u32, u32), bool>,
    x: u32,
    y: u32,
    w: u32,
    h: u32,
    solid: bool,
)
    requires
        addressable(terrain),
        derived_from(c0, terrain, overrides),
        is_filled(c0, c1, x as int, y as int, w as int, h as int, solid_char(solid)),
    ensures
        derived_from(c1, terrain, with_rect(overrides, x as int, y as int, w as int, h as int, solid)),
{
    let ov1 = with_rect(overrides, x as int, y as int, w as int, h as int, solid);
    assert forall|j: int, i: int| 0 <= j < c1.len() && 0 <= i < c1[j]@.len() implies
        #[trigger] c1[j]@[i] == solid_char(effective(terrain, ov1, i as u32, j as u32)) by {
        assert(terrain[j]@.len() <= u32::MAX);
        assert(i as u32 as int == i && j as u32 as int == j);
        assert(c0[j]@[i] == solid_char(effective(terrain, overrides, i as u32, j as u32)));
    }
}

/// A collision override is idempotent: once applied, applying the same
/// override again changes no tile.
pub proof fn law_override_idempotent(
    c0: Seq<Vec<char>>,
    c1: Seq<Vec<char>>,
    x: u32,
    y: u32,
    w: u32,
    h: u32,
    c: char,
)
    requires
        is_filled(c0, c1, x as int, y as int, w as int, h as int, c),
    ensures
        count_rect(c1, x as int, y as int, w as nat, h as nat, c) == 0,
{
    lemma_count_rect_filled(c1, x as int, y as int, w as nat, h as nat, c);
}

proof fn lemma_count_rect_filled(rows: Seq<Vec<char>>, x: int, y: int, w: nat, n: nat, c: char)
    requires
        forall|j: int, i: int| y <= j < y + n && x <= i < x + w && 0 <= j < rows.len() && 0 <= i < rows[j]@.len()
            ==> #[trigger] rows[j]@[i] == c,
    ensures
        count_rect(rows, x, y, w, n, c) == 0,
    decreases n,
{
    if n > 0 {
        lemma_count_rect_filled(rows, x, y, w, (n - 1) as nat, c);
        lemma_count_row_filled(rows, x, y + n - 1, w, c);
    }
}

proof fn lemma_count_row_filled(rows: Seq<Vec<char>>, x: int, y: int, n: nat, c: char)
    requires
        forall|i: int| x <= i < x + n && 0 <= y < rows.len() && 0 <= i < rows[y]@.len() ==> #[trigger] rows[y]@[i] == c,
    ensures
        count_row(rows, x, y, n, c) == 0,
    decreases n,
{
    if n > 0 {
        lemma_count_row_filled(rows, x, y, (n - 1) as nat, c);
    }
}

} // verus!
