//! Painting terrain, as `rpg.paint_area` and `rpg.paint_path` do: the
//! painted tiles of the terrain layer take the kind's glyph, and the
//! collision layer's effective rows are recomputed over those tiles — a tile
//! with an explicit override keeps it, the rest follow the new glyph.

use vstd::prelude::*;

use crate::collision::{chars_rows, differs, stage_if_changed, tile_key};
use crate::edits::{rows_value, with_key};
use crate::integrity::files_view;
use crate::ir::RelPath;
use crate::json::{Json, JsonView, field_of, view_members};
use crate::layers::solid_char;
use crate::op::{Diff, OpError};
use crate::ops::{PaintArea, PaintAreaOutput, PaintAreaPlan, PaintPath, PaintPathOutput, PaintPathPlan};
use crate::query::layer_rows;
use crate::schema::{Terrain, collision_path_text, in_rect, is_solid_glyph, on_l_path, terrain_glyph, terrain_of_kind, terrain_path_text};
use crate::tx::{Transaction, changes_view};

verus! {

/// Tile `(tx, ty)` is one of `tiles`.
pub open spec fn tile_in(tiles: spec_fn((u32, u32)) -> bool, tx: int, ty: int) -> bool {
    0 <= tx <= u32::MAX && 0 <= ty <= u32::MAX && tiles((tx as u32, ty as u32))
}

/// The rows with every existing tile of `tiles` set to `g`.
pub open spec fn painted_rows(rows: Seq<Seq<char>>, tiles: spec_fn((u32, u32)) -> bool, g: char) -> Seq<Seq<char>> {
    Seq::new(rows.len(), |ty: int| Seq::new(rows[ty].len(), |tx: int| if tile_in(tiles, tx, ty) { g } else { rows[ty][tx] }))
}

/// How many of `tiles` exist in `rows` and differ from `g`.
pub open spec fn paint_count(rows: Seq<Seq<char>>, tiles: spec_fn((u32, u32)) -> bool, g: char) -> nat {
    Set::new(|t: (u32, u32)| tiles(t) && differs(rows, t.0 as int, t.1 as int, g)).len()
}

/// A layer file with its `rows` replaced.
pub open spec fn with_rows(v: JsonView, rows: Seq<Seq<char>>) -> JsonView {
    match v {
        JsonView::Object(ms) => JsonView::Object(with_key(ms, "rows"@, rows_value(rows))),
        _ => JsonView::Object(seq![("rows"@, rows_value(rows))]),
    }
}

/// The override members of a collision file (none when they are not an
/// object).
pub open spec fn override_members(c: JsonView) -> Seq<(Seq<char>, JsonView)> {
    match field_of(c, "overrides"@) {
        Some(JsonView::Object(oms)) => oms,
        _ => Seq::empty(),
    }
}

pub open spec fn has_key(ms: Seq<(Seq<char>, JsonView)>, k: Seq<char>) -> bool {
    exists|i: int| 0 <= i < ms.len() && #[trigger] ms[i].0 == k
}

/// Whether the terrain tile exists and its glyph is solid.
pub open spec fn cell_solid(rows: Seq<Seq<char>>, tx: int, ty: int) -> bool {
    0 <= ty < rows.len() && 0 <= tx < rows[ty].len() && is_solid_glyph(rows[ty][tx])
}

/// The collision rows recomputed over `tiles` against the painted terrain:
/// a tile with an override keeps its cell, the rest follow the terrain.
pub open spec fn recomputed_rows(
    crows: Seq<Seq<char>>,
    trows: Seq<Seq<char>>,
    oms: Seq<(Seq<char>, JsonView)>,
    tiles: spec_fn((u32, u32)) -> bool,
) -> Seq<Seq<char>> {
    Seq::new(crows.len(), |ty: int| Seq::new(crows[ty].len(), |tx: int|
        if tile_in(tiles, tx, ty) && !has_key(oms, tile_key(tx as u32, ty as u32)) {
            solid_char(cell_solid(trows, tx, ty))
        } else {
            crows[ty][tx]
        }))
}

/// Painting `tiles` with glyph `g` in region `sid`: the new terrain file,
/// the new collision file, and how many tiles changed glyph; or the error.
#[verifier::opaque]
pub open spec fn paint_outcome(
    sid: Seq<char>,
    terrain: Option<JsonView>,
    collision: Option<JsonView>,
    tiles: spec_fn((u32, u32)) -> bool,
    g: char,
) -> Result<(JsonView, JsonView, nat), Seq<char>> {
    match terrain {
        None => Err("region "@ + sid + " lacks "@ + terrain_path_text(sid)),
        Some(t) => match collision {
            None => Err("region "@ + sid + " lacks "@ + collision_path_text(sid)),
            Some(c) => {
                let trows = layer_rows(t);
                let painted = painted_rows(trows, tiles, g);
                Ok((with_rows(t, painted), with_rows(c, recomputed_rows(layer_rows(c), painted, override_members(c), tiles)),
                    paint_count(trows, tiles, g)))
            },
        },
    }
}

proof fn lemma_filter_step<A>(s: Seq<A>, i: int, p: spec_fn(A) -> bool)
    requires
        0 <= i < s.len(),
    ensures
        s.take(i + 1).filter(p) == if p(s[i]) { s.take(i).filter(p).push(s[i]) } else { s.take(i).filter(p) },
{
    reveal(Seq::filter);
    assert(s.take(i + 1).drop_last() =~= s.take(i));
    assert(s.take(i + 1).last() == s[i]);
}

proof fn lemma_filter_no_dup<A>(s: Seq<A>, p: spec_fn(A) -> bool)
    requires
        s.no_duplicates(),
    ensures
        s.filter(p).no_duplicates(),
        forall|a: A| s.filter(p).contains(a) <==> s.contains(a) && p(a),
    decreases s.len(),
{
    reveal(Seq::filter);
    if s.len() > 0 {
        let t = s.drop_last();
        assert(t.no_duplicates());
        lemma_filter_no_dup(t, p);
        assert(s =~= t.push(s.last()));
        assert forall|a: A| s.contains(a) <==> (t.contains(a) || a == s.last()) by {
            if s.contains(a) {
                let j = choose|j: int| 0 <= j < s.len() && s[j] == a;
                if j < s.len() - 1 {
                    assert(t[j] == a);
                }
            }
            if t.contains(a) {
                let j = choose|j: int| 0 <= j < t.len() && t[j] == a;
                assert(s[j] == a);
            }
            if a == s.last() {
                assert(s[s.len() - 1] == a);
            }
        }
        if p(s.last()) {
            assert(!t.contains(s.last())) by {
                if t.contains(s.last()) {
                    let j = choose|j: int| 0 <= j < t.len() && t[j] == s.last();
                    assert(s[j] == s[s.len() - 1]);
                }
            }
            let tf = t.filter(p);
            assert forall|a: A| tf.push(s.last()).contains(a) <==> (tf.contains(a) || a == s.last()) by {
                if tf.push(s.last()).contains(a) {
                    let j = choose|j: int| 0 <= j < tf.len() + 1 && tf.push(s.last())[j] == a;
                    if j < tf.len() {
                        assert(tf[j] == a);
                    }
                }
                if tf.contains(a) {
                    let j = choose|j: int| 0 <= j < tf.len() && tf[j] == a;
                    assert(tf.push(s.last())[j] == a);
                }
                if a == s.last() {
                    assert(tf.push(s.last())[tf.len() as int] == a);
                }
            }
        }
    }
}

/// For tiles listed once each, the count of those that differ is the size
/// of the set they make.
proof fn lemma_count_is_set_size(tiles: Seq<(u32, u32)>, rows: Seq<Seq<char>>, g: char)
    requires
        tiles.no_duplicates(),
    ensures
        tiles.filter(|t: (u32, u32)| differs(rows, t.0 as int, t.1 as int, g)).len()
            == paint_count(rows, |t: (u32, u32)| tiles.contains(t), g),
{
    let p = |t: (u32, u32)| differs(rows, t.0 as int, t.1 as int, g);
    let f = tiles.filter(p);
    lemma_filter_no_dup(tiles, p);
    f.unique_seq_to_set();
    assert(f.to_set() =~= Set::new(|t: (u32, u32)| (|t: (u32, u32)| tiles.contains(t))(t) && differs(rows, t.0 as int, t.1 as int, g)));
}

/// The tiles processed so far: the first `i` of `tiles`.
pub open spec fn done_tiles(tiles: Seq<(u32, u32)>, i: int) -> spec_fn((u32, u32)) -> bool {
    |t: (u32, u32)| tiles.take(i).contains(t)
}

/// Sets every existing tile of `tiles` (each listed once) to `g`; returns
/// how many changed.
#[verifier::rlimit(30)]
fn paint_cells(rows: &mut Vec<Vec<char>>, tiles: &Vec<(u32, u32)>, g: char) -> (res: u64)
    requires
        tiles@.no_duplicates(),
    ensures
        chars_rows(final(rows)@) == painted_rows(chars_rows(old(rows)@), |t: (u32, u32)| tiles@.contains(t), g),
        res == paint_count(chars_rows(old(rows)@), |t: (u32, u32)| tiles@.contains(t), g),
{
    let ghost rows0 = chars_rows(rows@);
    let ghost p = |t: (u32, u32)| differs(rows0, t.0 as int, t.1 as int, g);
    let mut changed: u64 = 0;
    let mut i: usize = 0;
    assert(painted_rows(rows0, done_tiles(tiles@, 0), g) =~= rows0) by {
        assert forall|k: int| 0 <= k < rows0.len() implies #[trigger] painted_rows(rows0, done_tiles(tiles@, 0), g)[k] =~= rows0[k] by {}
    }
    proof { reveal(Seq::filter); }
    assert(tiles@.take(0).filter(p) =~= Seq::<(u32, u32)>::empty());
    while i < tiles.len()
        invariant
            i <= tiles@.len(),
            tiles@.no_duplicates(),
            rows0.len() == rows@.len(),
            chars_rows(rows@) == painted_rows(rows0, done_tiles(tiles@, i as int), g),
            changed as int == tiles@.take(i as int).filter(p).len(),
            p == (|t: (u32, u32)| differs(rows0, t.0 as int, t.1 as int, g)),
        decreases tiles@.len() - i,
    {
        let (tx, ty) = tiles[i];
        let ghost before = chars_rows(rows@);
        proof {
            lemma_filter_step(tiles@, i as int, p);
            tiles@.take(i as int).lemma_filter_len(p);
            assert(tiles@.take(i as int).filter(p).len() <= i);
            assert(!tiles@.take(i as int).contains((tx, ty)));
            assert forall|k: int| 0 <= k < before.len() implies #[trigger] before[k].len() == rows0[k].len() by {
                assert(before[k] == painted_rows(rows0, done_tiles(tiles@, i as int), g)[k]);
            }
        }
        if (ty as usize) < rows.len() && (tx as usize) < rows[ty as usize].len() {
            let cur = rows[ty as usize][tx as usize];
            assert(cur == before[ty as int][tx as int]);
            assert(cur == rows0[ty as int][tx as int]);
            if cur != g {
                crate::layers::set_cell(rows, tx as usize, ty as usize, g);
                changed = changed + 1;
            }
        } else {
            proof {
                if (ty as int) < rows0.len() {
                    assert(before[ty as int] == rows@[ty as int]@);
                }
            }
        }
        proof {
            let after = chars_rows(rows@);
            let target = painted_rows(rows0, done_tiles(tiles@, i + 1), g);
            assert(tiles@.take(i + 1) =~= tiles@.take(i as int).push((tx, ty)));
            assert forall|t: (u32, u32)| #[trigger] tiles@.take(i + 1).contains(t) == (tiles@.take(i as int).contains(t) || t == (tx, ty)) by {
                let s0 = tiles@.take(i as int);
                if s0.push((tx, ty)).contains(t) {
                    let j = choose|j: int| 0 <= j < s0.len() + 1 && s0.push((tx, ty))[j] == t;
                    if j < s0.len() {
                        assert(s0[j] == t);
                    }
                }
                if s0.contains(t) {
                    let j = choose|j: int| 0 <= j < s0.len() && s0[j] == t;
                    assert(s0.push((tx, ty))[j] == t);
                }
                if t == (tx, ty) {
                    assert(s0.push((tx, ty))[s0.len() as int] == t);
                }
            }
            assert forall|k: int| 0 <= k < after.len() implies #[trigger] after[k] =~= target[k] by {
                assert(before[k] == painted_rows(rows0, done_tiles(tiles@, i as int), g)[k]);
                assert forall|x: int| 0 <= x < after[k].len() implies after[k][x] == target[k][x] by {
                    if 0 <= x <= u32::MAX && 0 <= k <= u32::MAX {
                        assert((x as u32, k as u32) == (tx, ty) <==> (x == tx && k == ty));
                    }
                }
            }
            assert(after =~= target);
        }
        i = i + 1;
    }
    proof {
        assert(tiles@.take(tiles@.len() as int) =~= tiles@);
        assert(painted_rows(rows0, done_tiles(tiles@, tiles@.len() as int), g) =~= painted_rows(rows0, |t: (u32, u32)| tiles@.contains(t), g)) by {
            assert forall|k: int| 0 <= k < rows0.len() implies #[trigger] painted_rows(rows0, done_tiles(tiles@, tiles@.len() as int), g)[k]
                =~= painted_rows(rows0, |t: (u32, u32)| tiles@.contains(t), g)[k] by {}
        }
        lemma_count_is_set_size(tiles@, rows0, g);
    }
    changed
}

/// Recomputes the collision cells of `tiles` against the painted terrain
/// rows: a tile with an override keeps its cell.
#[verifier::rlimit(30)]
fn recompute_cells(crows: &mut Vec<Vec<char>>, trows: &Vec<Vec<char>>, oms: &Vec<(String, Json)>, tiles: &Vec<(u32, u32)>)
    ensures
        chars_rows(final(crows)@) == recomputed_rows(chars_rows(old(crows)@), chars_rows(trows@), view_members(oms@), |t: (u32, u32)| tiles@.contains(t)),
{
    let ghost rows0 = chars_rows(crows@);
    let ghost tv = chars_rows(trows@);
    let ghost om = view_members(oms@);
    proof { crate::json::lemma_view_members_len(oms@); }
    let mut i: usize = 0;
    assert(recomputed_rows(rows0, tv, om, done_tiles(tiles@, 0)) =~= rows0) by {
        assert forall|k: int| 0 <= k < rows0.len() implies #[trigger] recomputed_rows(rows0, tv, om, done_tiles(tiles@, 0))[k] =~= rows0[k] by {}
    }
    while i < tiles.len()
        invariant
            i <= tiles@.len(),
            rows0.len() == crows@.len(),
            tv == chars_rows(trows@),
            om == view_members(oms@),
            om.len() == oms@.len(),
            chars_rows(crows@) == recomputed_rows(rows0, tv, om, done_tiles(tiles@, i as int)),
        decreases tiles@.len() - i,
    {
        let (tx, ty) = tiles[i];
        let ghost before = chars_rows(crows@);
        let key = crate::collision::tile_key_text(tx, ty);
        let overridden = match crate::json::find_member(oms, key.as_str()) {
            Some(k) => {
                assert(om[k as int].0 == key@);
                true
            },
            None => false,
        };
        assert(overridden == has_key(om, tile_key(tx, ty)));
        let solid = (ty as usize) < trows.len() && (tx as usize) < trows[ty as usize].len()
            && crate::schema::glyph_solid(trows[ty as usize][tx as usize]);
        assert(solid == cell_solid(tv, tx as int, ty as int));
        proof {
            assert forall|k: int| 0 <= k < before.len() implies #[trigger] before[k].len() == rows0[k].len() by {
                assert(before[k] == recomputed_rows(rows0, tv, om, done_tiles(tiles@, i as int))[k]);
            }
            if (ty as int) < before.len() {
                assert(before[ty as int] == crows@[ty as int]@);
            }
        }
        if !overridden && (ty as usize) < crows.len() && (tx as usize) < crows[ty as usize].len() {
            crate::layers::set_cell(crows, tx as usize, ty as usize, if solid { '#' } else { '.' });
        }
        proof {
            let after = chars_rows(crows@);
            let target = recomputed_rows(rows0, tv, om, done_tiles(tiles@, i + 1));
            assert forall|t: (u32, u32)| #[trigger] tiles@.take(i + 1).contains(t) == (tiles@.take(i as int).contains(t) || t == (tx, ty)) by {
                let s0 = tiles@.take(i as int);
                assert(tiles@.take(i + 1) =~= s0.push((tx, ty)));
                if s0.push((tx, ty)).contains(t) {
                    let j = choose|j: int| 0 <= j < s0.len() + 1 && s0.push((tx, ty))[j] == t;
                    if j < s0.len() {
                        assert(s0[j] == t);
                    }
                }
                if s0.contains(t) {
                    let j = choose|j: int| 0 <= j < s0.len() && s0[j] == t;
                    assert(s0.push((tx, ty))[j] == t);
                }
                if t == (tx, ty) {
                    assert(s0.push((tx, ty))[s0.len() as int] == t);
                }
            }
            assert forall|k: int| 0 <= k < after.len() implies #[trigger] after[k] =~= target[k] by {
                assert(before[k] == recomputed_rows(rows0, tv, om, done_tiles(tiles@, i as int))[k]);
                assert forall|x: int| 0 <= x < after[k].len() implies after[k][x] == target[k][x] by {
                    if 0 <= x <= u32::MAX && 0 <= k <= u32::MAX {
                        assert((x as u32, k as u32) == (tx, ty) <==> (x == tx && k == ty));
                    }
                }
            }
            assert(after =~= target);
        }
        i = i + 1;
    }
    proof {
        assert(tiles@.take(tiles@.len() as int) =~= tiles@);
        let a = recomputed_rows(rows0, tv, om, done_tiles(tiles@, tiles@.len() as int));
        let b = recomputed_rows(rows0, tv, om, |t: (u32, u32)| tiles@.contains(t));
        assert forall|k: int| 0 <= k < a.len() implies #[trigger] a[k] =~= b[k] by {}
        assert(a =~= b);
    }
}

/// A layer file with its `rows` replaced.
fn set_rows(v: Json, rows: &Vec<Vec<char>>) -> (res: Json)
    ensures
        res@ == with_rows(v@, chars_rows(rows@)),
{
    let text = crate::collision::rows_json(rows);
    match v {
        Json::Object(mut ms) => {
            crate::edits::set_key(&mut ms, "rows", text);
            Json::Object(ms)
        },
        _ => {
            let members = vec![("rows".to_string(), text)];
            proof { crate::json::lemma_view_members_len(members@); }
            let ghost m = members@;
            let res = Json::Object(members);
            assert(crate::json::view_members(m) =~= seq![("rows"@, rows_value(chars_rows(rows@)))]);
            res
        },
    }
}

/// The writes of painting `tiles` (each listed once) with `kind` in region
/// `region_stable_id`, given its terrain and collision files as read
/// (`None` when missing): the new terrain file, the new collision file,
/// and how many tiles changed glyph.
pub fn paint_writes(terrain: Option<Json>, collision: Option<Json>, region_stable_id: &str, tiles: &Vec<(u32, u32)>, kind: Terrain) -> (res: Result<(Json, Json, u64), String>)
    requires
        tiles@.no_duplicates(),
    ensures
        match paint_outcome(region_stable_id@, crate::tx::opt_view(terrain), crate::tx::opt_view(collision),
            |t: (u32, u32)| tiles@.contains(t), terrain_glyph(kind)) {
            Ok((t2, c2, n)) => res is Ok && res->Ok_0.0@ == t2 && res->Ok_0.1@ == c2 && res->Ok_0.2 == n,
            Err(m) => res is Err && res->Err_0@ == m,
        },
{
    proof { reveal(paint_outcome); }
    let t = match terrain {
        Some(t) => t,
        None => {
            let p = crate::schema::terrain_path(region_stable_id);
            return Err(crate::edits::lacks_text(region_stable_id, &p));
        },
    };
    let c = match collision {
        Some(c) => c,
        None => {
            let p = crate::schema::collision_path(region_stable_id);
            return Err(crate::edits::lacks_text(region_stable_id, &p));
        },
    };
    let (t2, c2, changed) = paint_files(t, c, tiles, kind);
    Ok((t2, c2, changed))
}

/// Paints both layer files.
#[verifier::rlimit(30)]
fn paint_files(t: Json, c: Json, tiles: &Vec<(u32, u32)>, kind: Terrain) -> (res: (Json, Json, u64))
    requires
        tiles@.no_duplicates(),
    ensures
        ({
            let trows = layer_rows(t@);
            let painted = painted_rows(trows, |x: (u32, u32)| tiles@.contains(x), terrain_glyph(kind));
            &&& res.0@ == with_rows(t@, painted)
            &&& res.1@ == with_rows(c@, recomputed_rows(layer_rows(c@), painted, override_members(c@), |x: (u32, u32)| tiles@.contains(x)))
            &&& res.2 == paint_count(trows, |x: (u32, u32)| tiles@.contains(x), terrain_glyph(kind))
        }),
{
    let g = kind.glyph();
    let mut trows = crate::collision::rows_chars(&t);
    let changed = paint_cells(&mut trows, tiles, g);
    let oms: Vec<(String, Json)> = match c.get("overrides") {
        Some(Json::Object(o)) => crate::collision::members_copy(o),
        _ => {
            assert(crate::json::view_members(Seq::<(String, Json)>::empty()) =~= Seq::<(Seq<char>, JsonView)>::empty());
            Vec::new()
        },
    };
    let mut crows = crate::collision::rows_chars(&c);
    recompute_cells(&mut crows, &trows, &oms, tiles);
    let t2 = set_rows(t, &trows);
    let c2 = set_rows(c, &crows);
    (t2, c2, changed)
}

/// Painting `tiles` in region `sid` leaves the terrain and collision files
/// as [`paint_outcome`] says, staging only what changed.
pub open spec fn painted_tx(
    before: Transaction,
    after: Transaction,
    sid: Seq<char>,
    tiles: spec_fn((u32, u32)) -> bool,
    g: char,
    res: Result<u64, OpError>,
) -> bool {
    let tpath = terrain_path_text(sid);
    let cpath = collision_path_text(sid);
    let outcome = paint_outcome(sid, before.read_view(tpath), before.read_view(cpath), tiles, g);
    &&& outcome is Ok ==> {
        &&& res is Ok
        &&& res->Ok_0 == outcome->Ok_0.2
        &&& after.read_view(tpath) == Some(outcome->Ok_0.0)
        &&& after.read_view(cpath) == Some(outcome->Ok_0.1)
        &&& forall|q: Seq<char>| q != tpath && q != cpath ==> #[trigger] after.read_view(q) == before.read_view(q)
    }
    &&& outcome is Err ==> {
        &&& res is Err
        &&& res->Err_0 == OpError::Apply(res->Err_0->Apply_0)
        &&& res->Err_0->Apply_0@ == outcome->Err_0
        &&& forall|q: Seq<char>| #[trigger] after.read_view(q) == before.read_view(q)
    }
}

/// Paints `tiles` in the transaction's view of region `sid`.
fn paint_in(tx: &mut Transaction, sid: &str, tiles: &Vec<(u32, u32)>, kind: Terrain) -> (res: Result<u64, OpError>)
    requires
        old(tx).wf(),
        tiles@.no_duplicates(),
    ensures
        final(tx).wf(),
        final(tx).snapshot() == old(tx).snapshot(),
        final(tx).counter() == old(tx).counter(),
        painted_tx(*old(tx), *final(tx), sid@, |t: (u32, u32)| tiles@.contains(t), terrain_glyph(kind), res),
{
    let tpath = crate::schema::terrain_path(sid);
    let cpath = crate::schema::collision_path(sid);
    let t = tx.read(&tpath);
    let c = tx.read(&cpath);
    let (t2, c2, changed) = match paint_writes(t, c, sid, tiles, kind) {
        Ok(w) => w,
        Err(m) => return Err(OpError::Apply(m)),
    };
    proof {
        reveal_strlit("regions/");
        reveal_strlit("/layers/terrain.json");
        reveal_strlit("/layers/collision.json");
        assert(tpath@.len() != cpath@.len());
    }
    stage_if_changed(tx, tpath, t2);
    stage_if_changed(tx, cpath, c2);
    Ok(changed)
}

fn unknown_terrain(kind: &str) -> (res: String)
    ensures
        res@ == "plan carries unknown terrain "@ + crate::ops::debug_text(kind@),
{
    let mut m: Vec<char> = Vec::new();
    crate::text::push_str(&mut m, "plan carries unknown terrain ");
    let d = crate::ops::debug_str(kind);
    crate::text::push_str(&mut m, d.as_str());
    crate::text::string_of(&m)
}

impl PaintArea {
    /// Paints the plan's rectangle with its terrain kind and recomputes the
    /// collision layer over it.
    pub fn apply(&self, tx: &mut Transaction, plan: PaintAreaPlan) -> (res: Result<PaintAreaOutput, OpError>)
        requires
            old(tx).wf(),
            plan.x + plan.w <= u32::MAX + 1,
            plan.y + plan.h <= u32::MAX + 1,
        ensures
            final(tx).wf(),
            final(tx).snapshot() == old(tx).snapshot(),
            final(tx).counter() == old(tx).counter(),
            match terrain_of_kind(plan.terrain@) {
                Some(kind) => painted_tx(*old(tx), *final(tx), plan.region_stable_id@,
                    |t: (u32, u32)| in_rect(t, plan.x as int, plan.y as int, plan.w as int, plan.h as int), terrain_glyph(kind),
                    match res { Ok(o) => Ok(o.tiles_changed), Err(e) => Err(e) }),
                None => res is Err && res->Err_0 == OpError::Apply(res->Err_0->Apply_0)
                    && res->Err_0->Apply_0@ == "plan carries unknown terrain "@ + crate::ops::debug_text(plan.terrain@)
                    && forall|q: Seq<char>| #[trigger] final(tx).read_view(q) == old(tx).read_view(q),
            },
    {
        let kind = match Terrain::from_kind(plan.terrain.as_str()) {
            Some(k) => k,
            None => return Err(OpError::Apply(unknown_terrain(plan.terrain.as_str()))),
        };
        let tiles = crate::schema::rect_tiles(plan.x, plan.y, plan.w, plan.h);
        assert((|t: (u32, u32)| tiles@.contains(t)) =~= (|t: (u32, u32)| in_rect(t, plan.x as int, plan.y as int, plan.w as int, plan.h as int)));
        match paint_in(tx, plan.region_stable_id.as_str(), &tiles, kind) {
            Ok(n) => Ok(PaintAreaOutput { tiles_changed: n }),
            Err(e) => Err(e),
        }
    }

    /// The changes painting the rectangle would make.
    pub fn diff(&self, files: &Vec<(RelPath, Json)>, plan: &PaintAreaPlan) -> (res: Result<Diff, OpError>)
        requires
            plan.x + plan.w <= u32::MAX + 1,
            plan.y + plan.h <= u32::MAX + 1,
        ensures
            match terrain_of_kind(plan.terrain@) {
                Some(kind) => painted_diff(files_view(files@), plan.region_stable_id@,
                    |t: (u32, u32)| in_rect(t, plan.x as int, plan.y as int, plan.w as int, plan.h as int), terrain_glyph(kind), res),
                None => res is Err && res->Err_0 == OpError::Diff(res->Err_0->Diff_0)
                    && res->Err_0->Diff_0@ == "plan carries unknown terrain "@ + crate::ops::debug_text(plan.terrain@),
            },
    {
        let kind = match Terrain::from_kind(plan.terrain.as_str()) {
            Some(k) => k,
            None => return Err(OpError::Diff(unknown_terrain(plan.terrain.as_str()))),
        };
        let tiles = crate::schema::rect_tiles(plan.x, plan.y, plan.w, plan.h);
        assert((|t: (u32, u32)| tiles@.contains(t)) =~= (|t: (u32, u32)| in_rect(t, plan.x as int, plan.y as int, plan.w as int, plan.h as int)));
        paint_diff(files, plan.region_stable_id.as_str(), &tiles, kind)
    }
}

impl PaintPath {
    /// Paints the plan's L-shaped path with its terrain kind and recomputes
    /// the collision layer over it.
    pub fn apply(&self, tx: &mut Transaction, plan: PaintPathPlan) -> (res: Result<PaintPathOutput, OpError>)
        requires
            old(tx).wf(),
        ensures
            final(tx).wf(),
            final(tx).snapshot() == old(tx).snapshot(),
            final(tx).counter() == old(tx).counter(),
            match terrain_of_kind(plan.terrain@) {
                Some(kind) => painted_tx(*old(tx), *final(tx), plan.region_stable_id@,
                    |t: (u32, u32)| on_l_path(t, plan.from, plan.to), terrain_glyph(kind),
                    match res { Ok(o) => Ok(o.tiles_changed), Err(e) => Err(e) }),
                None => res is Err && res->Err_0 == OpError::Apply(res->Err_0->Apply_0)
                    && res->Err_0->Apply_0@ == "plan carries unknown terrain "@ + crate::ops::debug_text(plan.terrain@)
                    && forall|q: Seq<char>| #[trigger] final(tx).read_view(q) == old(tx).read_view(q),
            },
    {
        let kind = match Terrain::from_kind(plan.terrain.as_str()) {
            Some(k) => k,
            None => return Err(OpError::Apply(unknown_terrain(plan.terrain.as_str()))),
        };
        let tiles = crate::schema::l_path_tiles(plan.from, plan.to);
        assert((|t: (u32, u32)| tiles@.contains(t)) =~= (|t: (u32, u32)| on_l_path(t, plan.from, plan.to)));
        match paint_in(tx, plan.region_stable_id.as_str(), &tiles, kind) {
            Ok(n) => Ok(PaintPathOutput { tiles_changed: n }),
            Err(e) => Err(e),
        }
    }

    /// The changes painting the path would make.
    pub fn diff(&self, files: &Vec<(RelPath, Json)>, plan: &PaintPathPlan) -> (res: Result<Diff, OpError>)
        ensures
            match terrain_of_kind(plan.terrain@) {
                Some(kind) => painted_diff(files_view(files@), plan.region_stable_id@,
                    |t: (u32, u32)| on_l_path(t, plan.from, plan.to), terrain_glyph(kind), res),
                None => res is Err && res->Err_0 == OpError::Diff(res->Err_0->Diff_0)
                    && res->Err_0->Diff_0@ == "plan carries unknown terrain "@ + crate::ops::debug_text(plan.terrain@),
            },
    {
        let kind = match Terrain::from_kind(plan.terrain.as_str()) {
            Some(k) => k,
            None => return Err(OpError::Diff(unknown_terrain(plan.terrain.as_str()))),
        };
        let tiles = crate::schema::l_path_tiles(plan.from, plan.to);
        assert((|t: (u32, u32)| tiles@.contains(t)) =~= (|t: (u32, u32)| on_l_path(t, plan.from, plan.to)));
        paint_diff(files, plan.region_stable_id.as_str(), &tiles, kind)
    }
}

/// A paint's diff: the terrain and collision writes, less those that
/// change nothing.
pub open spec fn painted_diff(
    fv: Seq<(Seq<char>, JsonView)>,
    sid: Seq<char>,
    tiles: spec_fn((u32, u32)) -> bool,
    g: char,
    res: Result<Diff, OpError>,
) -> bool {
    let tpath = terrain_path_text(sid);
    let cpath = collision_path_text(sid);
    let outcome = paint_outcome(sid, crate::regions::file_at(fv, tpath), crate::regions::file_at(fv, cpath), tiles, g);
    &&& outcome is Ok ==> res is Ok && changes_view(res->Ok_0.changes@)
        == crate::edits::diff_changes(fv, seq![(tpath, outcome->Ok_0.0), (cpath, outcome->Ok_0.1)])
    &&& outcome is Err ==> res is Err && res->Err_0 == OpError::Diff(res->Err_0->Diff_0)
        && res->Err_0->Diff_0@ == outcome->Err_0
}

fn paint_diff(files: &Vec<(RelPath, Json)>, sid: &str, tiles: &Vec<(u32, u32)>, kind: Terrain) -> (res: Result<Diff, OpError>)
    requires
        tiles@.no_duplicates(),
    ensures
        painted_diff(files_view(files@), sid@, |t: (u32, u32)| tiles@.contains(t), terrain_glyph(kind), res),
{
    let tpath = crate::schema::terrain_path(sid);
    let cpath = crate::schema::collision_path(sid);
    let t = match crate::edits::file_value(files, &tpath) {
        Some(v) => Some(v.duplicate()),
        None => None,
    };
    let c = match crate::edits::file_value(files, &cpath) {
        Some(v) => Some(v.duplicate()),
        None => None,
    };
    let (t2, c2, _) = match paint_writes(t, c, sid, tiles, kind) {
        Ok(w) => w,
        Err(m) => return Err(OpError::Diff(m)),
    };
    let writes = vec![(tpath, t2), (cpath, c2)];
    let ghost w = writes@;
    let res = crate::edits::diff_of(files, writes);
    assert(crate::edits::writes_view(w) =~= seq![(w[0].0@, w[0].1@), (w[1].0@, w[1].1@)]);
    Ok(res)
}

} // verus!
