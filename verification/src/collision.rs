//! Explicit collision overrides on a region's collision file, as
//! `rpg.set_collision` records them: every tile of a rectangle gets an
//! `"x,y" -> solid` override (surviving later paints), and the effective
//! rows are set to match.

use vstd::prelude::*;

use crate::edits::{with_key, rows_value};
use crate::integrity::files_view;
use crate::ir::RelPath;
use crate::op::{Diff, OpError};
use crate::ops::{SetCollision, SetCollisionOutput, SetCollisionPlan};
use crate::schema::collision_path_text;
use crate::tx::{Transaction, changes_view};
use crate::json::{Json, JsonView, field_of, view_items, view_members};
use crate::layers::solid_char;
use crate::query::layer_rows;
use crate::text::decimal;

verus! {

/// The override key of tile `(x, y)`: `"x,y"`.
pub open spec fn tile_key(x: u32, y: u32) -> Seq<char> {
    decimal(x as nat) + ","@ + decimal(y as nat)
}

/// Overrides `ms` with the first `n` tiles of row `ty` from `x` set.
pub open spec fn keyed_row(ms: Seq<(Seq<char>, JsonView)>, x: u32, ty: u32, n: nat, solid: bool) -> Seq<(Seq<char>, JsonView)>
    decreases n,
{
    if n == 0 {
        ms
    } else {
        with_key(keyed_row(ms, x, ty, (n - 1) as nat, solid), tile_key((x + n - 1) as u32, ty), JsonView::Bool(solid))
    }
}

/// Overrides `ms` with the first `rows` rows of the `w`-wide rectangle at
/// `(x, y)` set, row by row.
pub open spec fn keyed_rect(ms: Seq<(Seq<char>, JsonView)>, x: u32, y: u32, w: nat, rows: nat, solid: bool) -> Seq<(Seq<char>, JsonView)>
    decreases rows,
{
    if rows == 0 {
        ms
    } else {
        keyed_row(keyed_rect(ms, x, y, w, (rows - 1) as nat, solid), x, (y + rows - 1) as u32, w, solid)
    }
}

pub open spec fn in_rect(tx: int, ty: int, x: u32, y: u32, w: u32, h: u32) -> bool {
    x <= tx < x + w && y <= ty < y + h
}

/// The rows with every existing tile of the rectangle set to `c`.
pub open spec fn rows_set(rows: Seq<Seq<char>>, x: u32, y: u32, w: u32, h: u32, c: char) -> Seq<Seq<char>> {
    Seq::new(rows.len(), |ty: int| Seq::new(rows[ty].len(), |tx: int| if in_rect(tx, ty, x, y, w, h) { c } else { rows[ty][tx] }))
}

/// Whether the tile exists in `rows` and differs from `c`.
pub open spec fn differs(rows: Seq<Seq<char>>, tx: int, ty: int, c: char) -> bool {
    0 <= ty < rows.len() && 0 <= tx < rows[ty].len() && rows[ty][tx] != c
}

/// The tiles among the first `n` of row `ty` from `x` that exist and
/// differ from `c`.
pub open spec fn count_row(rows: Seq<Seq<char>>, x: u32, ty: u32, n: nat, c: char) -> nat
    decreases n,
{
    if n == 0 {
        0
    } else {
        count_row(rows, x, ty, (n - 1) as nat, c) + if differs(rows, x + n - 1, ty as int, c) { 1nat } else { 0nat }
    }
}

/// The tiles of the first `k` rows of the rectangle that exist and differ
/// from `c`: how many a set to `c` changes.
pub open spec fn count_rect(rows: Seq<Seq<char>>, x: u32, y: u32, w: nat, k: nat, c: char) -> nat
    decreases k,
{
    if k == 0 {
        0
    } else {
        count_rect(rows, x, y, w, (k - 1) as nat, c) + count_row(rows, x, (y + k - 1) as u32, w, c)
    }
}

/// Recording `solid` overrides on the `w × h` rectangle at `(x, y)` of the
/// collision file `c`: the new file and the number of tiles whose
/// effective solidity changed; an error when the file's overrides are not
/// an object.
pub open spec fn overridden(c: JsonView, x: u32, y: u32, w: u32, h: u32, solid: bool) -> Result<(JsonView, nat), Seq<char>> {
    match c {
        JsonView::Object(ms) => match field_of(c, "overrides"@) {
            Some(JsonView::Object(oms)) => {
                let rows = layer_rows(c);
                let g = solid_char(solid);
                let ms1 = with_key(ms, "overrides"@, JsonView::Object(keyed_rect(oms, x, y, w as nat, h as nat, solid)));
                let ms2 = with_key(ms1, "rows"@, rows_value(rows_set(rows, x, y, w, h, g)));
                Ok((JsonView::Object(ms2), count_rect(rows, x, y, w as nat, h as nat, g)))
            },
            _ => Err("collision overrides must be an object"@),
        },
        _ => Err("collision overrides must be an object"@),
    }
}

pub open spec fn chars_rows(rows: Seq<Vec<char>>) -> Seq<Seq<char>> {
    Seq::new(rows.len(), |i: int| rows[i]@)
}

/// The tile `(tx, ty)` was set by the time the loop reached row `y + dy`,
/// column `x + dx`.
pub open spec fn processed(tx: int, ty: int, x: u32, y: u32, w: u32, dy: int, dx: int) -> bool {
    ||| (y <= ty < y + dy && x <= tx < x + w)
    ||| (ty == y + dy && x <= tx < x + dx)
}

pub open spec fn rows_partial(rows: Seq<Seq<char>>, x: u32, y: u32, w: u32, dy: int, dx: int, c: char) -> Seq<Seq<char>> {
    Seq::new(rows.len(), |ty: int| Seq::new(rows[ty].len(), |tx: int| if processed(tx, ty, x, y, w, dy, dx) { c } else { rows[ty][tx] }))
}

proof fn lemma_count_row_bound(rows: Seq<Seq<char>>, x: u32, ty: u32, n: nat, c: char)
    ensures
        count_row(rows, x, ty, n, c) <= n,
    decreases n,
{
    if n > 0 {
        lemma_count_row_bound(rows, x, ty, (n - 1) as nat, c);
    }
}

proof fn lemma_count_rect_bound(rows: Seq<Seq<char>>, x: u32, y: u32, w: nat, k: nat, c: char)
    ensures
        count_rect(rows, x, y, w, k, c) <= k * w,
    decreases k,
{
    if k > 0 {
        lemma_count_rect_bound(rows, x, y, w, (k - 1) as nat, c);
        lemma_count_row_bound(rows, x, (y + k - 1) as u32, w, c);
        assert((k - 1) * w + w == k * w) by (nonlinear_arith);
    }
}

pub(crate) fn tile_key_text(tx: u32, ty: u32) -> (res: String)
    ensures
        res@ == tile_key(tx, ty),
{
    let mut out: Vec<char> = Vec::new();
    crate::text::push_decimal(&mut out, tx as u64, 0);
    out.push(',');
    crate::text::push_decimal(&mut out, ty as u64, 0);
    proof { reveal_strlit(","); }
    assert(out@ =~= tile_key(tx, ty));
    crate::text::string_of(&out)
}

pub(crate) fn rows_chars(c: &Json) -> (res: Vec<Vec<char>>)
    ensures
        chars_rows(res@) == layer_rows(c@),
{
    let rs = crate::regions::array_of(c, "rows");
    let ghost rv = view_items(rs@);
    proof { crate::json::lemma_view_items_len(rs@); }
    let mut out: Vec<Vec<char>> = Vec::new();
    let mut i: usize = 0;
    while i < rs.len()
        invariant
            i <= rs@.len(),
            rv == view_items(rs@),
            rv.len() == rs@.len(),
            forall|k: int| 0 <= k < rs@.len() ==> #[trigger] rv[k] == rs@[k]@,
            out@.len() == i,
            forall|k: int| 0 <= k < i ==> (#[trigger] out@[k])@ == crate::regions::row_chars(rv[k]),
        decreases rs@.len() - i,
    {
        let row = match &rs[i] {
            Json::Str(s) => crate::text::chars_of(s.as_str()),
            _ => Vec::new(),
        };
        out.push(row);
        i = i + 1;
    }
    assert(chars_rows(out@) =~= layer_rows(c@));
    out
}

pub(crate) fn rows_json(rows: &Vec<Vec<char>>) -> (res: Json)
    ensures
        res@ == rows_value(chars_rows(rows@)),
{
    let mut items: Vec<Json> = Vec::new();
    let mut i: usize = 0;
    while i < rows.len()
        invariant
            i <= rows@.len(),
            items@.len() == i,
            forall|k: int| 0 <= k < i ==> (#[trigger] items@[k])@ == JsonView::Str(rows@[k]@),
        decreases rows@.len() - i,
    {
        items.push(Json::Str(crate::text::string_of(&rows[i])));
        i = i + 1;
    }
    proof { crate::json::lemma_view_items_len(items@); }
    let res = Json::Array(items);
    assert(view_items(items@) =~= Seq::new(rows@.len() as nat, |y: int| JsonView::Str(chars_rows(rows@)[y])));
    res
}

/// Sets tile `(tx, ty)` of the rectangle: records its override and, when
/// the tile exists, its effective cell.
#[verifier::rlimit(30)]
fn set_tile(
    rows: &mut Vec<Vec<char>>,
    oms: &mut Vec<(String, Json)>,
    changed: &mut u64,
    tx: u32,
    ty: u32,
    solid: bool,
    Ghost(rows0): Ghost<Seq<Seq<char>>>,
    Ghost(x): Ghost<u32>,
    Ghost(y): Ghost<u32>,
    Ghost(w): Ghost<u32>,
    Ghost(dy): Ghost<int>,
    Ghost(dx): Ghost<int>,
)
    requires
        0 <= dx < w,
        tx == x + dx,
        ty == y + dy,
        y <= ty,
        chars_rows(old(rows)@) == rows_partial(rows0, x, y, w, dy, dx, solid_char(solid)),
        *old(changed) as int + 1 <= u64::MAX,
    ensures
        chars_rows(final(rows)@) == rows_partial(rows0, x, y, w, dy, dx + 1, solid_char(solid)),
        view_members(final(oms)@) == with_key(view_members(old(oms)@), tile_key(tx, ty), JsonView::Bool(solid)),
        *final(changed) == *old(changed) + if differs(rows0, tx as int, ty as int, solid_char(solid)) { 1int } else { 0int },
{
    let key = tile_key_text(tx, ty);
    crate::edits::set_key(oms, key.as_str(), Json::Bool(solid));
    let g = if solid { '#' } else { '.' };
    let ghost before = chars_rows(rows@);
    let ghost target = rows_partial(rows0, x, y, w, dy, dx + 1, g);
    assert(before.len() == rows0.len());
    assert forall|k: int| 0 <= k < before.len() implies #[trigger] before[k].len() == rows0[k].len() by {
        assert(before[k] == rows_partial(rows0, x, y, w, dy, dx, g)[k]);
    }
    if (ty as usize) < rows.len() && (tx as usize) < rows[ty as usize].len() {
        let cur = rows[ty as usize][tx as usize];
        assert(cur == before[ty as int][tx as int]);
        assert(!processed(tx as int, ty as int, x, y, w, dy, dx));
        assert(cur == rows0[ty as int][tx as int]);
        if cur != g {
            crate::layers::set_cell(rows, tx as usize, ty as usize, g);
            *changed = *changed + 1;
        }
    } else {
        proof {
            if (ty as int) < rows0.len() {
                assert(before[ty as int] == rows@[ty as int]@);
                assert(before[ty as int].len() == rows0[ty as int].len());
            }
        }
        assert(!differs(rows0, tx as int, ty as int, g));
    }
    proof {
        let after = chars_rows(rows@);
        assert(after.len() == target.len());
        assert forall|k: int| 0 <= k < after.len() implies #[trigger] after[k] =~= target[k] by {
            assert(before[k] == rows_partial(rows0, x, y, w, dy, dx, g)[k]);
        }
        assert(after =~= target);
    }
}

pub(crate) fn members_copy(o: &Vec<(String, Json)>) -> (res: Vec<(String, Json)>)
    ensures
        view_members(res@) == view_members(o@),
{
    let mut copy: Vec<(String, Json)> = Vec::new();
    let mut i: usize = 0;
    while i < o.len()
        invariant
            i <= o@.len(),
            copy@.len() == i,
            forall|k: int| 0 <= k < i ==> (#[trigger] copy@[k]).0@ == o@[k].0@ && copy@[k].1@ == o@[k].1@,
        decreases o@.len() - i,
    {
        copy.push((o[i].0.clone(), o[i].1.duplicate()));
        i = i + 1;
    }
    proof {
        crate::json::lemma_view_members_len(copy@);
        crate::json::lemma_view_members_len(o@);
    }
    assert(view_members(copy@) =~= view_members(o@));
    copy
}

/// Sets every tile of the `w × h` rectangle at `(x, y)`, row by row:
/// records its override and sets its existing cell. Returns how many cells
/// changed.
#[verifier::rlimit(40)]
fn override_tiles(rows: &mut Vec<Vec<char>>, oms: &mut Vec<(String, Json)>, x: u32, y: u32, w: u32, h: u32, solid: bool) -> (res: u64)
    requires
        x + w <= u32::MAX + 1,
        y + h <= u32::MAX + 1,
    ensures
        chars_rows(final(rows)@) == rows_set(chars_rows(old(rows)@), x, y, w, h, solid_char(solid)),
        view_members(final(oms)@) == keyed_rect(view_members(old(oms)@), x, y, w as nat, h as nat, solid),
        res == count_rect(chars_rows(old(rows)@), x, y, w as nat, h as nat, solid_char(solid)),
{
    let ghost oms0 = view_members(oms@);
    let ghost rows0 = chars_rows(rows@);
    let g = if solid { '#' } else { '.' };
    let mut changed: u64 = 0;
    let mut dy: u32 = 0;
    assert(rows_partial(rows0, x, y, w, 0, 0, g) =~= rows0) by {
        assert forall|k: int| 0 <= k < rows0.len() implies #[trigger] rows_partial(rows0, x, y, w, 0, 0, g)[k] =~= rows0[k] by {}
    }
    while dy < h
        invariant
            dy <= h,
            x + w <= u32::MAX + 1,
            y + h <= u32::MAX + 1,
            g == solid_char(solid),
            chars_rows(rows@) == rows_partial(rows0, x, y, w, dy as int, 0, g),
            view_members(oms@) == keyed_rect(oms0, x, y, w as nat, dy as nat, solid),
            changed as int == count_rect(rows0, x, y, w as nat, dy as nat, g),
        decreases h - dy,
    {
        let ty = y + dy;
        let mut dx: u32 = 0;
        assert(keyed_row(keyed_rect(oms0, x, y, w as nat, dy as nat, solid), x, ty, 0, solid) == keyed_rect(oms0, x, y, w as nat, dy as nat, solid));
        while dx < w
            invariant
                dx <= w,
                dy < h,
                ty == y + dy,
                x + w <= u32::MAX + 1,
                y + h <= u32::MAX + 1,
                g == solid_char(solid),
                chars_rows(rows@) == rows_partial(rows0, x, y, w, dy as int, dx as int, g),
                view_members(oms@) == keyed_row(keyed_rect(oms0, x, y, w as nat, dy as nat, solid), x, ty, dx as nat, solid),
                changed as int == count_rect(rows0, x, y, w as nat, dy as nat, g) + count_row(rows0, x, ty, dx as nat, g),
            decreases w - dx,
        {
            proof {
                lemma_count_rect_bound(rows0, x, y, w as nat, dy as nat, g);
                lemma_count_row_bound(rows0, x, ty, dx as nat, g);
                assert(dy * w + dx < u64::MAX) by (nonlinear_arith)
                    requires
                        dy < h,
                        dx < w,
                        h <= u32::MAX + 1,
                        w <= u32::MAX + 1,
                ;
                assert((dy as nat) * (w as nat) == dy * w);
            }
            let tx = x + dx;
            set_tile(rows, oms, &mut changed, tx, ty, solid, Ghost(rows0), Ghost(x), Ghost(y), Ghost(w), Ghost(dy as int), Ghost(dx as int));
            dx = dx + 1;
        }
        proof {
            let a = rows_partial(rows0, x, y, w, dy as int, w as int, g);
            let b = rows_partial(rows0, x, y, w, dy + 1, 0, g);
            assert forall|k: int| 0 <= k < a.len() implies #[trigger] a[k] =~= b[k] by {}
            assert(a =~= b);
        }
        dy = dy + 1;
    }
    proof {
        let a = rows_partial(rows0, x, y, w, h as int, 0, g);
        let b = rows_set(rows0, x, y, w, h, g);
        assert forall|k: int| 0 <= k < a.len() implies #[trigger] a[k] =~= b[k] by {}
        assert(a =~= b);
    }
    changed
}

/// Records `solid` overrides for every tile of the `w × h` rectangle at
/// `(x, y)` (row by row) and sets the effective rows to match. Returns the
/// number of tiles whose effective solidity changed (a repeated request
/// changes none); an error when the file's overrides are not an object.
#[verifier::rlimit(40)]
pub fn apply_collision_override(collision: &mut Json, x: u32, y: u32, w: u32, h: u32, solid: bool) -> (res: Result<u64, String>)
    requires
        x + w <= u32::MAX + 1,
        y + h <= u32::MAX + 1,
    ensures
        match overridden(old(collision)@, x, y, w, h, solid) {
            Ok((c2, n)) => res is Ok && res->Ok_0 == n && final(collision)@ == c2,
            Err(m) => res is Err && res->Err_0@ == m && final(collision)@ == old(collision)@,
        },
{
    let mut oms = match collision.get("overrides") {
        Some(Json::Object(o)) => members_copy(o),
        _ => return Err("collision overrides must be an object".to_string()),
    };
    let mut rows = rows_chars(collision);
    let changed = override_tiles(&mut rows, &mut oms, x, y, w, h, solid);
    let new_rows = rows_json(&rows);
    let mut taken = Json::Null;
    std::mem::swap(&mut taken, collision);
    match taken {
        Json::Object(mut ms) => {
            crate::edits::set_key(&mut ms, "overrides", Json::Object(oms));
            crate::edits::set_key(&mut ms, "rows", new_rows);
            *collision = Json::Object(ms);
            Ok(changed)
        },
        other => {
            *collision = other;
            Err("collision overrides must be an object".to_string())
        },
    }
}

/// Stages `after` at `path` only when it differs from the transaction's
/// current view: a no-op apply stages nothing.
pub fn stage_if_changed(tx: &mut Transaction, path: RelPath, after: Json)
    requires
        old(tx).wf(),
    ensures
        final(tx).wf(),
        final(tx).snapshot() == old(tx).snapshot(),
        final(tx).counter() == old(tx).counter(),
        final(tx).read_view(path@) == Some(after@),
        forall|q: Seq<char>| q != path@ ==> #[trigger] final(tx).read_view(q) == old(tx).read_view(q),
        old(tx).read_view(path@) == Some(after@) ==> final(tx).changes() == old(tx).changes(),
{
    let unchanged = match tx.read(&path) {
        Some(cur) => cur.same(&after),
        None => false,
    };
    if !unchanged {
        tx.write(path, after);
    }
}

/// Where `rpg.set_collision` leaves the region's collision file, or why it
/// fails.
pub open spec fn set_collision_outcome(region_sid: Seq<char>, collision: Option<JsonView>, plan: SetCollisionPlan) -> Result<(JsonView, nat), Seq<char>> {
    match collision {
        None => Err("region "@ + region_sid + " lacks "@ + collision_path_text(region_sid)),
        Some(c) => overridden(c, plan.x, plan.y, plan.w, plan.h, plan.solid),
    }
}

impl SetCollision {
    /// Records the plan's overrides on the region's collision file; the
    /// file is staged only when it changes.
    pub fn apply(&self, tx: &mut Transaction, plan: SetCollisionPlan) -> (res: Result<SetCollisionOutput, OpError>)
        requires
            old(tx).wf(),
            plan.x + plan.w <= u32::MAX + 1,
            plan.y + plan.h <= u32::MAX + 1,
        ensures
            final(tx).wf(),
            final(tx).snapshot() == old(tx).snapshot(),
            final(tx).counter() == old(tx).counter(),
            ({
                let cpath = collision_path_text(plan.region_stable_id@);
                let outcome = set_collision_outcome(plan.region_stable_id@, old(tx).read_view(cpath), plan);
                &&& outcome is Ok ==> {
                    &&& res is Ok
                    &&& res->Ok_0.tiles_changed == outcome->Ok_0.1
                    &&& final(tx).read_view(cpath) == Some(outcome->Ok_0.0)
                    &&& forall|q: Seq<char>| q != cpath ==> #[trigger] final(tx).read_view(q) == old(tx).read_view(q)
                }
                &&& outcome is Err ==> {
                    &&& res is Err
                    &&& res->Err_0 == OpError::Apply(res->Err_0->Apply_0)
                    &&& res->Err_0->Apply_0@ == outcome->Err_0
                    &&& forall|q: Seq<char>| #[trigger] final(tx).read_view(q) == old(tx).read_view(q)
                }
            }),
    {
        let path = crate::schema::collision_path(plan.region_stable_id.as_str());
        let mut collision = match tx.read(&path) {
            Some(c) => c,
            None => return Err(OpError::Apply(crate::edits::lacks_text(plan.region_stable_id.as_str(), &path))),
        };
        let changed = match apply_collision_override(&mut collision, plan.x, plan.y, plan.w, plan.h, plan.solid) {
            Ok(n) => n,
            Err(m) => return Err(OpError::Apply(m)),
        };
        stage_if_changed(tx, path, collision);
        Ok(SetCollisionOutput { tiles_changed: changed })
    }

    /// The change recording the plan's overrides would make.
    pub fn diff(&self, files: &Vec<(RelPath, Json)>, plan: &SetCollisionPlan) -> (res: Result<Diff, OpError>)
        requires
            plan.x + plan.w <= u32::MAX + 1,
            plan.y + plan.h <= u32::MAX + 1,
        ensures
            ({
                let cpath = collision_path_text(plan.region_stable_id@);
                let outcome = set_collision_outcome(plan.region_stable_id@, crate::regions::file_at(files_view(files@), cpath), *plan);
                &&& outcome is Ok ==> res is Ok && changes_view(res->Ok_0.changes@)
                    == crate::edits::diff_changes(files_view(files@), seq![(cpath, outcome->Ok_0.0)])
                &&& outcome is Err ==> res is Err && res->Err_0 == OpError::Diff(res->Err_0->Diff_0)
                    && res->Err_0->Diff_0@ == outcome->Err_0
            }),
    {
        let path = crate::schema::collision_path(plan.region_stable_id.as_str());
        let mut collision = match crate::edits::file_value(files, &path) {
            Some(c) => c.duplicate(),
            None => return Err(OpError::Diff(crate::edits::lacks_text(plan.region_stable_id.as_str(), &path))),
        };
        match apply_collision_override(&mut collision, plan.x, plan.y, plan.w, plan.h, plan.solid) {
            Ok(_) => {},
            Err(m) => return Err(OpError::Diff(m)),
        }
        let writes = vec![(path, collision)];
        let ghost w = writes@;
        let res = crate::edits::diff_of(files, writes);
        assert(crate::edits::writes_view(w) =~= seq![(w[0].0@, w[0].1@)]);
        Ok(res)
    }
}

} // verus!
