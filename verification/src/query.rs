//! `rpg.query_region`, the read operation: a region's text map (the terrain
//! rows exactly, the spawn a separate field), its collision rows, its
//! placements with their entities' handles, and its warps.

use vstd::prelude::*;

use crate::edits::{legend_value, text_of};
use crate::integrity::files_view;
use crate::ir::RelPath;
use crate::json::{Json, JsonView, field_of, text_field, view_items};
use crate::op::OpError;
use crate::ops::{PlacementOut, QueryRegion, QueryRegionRequest, region_not_found_text};
use crate::regions::{array_field, entity_handle, file_at, first_where, row_chars};
use crate::schema::{collision_path_text, region_path_text, terrain_path_text};
use crate::walk::region_named;

verus! {

/// What `rpg.query_region` answers.
#[derive(Debug)]
pub struct QueryRegionOutput {
    pub id: String,
    pub stable_id: String,
    pub width: u32,
    pub height: u32,
    pub spawn: [u32; 2],
    pub legend: Json,
    pub rows: Vec<String>,
    pub collision_rows: Vec<String>,
    pub placements: Vec<PlacementOut>,
    pub warps: Vec<Json>,
}

/// A point read strictly, as a `[u32; 2]` deserializes: exactly two
/// entries, each an integer in `u32` range.
pub open spec fn exact_point(v: Option<JsonView>) -> Option<[u32; 2]> {
    match v {
        Some(JsonView::Array(a)) => if a.len() == 2 {
            match a[0] {
                JsonView::UInt(x) => match a[1] {
                    JsonView::UInt(y) => if x <= u32::MAX && y <= u32::MAX { Some([x as u32, y as u32]) } else { None },
                    _ => None,
                },
                _ => None,
            }
        } else {
            None
        },
        _ => None,
    }
}

pub open spec fn point_or_origin(v: Option<JsonView>) -> [u32; 2] {
    match exact_point(v) {
        Some(p) => p,
        None => [0, 0],
    }
}

/// A placement as the query lists it: stable id, its entity's handle (the
/// stable id when no entity carries it), tile, facing (`down` by default).
pub open spec fn placement_out(fv: Seq<(Seq<char>, JsonView)>, p: JsonView) -> (Seq<char>, Seq<char>, [u32; 2], Seq<char>) {
    let sid = text_field(p, "stable_id"@);
    (sid, match entity_handle(fv, sid) {
        Some(h) => h,
        None => sid,
    }, point_or_origin(field_of(p, "at"@)), match text_of(field_of(p, "facing"@)) {
        Some(f) => f,
        None => "down"@,
    })
}

/// The answer as values.
pub struct QueryView {
    pub id: Seq<char>,
    pub stable_id: Seq<char>,
    pub width: u32,
    pub height: u32,
    pub spawn: [u32; 2],
    pub legend: JsonView,
    pub rows: Seq<Seq<char>>,
    pub collision_rows: Seq<Seq<char>>,
    pub placements: Seq<(Seq<char>, Seq<char>, [u32; 2], Seq<char>)>,
    pub warps: Seq<JsonView>,
}

pub open spec fn output_view(o: QueryRegionOutput) -> QueryView {
    QueryView {
        id: o.id@,
        stable_id: o.stable_id@,
        width: o.width,
        height: o.height,
        spawn: o.spawn,
        legend: o.legend@,
        rows: Seq::new(o.rows@.len(), |i: int| o.rows@[i]@),
        collision_rows: Seq::new(o.collision_rows@.len(), |i: int| o.collision_rows@[i]@),
        placements: Seq::new(o.placements@.len(), |i: int| (o.placements@[i].stable_id@, o.placements@[i].id@, o.placements@[i].at, o.placements@[i].facing@)),
        warps: Seq::new(o.warps@.len(), |i: int| o.warps@[i]@),
    }
}

/// The text rows of a layer file (none when it has no array of rows).
pub open spec fn layer_rows(layer: JsonView) -> Seq<Seq<char>> {
    let rs = array_field(layer, "rows"@);
    Seq::new(rs.len(), |i: int| row_chars(rs[i]))
}

/// The answer about region `r` (stable id `sid`) given its layers.
pub open spec fn answer(fv: Seq<(Seq<char>, JsonView)>, sid: Seq<char>, r: JsonView, terrain: JsonView, collision: JsonView) -> QueryView {
    let ps = array_field(r, "placements"@);
    QueryView {
        id: text_field(r, "id"@),
        stable_id: sid,
        width: crate::regions::dimension(r, "width"@),
        height: crate::regions::dimension(r, "height"@),
        spawn: point_or_origin(field_of(r, "spawn"@)),
        legend: match field_of(terrain, "legend"@) {
            Some(l) => l,
            None => legend_value(),
        },
        rows: layer_rows(terrain),
        collision_rows: layer_rows(collision),
        placements: Seq::new(ps.len(), |i: int| placement_out(fv, ps[i])),
        warps: array_field(r, "warps"@),
    }
}

/// Why a query fails: no region carries the handle (a request error), or
/// one of the region's layers is missing.
pub enum QueryFailure {
    NotFound(Seq<char>),
    Lacks(Seq<char>),
}

pub open spec fn lacks_text(sid: Seq<char>, path: Seq<char>) -> Seq<char> {
    "region "@ + sid + " lacks "@ + path
}

/// Querying region `handle`: the answer, or why not.
pub open spec fn query_outcome(fv: Seq<(Seq<char>, JsonView)>, handle: Seq<char>) -> Result<QueryView, QueryFailure> {
    match first_where(fv, region_named(handle)) {
        None => Err(QueryFailure::NotFound(region_not_found_text(handle))),
        Some(i) => {
            let r = fv[i].1;
            let sid = text_field(r, "stable_id"@);
            match file_at(fv, terrain_path_text(sid)) {
                None => Err(QueryFailure::Lacks(lacks_text(sid, terrain_path_text(sid)))),
                Some(t) => match file_at(fv, collision_path_text(sid)) {
                    None => Err(QueryFailure::Lacks(lacks_text(sid, collision_path_text(sid)))),
                    Some(c) => Ok(answer(fv, sid, r, t, c)),
                },
            }
        },
    }
}

/// The index of the first region file carrying `handle`.
fn region_file_index(files: &Vec<(RelPath, Json)>, handle: &str) -> (res: Option<usize>)
    ensures
        match res {
            Some(i) => first_where(files_view(files@), region_named(handle@)) == Some(i as int) && i < files@.len(),
            None => first_where(files_view(files@), region_named(handle@)) is None,
        },
{
    let ghost fv = files_view(files@);
    let mut i: usize = 0;
    while i < files.len()
        invariant
            i <= files@.len(),
            fv == files_view(files@),
            forall|j: int| 0 <= j < i ==> !(region_named(handle@))(#[trigger] fv[j]),
        decreases files@.len() - i,
    {
        assert(fv[i as int] == (files@[i as int].0@, files@[i as int].1@));
        if crate::walk::is_region_named_exec(&files[i].0, &files[i].1, handle) {
            proof { crate::regions::lemma_first_where_at(fv, region_named(handle@), i as int); }
            return Some(i);
        }
        i = i + 1;
    }
    proof {
        crate::regions::lemma_first_where(fv, region_named(handle@));
        if first_where(fv, region_named(handle@)) is Some {
            let k = first_where(fv, region_named(handle@)).unwrap();
            assert(!(region_named(handle@))(fv[k]));
        }
    }
    None
}

fn exact_point_of(v: Option<&Json>) -> (res: [u32; 2])
    ensures
        res == point_or_origin(match v {
            Some(j) => Some(j@),
            None => None,
        }),
{
    match v {
        Some(Json::Array(a)) => {
            proof { crate::json::lemma_view_items_len(a@); }
            if a.len() != 2 {
                return [0, 0];
            }
            match (&a[0], &a[1]) {
                (Json::UInt(x), Json::UInt(y)) => if *x <= 0xffff_ffffu64 && *y <= 0xffff_ffffu64 {
                    [*x as u32, *y as u32]
                } else {
                    [0, 0]
                },
                _ => [0, 0],
            }
        },
        _ => [0, 0],
    }
}

fn layer_rows_of(layer: &Json) -> (res: Vec<String>)
    ensures
        Seq::new(res@.len(), |i: int| res@[i]@) == layer_rows(layer@),
{
    let rs = crate::regions::array_of(layer, "rows");
    let ghost rv = view_items(rs@);
    proof { crate::json::lemma_view_items_len(rs@); }
    let mut out: Vec<String> = Vec::new();
    let mut i: usize = 0;
    while i < rs.len()
        invariant
            i <= rs@.len(),
            rv == view_items(rs@),
            rv.len() == rs@.len(),
            forall|k: int| 0 <= k < rs@.len() ==> #[trigger] rv[k] == rs@[k]@,
            out@.len() == i,
            forall|k: int| 0 <= k < i ==> (#[trigger] out@[k])@ == row_chars(rv[k]),
        decreases rs@.len() - i,
    {
        let text = match &rs[i] {
            Json::Str(s) => s.clone(),
            _ => String::new(),
        };
        out.push(text);
        i = i + 1;
    }
    assert(Seq::new(out@.len(), |k: int| out@[k]@) =~= layer_rows(layer@));
    out
}

fn placement_out_of(files: &Vec<(RelPath, Json)>, p: &Json) -> (res: PlacementOut)
    ensures
        (res.stable_id@, res.id@, res.at, res.facing@) == placement_out(files_view(files@), p@),
{
    let sid = match p.get("stable_id") {
        Some(Json::Str(s)) => s.clone(),
        _ => String::new(),
    };
    assert(sid@ == text_field(p@, "stable_id"@));
    let id = match crate::regions::entity_handle_of(files, sid.as_str()) {
        Some(h) => h,
        None => sid.clone(),
    };
    let at = exact_point_of(p.get("at"));
    let facing = match p.get("facing") {
        Some(Json::Str(f)) => f.clone(),
        _ => "down".to_string(),
    };
    PlacementOut { stable_id: sid, id, at, facing }
}

fn placements_of(files: &Vec<(RelPath, Json)>, r: &Json) -> (res: Vec<PlacementOut>)
    ensures
        Seq::new(res@.len(), |i: int| (res@[i].stable_id@, res@[i].id@, res@[i].at, res@[i].facing@))
            == Seq::new(array_field(r@, "placements"@).len(), |i: int| placement_out(files_view(files@), array_field(r@, "placements"@)[i])),
{
    let ps = crate::regions::array_of(r, "placements");
    let ghost pv = view_items(ps@);
    proof { crate::json::lemma_view_items_len(ps@); }
    let mut out: Vec<PlacementOut> = Vec::new();
    let mut i: usize = 0;
    while i < ps.len()
        invariant
            i <= ps@.len(),
            pv == view_items(ps@),
            pv.len() == ps@.len(),
            forall|k: int| 0 <= k < ps@.len() ==> #[trigger] pv[k] == ps@[k]@,
            out@.len() == i,
            forall|k: int| 0 <= k < i ==> (#[trigger] out@[k].stable_id@, out@[k].id@, out@[k].at, out@[k].facing@) == placement_out(files_view(files@), pv[k]),
        decreases ps@.len() - i,
    {
        out.push(placement_out_of(files, &ps[i]));
        i = i + 1;
    }
    assert(Seq::new(out@.len(), |k: int| (out@[k].stable_id@, out@[k].id@, out@[k].at, out@[k].facing@))
        =~= Seq::new(pv.len(), |k: int| placement_out(files_view(files@), pv[k])));
    out
}

fn warps_of(r: &Json) -> (res: Vec<Json>)
    ensures
        Seq::new(res@.len(), |i: int| res@[i]@) == array_field(r@, "warps"@),
{
    let ws = crate::regions::array_of(r, "warps");
    proof { crate::json::lemma_view_items_len(ws@); }
    let mut out: Vec<Json> = Vec::new();
    let mut i: usize = 0;
    while i < ws.len()
        invariant
            i <= ws@.len(),
            out@.len() == i,
            forall|k: int| 0 <= k < i ==> (#[trigger] out@[k])@ == ws@[k]@,
        decreases ws@.len() - i,
    {
        out.push(ws[i].duplicate());
        i = i + 1;
    }
    assert(Seq::new(out@.len(), |k: int| out@[k]@) =~= view_items(ws@));
    out
}

fn lacks(sid: &str, path: &RelPath) -> (res: OpError)
    ensures
        res == OpError::Apply(res->Apply_0),
        res->Apply_0@ == lacks_text(sid@, path@),
{
    let mut m: Vec<char> = Vec::new();
    crate::text::push_str(&mut m, "region ");
    crate::text::push_str(&mut m, sid);
    crate::text::push_str(&mut m, " lacks ");
    crate::text::push_str(&mut m, path.as_str());
    OpError::Apply(crate::text::string_of(&m))
}

/// The answer about a found region.
fn answer_of(files: &Vec<(RelPath, Json)>, sid: String, r: &Json, terrain: &Json, collision: &Json) -> (res: QueryRegionOutput)
    ensures
        output_view(res) == answer(files_view(files@), sid@, r@, terrain@, collision@),
{
    let legend = match terrain.get("legend") {
        Some(l) => l.duplicate(),
        None => crate::edits::legend_json(),
    };
    let id = match r.get("id") {
        Some(Json::Str(s)) => s.clone(),
        _ => String::new(),
    };
    assert(id@ == text_field(r@, "id"@));
    let rows = layer_rows_of(terrain);
    let collision_rows = layer_rows_of(collision);
    let placements = placements_of(files, r);
    let warps = warps_of(r);
    let out = QueryRegionOutput {
        id,
        stable_id: sid,
        width: crate::regions::dimension_of(r, "width"),
        height: crate::regions::dimension_of(r, "height"),
        spawn: exact_point_of(r.get("spawn")),
        legend,
        rows,
        collision_rows,
        placements,
        warps,
    };
    assert(output_view(out).placements =~= answer(files_view(files@), out.stable_id@, r@, terrain@, collision@).placements);
    out
}

impl QueryRegion {
    /// Reads region `req.region`: refused (`rpg.region.not_found`) when no
    /// region carries the handle, an apply error when a layer is missing.
    pub fn query(&self, files: &Vec<(RelPath, Json)>, req: QueryRegionRequest) -> (res: Result<QueryRegionOutput, OpError>)
        ensures
            match query_outcome(files_view(files@), req.region@) {
                Ok(v) => res is Ok && output_view(res->Ok_0) == v,
                Err(QueryFailure::NotFound(m)) => res is Err && res->Err_0 == OpError::InvalidRequest(res->Err_0->InvalidRequest_0)
                    && res->Err_0->InvalidRequest_0@ == m,
                Err(QueryFailure::Lacks(m)) => res is Err && res->Err_0 == OpError::Apply(res->Err_0->Apply_0)
                    && res->Err_0->Apply_0@ == m,
            },
    {
        let ghost fv = files_view(files@);
        let i = match region_file_index(files, req.region.as_str()) {
            Some(i) => i,
            None => {
                let e = crate::ops::region_not_found(req.region.as_str());
                return Err(e);
            },
        };
        assert(fv[i as int] == (files@[i as int].0@, files@[i as int].1@));
        let r = &files[i].1;
        let sid = match r.get("stable_id") {
            Some(Json::Str(s)) => s.clone(),
            _ => String::new(),
        };
        assert(sid@ == text_field(r@, "stable_id"@));
        let tpath = crate::schema::terrain_path(sid.as_str());
        let terrain = match crate::edits::file_value(files, &tpath) {
            Some(t) => t,
            None => return Err(lacks(sid.as_str(), &tpath)),
        };
        let cpath = crate::schema::collision_path(sid.as_str());
        let collision = match crate::edits::file_value(files, &cpath) {
            Some(c) => c,
            None => return Err(lacks(sid.as_str(), &cpath)),
        };
        Ok(answer_of(files, sid, r, terrain, collision))
    }
}

/// A stored point `[x, y]` of two `u32` integers reads back as exactly
/// `[x, y]`, coordinate for coordinate.
pub proof fn law_stored_point_reads_back(x: u64, y: u64)
    requires
        x <= u32::MAX,
        y <= u32::MAX,
    ensures
        point_or_origin(Some(JsonView::Array(seq![JsonView::UInt(x), JsonView::UInt(y)])))[0] == x,
        point_or_origin(Some(JsonView::Array(seq![JsonView::UInt(x), JsonView::UInt(y)])))[1] == y,
{
}

/// The query reports the region's spawn, and each placement's tile, as the
/// region file stores them: `[x, y]` stays `[x, y]`.
pub proof fn law_query_reports_stored_points(
    fv: Seq<(Seq<char>, JsonView)>,
    sid: Seq<char>,
    r: JsonView,
    terrain: JsonView,
    collision: JsonView,
    i: int,
    x: u64,
    y: u64,
)
    requires
        x <= u32::MAX,
        y <= u32::MAX,
    ensures
        field_of(r, "spawn"@) == Some(JsonView::Array(seq![JsonView::UInt(x), JsonView::UInt(y)])) ==> {
            &&& answer(fv, sid, r, terrain, collision).spawn[0] == x
            &&& answer(fv, sid, r, terrain, collision).spawn[1] == y
        },
        0 <= i < array_field(r, "placements"@).len() && field_of(array_field(r, "placements"@)[i], "at"@) == Some(
            JsonView::Array(seq![JsonView::UInt(x), JsonView::UInt(y)]),
        ) ==> {
            &&& answer(fv, sid, r, terrain, collision).placements[i].2[0] == x
            &&& answer(fv, sid, r, terrain, collision).placements[i].2[1] == y
        },
{
    law_stored_point_reads_back(x, y);
}

} // verus!
