//! The regions the reachability check walks, read out of the project's
//! files: every `regions/<sid>/region.json` whose `kind` is `region`, in path
//! order, with its collision grid, spawn, placements and warps. A region
//! whose declared dimensions fall outside the module's bounds is refused with
//! a blocking finding before any grid is built.

use vstd::prelude::*;

use crate::finding::{Finding, FindingView, Location, Severity, finding_id, finding_id_text, finding_view};
use crate::integrity::{files_view, findings_view};
use crate::ir::RelPath;
use crate::json::{Json, JsonView, field_of, text_field};
use crate::reachability::{Grid, grid_wf};
use crate::reference::{split_chars, split_on};
use crate::schema::{MAX_REGION_DIMENSION, collision_path, collision_path_text};
use crate::text::{chars_equal, chars_of, string_of};

verus! {

pub const CODE_INVALID_DIMENSIONS: &'static str = "rpg.region.invalid_dimensions";

/// The note a finding carries when no suggested fix verified.
pub const UNFIXABLE_NOTE: &'static str = "no suggested fix verified: this state cannot be repaired by a single Release 0 operation — repair by hand or via `systole project doctor`";

/// The first file (in order) that `pred` accepts.
pub open spec fn first_where(s: Seq<(Seq<char>, JsonView)>, pred: spec_fn((Seq<char>, JsonView)) -> bool) -> Option<int>
    decreases s.len(),
{
    if s.len() == 0 {
        None
    } else {
        match first_where(s.drop_last(), pred) {
            Some(i) => Some(i),
            None => if pred(s.last()) { Some(s.len() - 1) } else { None },
        }
    }
}

pub proof fn lemma_first_where(s: Seq<(Seq<char>, JsonView)>, pred: spec_fn((Seq<char>, JsonView)) -> bool)
    ensures
        match first_where(s, pred) {
            Some(i) => 0 <= i < s.len() && pred(s[i]) && forall|j: int| 0 <= j < i ==> !pred(#[trigger] s[j]),
            None => forall|j: int| 0 <= j < s.len() ==> !pred(#[trigger] s[j]),
        },
    decreases s.len(),
{
    if s.len() > 0 {
        lemma_first_where(s.drop_last(), pred);
        assert forall|j: int| 0 <= j < s.len() - 1 implies s.drop_last()[j] == s[j] by {}
    }
}

/// The first accepted index is `i` when `pred` takes `s[i]` and no earlier
/// file.
pub proof fn lemma_first_where_at(s: Seq<(Seq<char>, JsonView)>, pred: spec_fn((Seq<char>, JsonView)) -> bool, i: int)
    requires
        0 <= i < s.len(),
        pred(s[i]),
        forall|j: int| 0 <= j < i ==> !pred(#[trigger] s[j]),
    ensures
        first_where(s, pred) == Some(i),
{
    lemma_first_where(s, pred);
    match first_where(s, pred) {
        Some(k) => {
            if k < i {
                assert(!pred(s[k]));
            } else if k > i {
                assert(!pred(s[i]));
            }
        },
        None => {
            assert(!pred(s[i]));
        },
    }
}

/// The file stored at `path`.
pub open spec fn at_path(path: Seq<char>) -> spec_fn((Seq<char>, JsonView)) -> bool {
    |f: (Seq<char>, JsonView)| f.0 == path
}

/// The value stored at `path`.
pub open spec fn file_at(files: Seq<(Seq<char>, JsonView)>, path: Seq<char>) -> Option<JsonView> {
    match first_where(files, at_path(path)) {
        Some(i) => Some(files[i].1),
        None => None,
    }
}

/// A JSON point `[x, y]`: its first two entries, each a non-negative
/// integer, narrowed to `u32` as Rust's `as` narrows.
pub open spec fn point_of(v: Option<JsonView>) -> Option<(u32, u32)> {
    match v {
        Some(JsonView::Array(a)) => if a.len() >= 2 {
            match a[0] {
                JsonView::UInt(x) => match a[1] {
                    JsonView::UInt(y) => Some((x as u32, y as u32)),
                    _ => None,
                },
                _ => None,
            }
        } else {
            None
        },
        _ => None,
    }
}

/// A declared dimension: the field's non-negative integer, saturated at
/// `u32::MAX`; 0 when it is absent or not such an integer.
pub open spec fn dimension(v: JsonView, key: Seq<char>) -> u32 {
    match field_of(v, key) {
        Some(JsonView::UInt(n)) => if n > u32::MAX { u32::MAX } else { n as u32 },
        _ => 0,
    }
}

/// The stable id of a region file's path `regions/<sid>/region.json`.
pub open spec fn region_sid(path: Seq<char>) -> Option<Seq<char>> {
    let segs = split_on(path, '/');
    if segs.len() == 3 && segs[0] == "regions"@ && segs[2] == "region.json"@ {
        Some(segs[1])
    } else {
        None
    }
}

pub open spec fn is_entity_path(p: Seq<char>) -> bool {
    "entities/"@.is_prefix_of(p) && ".json"@.is_suffix_of(p)
}

/// An entity file whose `stable_id` is `sid`.
pub open spec fn entity_of(sid: Seq<char>) -> spec_fn((Seq<char>, JsonView)) -> bool {
    |f: (Seq<char>, JsonView)| is_entity_file(f.0, f.1, sid)
}

#[verifier::opaque]
pub open spec fn is_entity_file(path: Seq<char>, v: JsonView, sid: Seq<char>) -> bool {
    is_entity_path(path) && field_of(v, "stable_id"@) == Some(JsonView::Str(sid))
}

/// The entity file whose `stable_id` is `sid`.
pub open spec fn entity_with(files: Seq<(Seq<char>, JsonView)>, sid: Seq<char>) -> Option<JsonView> {
    match first_where(files, entity_of(sid)) {
        Some(i) => Some(files[i].1),
        None => None,
    }
}

/// The handle (`id`) of the entity whose stable id is `sid`.
pub open spec fn entity_handle(files: Seq<(Seq<char>, JsonView)>, sid: Seq<char>) -> Option<Seq<char>> {
    match entity_with(files, sid) {
        Some(e) => match field_of(e, "id"@) {
            Some(JsonView::Str(h)) => Some(h),
            _ => None,
        },
        None => None,
    }
}

/// One object the walk must reach, as values: a placement or a warp tile.
pub struct TargetSpec {
    pub is_warp: bool,
    pub stable_id: Seq<char>,
    pub at: (u32, u32),
    pub entity_id: Option<Seq<char>>,
}

/// One warp, as values: its stable id, its tile, the handle of the region it
/// leads to, and the landing point there, if given.
pub struct WarpSpec {
    pub stable_id: Seq<char>,
    pub at: (u32, u32),
    pub target_region_id: Seq<char>,
    pub dest_at: Option<(u32, u32)>,
}

/// The entries of an array field (none when it is not an array).
pub open spec fn array_field(v: JsonView, key: Seq<char>) -> Seq<JsonView> {
    match field_of(v, key) {
        Some(JsonView::Array(a)) => a,
        _ => Seq::empty(),
    }
}

/// The placements that carry a point, as targets.
pub open spec fn placement_targets(files: Seq<(Seq<char>, JsonView)>, ps: Seq<JsonView>) -> Seq<TargetSpec>
    decreases ps.len(),
{
    if ps.len() == 0 {
        Seq::empty()
    } else {
        let rest = placement_targets(files, ps.drop_last());
        let p = ps.last();
        match point_of(field_of(p, "at"@)) {
            Some(at) => rest.push(TargetSpec {
                is_warp: false,
                stable_id: text_field(p, "stable_id"@),
                at,
                entity_id: entity_handle(files, text_field(p, "stable_id"@)),
            }),
            None => rest,
        }
    }
}

/// The handle a warp's `to.region_id` names.
pub open spec fn warp_region(w: JsonView) -> Option<Seq<char>> {
    match field_of(w, "to"@) {
        Some(to) => match field_of(to, "region_id"@) {
            Some(JsonView::Str(s)) => Some(s),
            _ => None,
        },
        None => None,
    }
}

/// A warp's landing point `to.at`.
pub open spec fn warp_dest(w: JsonView) -> Option<(u32, u32)> {
    match field_of(w, "to"@) {
        Some(to) => point_of(field_of(to, "at"@)),
        None => None,
    }
}

/// The warps that carry a point, as targets.
pub open spec fn warp_targets(ws: Seq<JsonView>) -> Seq<TargetSpec>
    decreases ws.len(),
{
    if ws.len() == 0 {
        Seq::empty()
    } else {
        let rest = warp_targets(ws.drop_last());
        let w = ws.last();
        match point_of(field_of(w, "at"@)) {
            Some(at) => rest.push(TargetSpec { is_warp: true, stable_id: text_field(w, "stable_id"@), at, entity_id: None }),
            None => rest,
        }
    }
}

/// The warps that carry a point and name a target region.
pub open spec fn warp_rows(ws: Seq<JsonView>) -> Seq<WarpSpec>
    decreases ws.len(),
{
    if ws.len() == 0 {
        Seq::empty()
    } else {
        let rest = warp_rows(ws.drop_last());
        let w = ws.last();
        match point_of(field_of(w, "at"@)) {
            Some(at) => match warp_region(w) {
                Some(r) => rest.push(WarpSpec { stable_id: text_field(w, "stable_id"@), at, target_region_id: r, dest_at: warp_dest(w) }),
                None => rest,
            },
            None => rest,
        }
    }
}

/// The characters of a collision row (none when it is not a string).
pub open spec fn row_chars(r: JsonView) -> Seq<char> {
    match r {
        JsonView::Str(s) => s,
        _ => Seq::empty(),
    }
}

/// Whether tile `(x, y)` is solid given the collision file's rows: `#` is
/// solid, any other character walkable, and a tile past the rows solid.
pub open spec fn solid_cell(rows: Seq<JsonView>, x: int, y: int) -> bool {
    if y < rows.len() && x < row_chars(rows[y]).len() {
        row_chars(rows[y])[x] == '#'
    } else {
        true
    }
}

/// The rows of a collision file (none when there is no file or no array).
pub open spec fn collision_rows(c: Option<JsonView>) -> Seq<JsonView> {
    match c {
        Some(v) => array_field(v, "rows"@),
        None => Seq::empty(),
    }
}

/// A region as values.
pub struct RegionSpec {
    pub stable_id: Seq<char>,
    pub handle: Seq<char>,
    pub path: Seq<char>,
    pub width: u32,
    pub height: u32,
    pub spawn: (u32, u32),
    pub solid: Seq<Seq<bool>>,
    pub targets: Seq<TargetSpec>,
    pub warps: Seq<WarpSpec>,
}

/// The region read from file `path` (holding `v`) with stable id `sid`.
#[verifier::opaque]
pub open spec fn region_of(files: Seq<(Seq<char>, JsonView)>, path: Seq<char>, v: JsonView, sid: Seq<char>) -> RegionSpec {
    let width = dimension(v, "width"@);
    let height = dimension(v, "height"@);
    let rows = collision_rows(file_at(files, collision_path_text(sid)));
    RegionSpec {
        stable_id: sid,
        handle: text_field(v, "id"@),
        path,
        width,
        height,
        spawn: match point_of(field_of(v, "spawn"@)) {
            Some(p) => p,
            None => (0, 0),
        },
        solid: Seq::new(height as nat, |y: int| Seq::new(width as nat, |x: int| solid_cell(rows, x, y))),
        targets: placement_targets(files, array_field(v, "placements"@)) + warp_targets(array_field(v, "warps"@)),
        warps: warp_rows(array_field(v, "warps"@)),
    }
}

/// Dimensions the module refuses: zero, or past its bound.
pub open spec fn dims_invalid(width: u32, height: u32) -> bool {
    width == 0 || height == 0 || width > MAX_REGION_DIMENSION || height > MAX_REGION_DIMENSION
}

/// The evidence of an invalid-dimensions finding.
pub open spec fn invalid_evidence(width: u32, height: u32) -> JsonView {
    JsonView::Object(seq![
        ("height"@, JsonView::UInt(height as u64)),
        ("max"@, JsonView::UInt(MAX_REGION_DIMENSION as u64)),
        ("message"@, JsonView::Str(UNFIXABLE_NOTE@)),
        ("width"@, JsonView::UInt(width as u64)),
    ])
}

/// The blocking finding that refuses a region's dimensions.
#[verifier::opaque]
pub open spec fn invalid_finding(sid: Seq<char>, path: Seq<char>, width: u32, height: u32) -> FindingView {
    FindingView {
        finding_id: finding_id_text(CODE_INVALID_DIMENSIONS@, Some(sid), Some(path), invalid_evidence(width, height)),
        code: CODE_INVALID_DIMENSIONS@,
        severity: Severity::Error,
        stable_id: Some(sid),
        path: Some(path),
        evidence: invalid_evidence(width, height),
        fix_count: 0,
        blocking: true,
    }
}

/// What one file adds to the regions and the refusals.
#[verifier::opaque]
pub open spec fn scan_step(
    prev: (Seq<RegionSpec>, Seq<FindingView>),
    files: Seq<(Seq<char>, JsonView)>,
    path: Seq<char>,
    v: JsonView,
) -> (Seq<RegionSpec>, Seq<FindingView>) {
    match region_sid(path) {
        Some(sid) => if text_field(v, "kind"@) == "region"@ {
            let w = dimension(v, "width"@);
            let h = dimension(v, "height"@);
            if dims_invalid(w, h) {
                (prev.0, prev.1.push(invalid_finding(sid, path, w, h)))
            } else {
                (prev.0.push(region_of(files, path, v, sid)), prev.1)
            }
        } else {
            prev
        },
        None => prev,
    }
}

/// The regions among the first `n` files, and the findings refusing those
/// with invalid dimensions.
pub open spec fn scan(files: Seq<(Seq<char>, JsonView)>, n: int) -> (Seq<RegionSpec>, Seq<FindingView>)
    decreases n,
{
    if n <= 0 {
        (Seq::empty(), Seq::empty())
    } else {
        scan_step(scan(files, n - 1), files, files[n - 1].0, files[n - 1].1)
    }
}

fn same_text(a: &str, b: &str) -> (res: bool)
    ensures
        res == (a@ == b@),
{
    chars_equal(&chars_of(a), &chars_of(b))
}

/// The index of the file stored at `path`.
pub(crate) fn find_file(files: &Vec<(RelPath, Json)>, path: &str) -> (res: Option<usize>)
    ensures
        match res {
            Some(i) => first_where(files_view(files@), at_path(path@)) == Some(i as int),
            None => first_where(files_view(files@), at_path(path@)) is None,
        },
{
    let ghost fv = files_view(files@);
    let mut i: usize = 0;
    while i < files.len()
        invariant
            i <= files@.len(),
            fv == files_view(files@),
            forall|j: int| 0 <= j < i ==> !(at_path(path@))(#[trigger] fv[j]),
        decreases files@.len() - i,
    {
        assert(fv[i as int].0 == files@[i as int].0@);
        if same_text(files[i].0.as_str(), path) {
            proof { lemma_first_where_at(fv, at_path(path@), i as int); }
            return Some(i);
        }
        i = i + 1;
    }
    proof {
        lemma_first_where(fv, at_path(path@));
        if first_where(fv, at_path(path@)) is Some {
            let k = first_where(fv, at_path(path@)).unwrap();
            assert(!(at_path(path@))(fv[k]));
        }
    }
    None
}

/// Reads a point `[x, y]`.
pub(crate) fn point(v: Option<&Json>) -> (res: Option<(u32, u32)>)
    ensures
        res == point_of(match v {
            Some(j) => Some(j@),
            None => None,
        }),
{
    match v {
        Some(Json::Array(a)) => {
            proof { crate::json::lemma_view_items_len(a@); }
            if a.len() < 2 {
                return None;
            }
            match (&a[0], &a[1]) {
                (Json::UInt(x), Json::UInt(y)) => Some((*x as u32, *y as u32)),
                _ => None,
            }
        },
        _ => None,
    }
}

/// Reads a declared dimension.
pub(crate) fn dimension_of(v: &Json, key: &str) -> (res: u32)
    ensures
        res == dimension(v@, key@),
{
    match v.get(key) {
        Some(Json::UInt(n)) => if *n > 0xffff_ffffu64 { 0xffff_ffffu32 } else { *n as u32 },
        _ => 0,
    }
}

/// The stable id in a region file's path.
fn region_sid_of(path: &RelPath) -> (res: Option<String>)
    ensures
        match res {
            Some(s) => region_sid(path@) == Some(s@),
            None => region_sid(path@) is None,
        },
{
    let p = chars_of(path.as_str());
    let segs = split_chars(&p, '/');
    if segs.len() != 3 {
        return None;
    }
    let a = chars_of("regions");
    let c = chars_of("region.json");
    if chars_equal(&segs[0], &a) && chars_equal(&segs[2], &c) {
        Some(string_of(&segs[1]))
    } else {
        None
    }
}

fn is_entity_for(path: &RelPath, v: &Json, sid: &str) -> (res: bool)
    ensures
        res == (entity_of(sid@))((path@, v@)),
{
    let p = chars_of(path.as_str());
    let sid_matches = match v.get("stable_id") {
        Some(Json::Str(s)) => same_text(s.as_str(), sid),
        _ => false,
    };
    proof { reveal(is_entity_file); }
    crate::text::has_prefix(&p, "entities/") && crate::text::has_suffix(&p, ".json") && sid_matches
}

/// The handle of the entity whose stable id is `sid`.
pub(crate) fn entity_handle_of(files: &Vec<(RelPath, Json)>, sid: &str) -> (res: Option<String>)
    ensures
        match res {
            Some(h) => entity_handle(files_view(files@), sid@) == Some(h@),
            None => entity_handle(files_view(files@), sid@) is None,
        },
{
    let ghost fv = files_view(files@);
    let mut i: usize = 0;
    while i < files.len()
        invariant
            i <= files@.len(),
            fv == files_view(files@),
            forall|j: int| 0 <= j < i ==> !(entity_of(sid@))(#[trigger] fv[j]),
        decreases files@.len() - i,
    {
        assert(fv[i as int] == (files@[i as int].0@, files@[i as int].1@));
        let v = &files[i].1;
        if is_entity_for(&files[i].0, v, sid) {
            proof { lemma_first_where_at(fv, entity_of(sid@), i as int); }
            return match v.get("id") {
                Some(Json::Str(h)) => Some(h.clone()),
                _ => None,
            };
        }
        i = i + 1;
    }
    proof {
        lemma_first_where(fv, entity_of(sid@));
        if first_where(fv, entity_of(sid@)) is Some {
            let k = first_where(fv, entity_of(sid@)).unwrap();
            assert(!(entity_of(sid@))(fv[k]));
        }
    }
    None
}

fn field_text(v: &Json, key: &str) -> (res: String)
    ensures
        res@ == text_field(v@, key@),
{
    match v.get(key) {
        Some(f) => match f.as_text() {
            Some(s) => s.clone(),
            None => String::new(),
        },
        None => String::new(),
    }
}

/// One object the walk must reach: a placement or a warp tile.
pub struct Target {
    pub is_warp: bool,
    pub stable_id: String,
    pub at: (u32, u32),
    /// The entity's handle (placements only).
    pub entity_id: Option<String>,
}

pub open spec fn opt_text(s: Option<String>) -> Option<Seq<char>> {
    match s {
        Some(t) => Some(t@),
        None => None,
    }
}

pub open spec fn target_spec(t: Target) -> TargetSpec {
    TargetSpec { is_warp: t.is_warp, stable_id: t.stable_id@, at: t.at, entity_id: opt_text(t.entity_id) }
}

pub open spec fn targets_view(ts: Seq<Target>) -> Seq<TargetSpec> {
    Seq::new(ts.len(), |i: int| target_spec(ts[i]))
}

/// One warp of a region.
pub struct Warp {
    pub stable_id: String,
    pub at: (u32, u32),
    pub target_region_id: String,
    pub dest_at: Option<(u32, u32)>,
}

pub open spec fn warp_spec(w: Warp) -> WarpSpec {
    WarpSpec { stable_id: w.stable_id@, at: w.at, target_region_id: w.target_region_id@, dest_at: w.dest_at }
}

pub open spec fn warps_view(ws: Seq<Warp>) -> Seq<WarpSpec> {
    Seq::new(ws.len(), |i: int| warp_spec(ws[i]))
}

/// The array entries of field `key` (none when it is not an array).
pub(crate) fn array_of<'a>(v: &'a Json, key: &str) -> (res: &'a [Json])
    ensures
        crate::json::view_items(res@) == array_field(v@, key@),
{
    match v.get(key) {
        Some(Json::Array(a)) => a.as_slice(),
        _ => {
            assert(crate::json::view_items(Seq::<Json>::empty()) =~= Seq::<JsonView>::empty());
            &[]
        },
    }
}

fn placement_targets_of(files: &Vec<(RelPath, Json)>, ps: &[Json]) -> (res: Vec<Target>)
    ensures
        targets_view(res@) == placement_targets(files_view(files@), crate::json::view_items(ps@)),
{
    let ghost items = crate::json::view_items(ps@);
    let ghost fv = files_view(files@);
    proof { crate::json::lemma_view_items_len(ps@); }
    let mut out: Vec<Target> = Vec::new();
    let mut i: usize = 0;
    assert(items.take(0) =~= Seq::<JsonView>::empty());
    assert(targets_view(out@) =~= Seq::<TargetSpec>::empty());
    while i < ps.len()
        invariant
            i <= ps@.len(),
            items == crate::json::view_items(ps@),
            items.len() == ps@.len(),
            forall|k: int| 0 <= k < ps@.len() ==> #[trigger] items[k] == ps@[k]@,
            fv == files_view(files@),
            targets_view(out@) == placement_targets(fv, items.take(i as int)),
        decreases ps@.len() - i,
    {
        let p = &ps[i];
        assert(items.take(i + 1).drop_last() =~= items.take(i as int));
        assert(items.take(i + 1).last() == p@);
        match point(p.get("at")) {
            Some(at) => {
                let sid = field_text(p, "stable_id");
                let entity_id = entity_handle_of(files, sid.as_str());
                let ghost before = out@;
                out.push(Target { is_warp: false, stable_id: sid, at, entity_id });
                assert(targets_view(out@) =~= targets_view(before).push(target_spec(out@.last())));
            },
            None => {},
        }
        i = i + 1;
    }
    assert(items.take(ps@.len() as int) =~= items);
    out
}

fn warp_targets_of(ws: &[Json]) -> (res: Vec<Target>)
    ensures
        targets_view(res@) == warp_targets(crate::json::view_items(ws@)),
{
    let ghost items = crate::json::view_items(ws@);
    proof { crate::json::lemma_view_items_len(ws@); }
    let mut out: Vec<Target> = Vec::new();
    let mut i: usize = 0;
    assert(items.take(0) =~= Seq::<JsonView>::empty());
    assert(targets_view(out@) =~= Seq::<TargetSpec>::empty());
    while i < ws.len()
        invariant
            i <= ws@.len(),
            items == crate::json::view_items(ws@),
            items.len() == ws@.len(),
            forall|k: int| 0 <= k < ws@.len() ==> #[trigger] items[k] == ws@[k]@,
            targets_view(out@) == warp_targets(items.take(i as int)),
        decreases ws@.len() - i,
    {
        let w = &ws[i];
        assert(items.take(i + 1).drop_last() =~= items.take(i as int));
        assert(items.take(i + 1).last() == w@);
        match point(w.get("at")) {
            Some(at) => {
                let sid = field_text(w, "stable_id");
                let ghost before = out@;
                out.push(Target { is_warp: true, stable_id: sid, at, entity_id: None });
                assert(targets_view(out@) =~= targets_view(before).push(target_spec(out@.last())));
            },
            None => {},
        }
        i = i + 1;
    }
    assert(items.take(ws@.len() as int) =~= items);
    out
}

/// A warp's target region handle and landing point.
fn warp_to(w: &Json) -> (res: (Option<String>, Option<(u32, u32)>))
    ensures
        opt_text(res.0) == warp_region(w@),
        res.1 == warp_dest(w@),
{
    match w.get("to") {
        Some(to) => {
            let region = match to.get("region_id") {
                Some(Json::Str(s)) => Some(s.clone()),
                _ => None,
            };
            (region, point(to.get("at")))
        },
        None => (None, None),
    }
}

fn warp_rows_of(ws: &[Json]) -> (res: Vec<Warp>)
    ensures
        warps_view(res@) == warp_rows(crate::json::view_items(ws@)),
{
    let ghost items = crate::json::view_items(ws@);
    proof { crate::json::lemma_view_items_len(ws@); }
    let mut out: Vec<Warp> = Vec::new();
    let mut i: usize = 0;
    assert(items.take(0) =~= Seq::<JsonView>::empty());
    assert(warps_view(out@) =~= Seq::<WarpSpec>::empty());
    while i < ws.len()
        invariant
            i <= ws@.len(),
            items == crate::json::view_items(ws@),
            items.len() == ws@.len(),
            forall|k: int| 0 <= k < ws@.len() ==> #[trigger] items[k] == ws@[k]@,
            warps_view(out@) == warp_rows(items.take(i as int)),
        decreases ws@.len() - i,
    {
        let w = &ws[i];
        assert(items.take(i + 1).drop_last() =~= items.take(i as int));
        assert(items.take(i + 1).last() == w@);
        match point(w.get("at")) {
            Some(at) => {
                let (region, dest_at) = warp_to(w);
                match region {
                    Some(r) => {
                        let sid = field_text(w, "stable_id");
                        let ghost before = out@;
                        out.push(Warp { stable_id: sid, at, target_region_id: r, dest_at });
                        assert(warps_view(out@) =~= warps_view(before).push(warp_spec(out@.last())));
                    },
                    None => {},
                }
            },
            None => {},
        }
        i = i + 1;
    }
    assert(items.take(ws@.len() as int) =~= items);
    out
}

/// The characters of a collision row.
fn row_chars_of(r: &Json) -> (res: Vec<char>)
    ensures
        res@ == row_chars(r@),
{
    match r {
        Json::Str(s) => chars_of(s.as_str()),
        _ => Vec::new(),
    }
}

/// The solid grid of a `width × height` region from its collision rows.
fn solid_grid(rows: &[Json], width: u32, height: u32) -> (res: Vec<Vec<bool>>)
    ensures
        res@.len() == height,
        forall|y: int| 0 <= y < height ==> #[trigger] res@[y]@ == Seq::new(width as nat, |x: int| solid_cell(crate::json::view_items(rows@), x, y)),
{
    let ghost rv = crate::json::view_items(rows@);
    proof { crate::json::lemma_view_items_len(rows@); }
    let mut out: Vec<Vec<bool>> = Vec::new();
    let mut y: u32 = 0;
    while y < height
        invariant
            y <= height,
            out@.len() == y,
            rv == crate::json::view_items(rows@),
            rv.len() == rows@.len(),
            forall|k: int| 0 <= k < rows@.len() ==> #[trigger] rv[k] == rows@[k]@,
            forall|j: int| 0 <= j < y ==> #[trigger] out@[j]@ == Seq::new(width as nat, |x: int| solid_cell(rv, x, j)),
        decreases height - y,
    {
        let rc: Vec<char> = if (y as usize) < rows.len() { row_chars_of(&rows[y as usize]) } else { Vec::new() };
        let mut row: Vec<bool> = Vec::new();
        let mut x: u32 = 0;
        while x < width
            invariant
                x <= width,
                y < height,
                row@.len() == x,
                rv.len() == rows@.len(),
                (y < rows@.len() ==> rc@ == row_chars(rv[y as int])),
                (y >= rows@.len() ==> rc@.len() == 0),
                forall|i: int| 0 <= i < x ==> #[trigger] row@[i] == solid_cell(rv, i, y as int),
            decreases width - x,
        {
            let cell = if (x as usize) < rc.len() { rc[x as usize] == '#' } else { true };
            row.push(cell);
            x = x + 1;
        }
        assert(row@ =~= Seq::new(width as nat, |x: int| solid_cell(rv, x, y as int)));
        out.push(row);
        y = y + 1;
    }
    out
}

/// A region's walkable view: its ids and file, its spawn, its collision
/// grid, and the targets and warps its body declares.
pub struct RegionView {
    pub stable_id: String,
    pub handle: String,
    pub path: RelPath,
    pub spawn: (u32, u32),
    pub grid: Grid,
    pub targets: Vec<Target>,
    pub warps: Vec<Warp>,
}

pub open spec fn region_spec(r: RegionView) -> RegionSpec {
    RegionSpec {
        stable_id: r.stable_id@,
        handle: r.handle@,
        path: r.path@,
        width: r.grid.width,
        height: r.grid.height,
        spawn: r.spawn,
        solid: Seq::new(r.grid.solid@.len(), |y: int| r.grid.solid@[y]@),
        targets: targets_view(r.targets@),
        warps: warps_view(r.warps@),
    }
}

pub open spec fn regions_view(rs: Seq<RegionView>) -> Seq<RegionSpec> {
    Seq::new(rs.len(), |i: int| region_spec(rs[i]))
}

/// The rows of the collision file of region `sid`.
pub(crate) fn collision_rows_of<'a>(files: &'a Vec<(RelPath, Json)>, sid: &str) -> (res: &'a [Json])
    ensures
        crate::json::view_items(res@) == collision_rows(file_at(files_view(files@), collision_path_text(sid@))),
{
    let cpath = collision_path(sid);
    proof { lemma_first_where(files_view(files@), at_path(cpath@)); }
    match find_file(files, cpath.as_str()) {
        Some(i) => {
            assert(files_view(files@)[i as int] == (files@[i as int].0@, files@[i as int].1@));
            array_of(&files[i].1, "rows")
        },
        None => {
            assert(crate::json::view_items(Seq::<Json>::empty()) =~= Seq::<JsonView>::empty());
            &[]
        },
    }
}

/// The targets of a region body: its placements, then its warp tiles.
fn targets_of(files: &Vec<(RelPath, Json)>, v: &Json) -> (res: Vec<Target>)
    ensures
        targets_view(res@) == placement_targets(files_view(files@), array_field(v@, "placements"@))
            + warp_targets(array_field(v@, "warps"@)),
{
    let mut targets = placement_targets_of(files, array_of(v, "placements"));
    let mut wt = warp_targets_of(array_of(v, "warps"));
    let ghost t1 = targets@;
    let ghost t2 = wt@;
    targets.append(&mut wt);
    assert(targets_view(targets@) =~= targets_view(t1) + targets_view(t2));
    targets
}

/// The view of the region in file `path` (holding `v`), whose dimensions
/// are valid.
fn region_view_of(files: &Vec<(RelPath, Json)>, path: &RelPath, v: &Json, sid: String) -> (res: RegionView)
    requires
        !dims_invalid(dimension(v@, "width"@), dimension(v@, "height"@)),
    ensures
        region_spec(res) == region_of(files_view(files@), path@, v@, sid@),
        grid_wf(res.grid),
{
    let width = dimension_of(v, "width");
    let height = dimension_of(v, "height");
    let spawn = match point(v.get("spawn")) {
        Some(p) => p,
        None => (0, 0),
    };
    let rows = collision_rows_of(files, sid.as_str());
    let solid = solid_grid(rows, width, height);
    let ghost sv = solid@;
    let grid = Grid { width, height, solid };
    let targets = targets_of(files, v);
    let warps = warp_rows_of(array_of(v, "warps"));
    let res = RegionView { stable_id: sid, handle: field_text(v, "id"), path: path.duplicate(), spawn, grid, targets, warps };
    proof {
        reveal(region_of);
        let rv = collision_rows(file_at(files_view(files@), collision_path_text(sid@)));
        assert(Seq::new(sv.len(), |y: int| sv[y]@) =~= Seq::new(height as nat, |y: int| Seq::new(width as nat, |x: int| solid_cell(rv, x, y))));
    }
    res
}

/// The blocking finding refusing the dimensions of region `sid`.
fn invalid_dimensions(sid: String, path: &RelPath, width: u32, height: u32) -> (res: Finding)
    ensures
        finding_view(res) == invalid_finding(sid@, path@, width, height),
{
    let members = vec![
        ("height".to_string(), Json::UInt(height as u64)),
        ("max".to_string(), Json::UInt(MAX_REGION_DIMENSION as u64)),
        ("message".to_string(), Json::Str(UNFIXABLE_NOTE.to_string())),
        ("width".to_string(), Json::UInt(width as u64)),
    ];
    proof { crate::json::lemma_view_members_len(members@); }
    let evidence = Json::Object(members);
    assert(crate::json::view_members(members@) =~= seq![
        ("height"@, JsonView::UInt(height as u64)),
        ("max"@, JsonView::UInt(MAX_REGION_DIMENSION as u64)),
        ("message"@, JsonView::Str(UNFIXABLE_NOTE@)),
        ("width"@, JsonView::UInt(width as u64)),
    ]);
    let location = Location { stable_id: Some(sid), path: Some(path.duplicate()) };
    let id = finding_id(CODE_INVALID_DIMENSIONS, &location, &evidence);
    proof { reveal(invalid_finding); }
    Finding {
        finding_id: id,
        code: CODE_INVALID_DIMENSIONS.to_string(),
        severity: Severity::Error,
        location,
        evidence,
        suggested_fixes: Vec::new(),
        blocking: true,
    }
}

/// Adds what file `i` contributes to the regions and the refusals.
fn visit(files: &Vec<(RelPath, Json)>, i: usize, views: &mut Vec<RegionView>, invalid: &mut Vec<Finding>)
    requires
        i < files@.len(),
        forall|k: int| 0 <= k < old(views)@.len() ==> grid_wf(#[trigger] old(views)@[k].grid),
    ensures
        (regions_view(final(views)@), findings_view(final(invalid)@)) == scan_step(
            (regions_view(old(views)@), findings_view(old(invalid)@)),
            files_view(files@),
            files@[i as int].0@,
            files@[i as int].1@,
        ),
        forall|k: int| 0 <= k < final(views)@.len() ==> grid_wf(#[trigger] final(views)@[k].grid),
{
    proof { reveal(scan_step); }
    let path = &files[i].0;
    let v = &files[i].1;
    match region_sid_of(path) {
        Some(sid) => {
            let kind = field_text(v, "kind");
            if same_text(kind.as_str(), "region") {
                let w = dimension_of(v, "width");
                let h = dimension_of(v, "height");
                if w == 0 || h == 0 || w > MAX_REGION_DIMENSION || h > MAX_REGION_DIMENSION {
                    let f = invalid_dimensions(sid, path, w, h);
                    let ghost before = invalid@;
                    invalid.push(f);
                    assert(findings_view(invalid@) =~= findings_view(before).push(finding_view(invalid@.last())));
                } else {
                    let r = region_view_of(files, path, v, sid);
                    let ghost before = views@;
                    views.push(r);
                    assert(regions_view(views@) =~= regions_view(before).push(region_spec(views@.last())));
                }
            }
        },
        None => {},
    }
}

/// Every region of the project, in path order, and a blocking finding for
/// each region file whose dimensions are zero or past the module's bound.
pub fn regions(files: &Vec<(RelPath, Json)>) -> (res: (Vec<RegionView>, Vec<Finding>))
    ensures
        regions_view(res.0@) == scan(files_view(files@), files@.len() as int).0,
        findings_view(res.1@) == scan(files_view(files@), files@.len() as int).1,
        forall|i: int| 0 <= i < res.0@.len() ==> grid_wf(#[trigger] res.0@[i].grid),
{
    let ghost fv = files_view(files@);
    let mut views: Vec<RegionView> = Vec::new();
    let mut invalid: Vec<Finding> = Vec::new();
    let mut i: usize = 0;
    assert(regions_view(views@) =~= Seq::<RegionSpec>::empty());
    assert(findings_view(invalid@) =~= Seq::<FindingView>::empty());
    while i < files.len()
        invariant
            i <= files@.len(),
            fv == files_view(files@),
            regions_view(views@) == scan(fv, i as int).0,
            findings_view(invalid@) == scan(fv, i as int).1,
            forall|k: int| 0 <= k < views@.len() ==> grid_wf(#[trigger] views@[k].grid),
        decreases files@.len() - i,
    {
        assert(fv[i as int] == (files@[i as int].0@, files@[i as int].1@));
        visit(files, i, &mut views, &mut invalid);
        i = i + 1;
    }
    (views, invalid)
}

} // verus!
