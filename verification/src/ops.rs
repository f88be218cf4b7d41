//! The request side of the RPG module's operations: each request is checked
//! on its own (`validate_request`), then resolved against the project's
//! regions into a replayable plan (`materialize`). A refusal is an
//! `InvalidRequest` carrying `<code>: <message>`.

use vstd::prelude::*;

use crate::json::Json;
use crate::op::{OpError, PlanRequest};
use crate::schema::{
    is_valid_handle, point_inside, rect_fits, rect_inside, terrain_kind, terrain_of_kind, valid_handle,
    Facing, Terrain, MAX_REGION_DIMENSION, OWNER_MODULE,
};
use crate::text::{decimal, push_decimal, push_str, string_of, zero_pad};

verus! {

/// How `{:?}` renders a string: quoted, with Rust's debug escapes.
pub uninterp spec fn debug_text(s: Seq<char>) -> Seq<char>;

/// `format!("{s:?}")`: the Debug rendering of a string. The contract names
/// the result as a function of the string alone.
#[verifier::external_body]
pub(crate) fn debug_str(s: &str) -> (res: String)
    ensures
        res@ == debug_text(s@),
{
    format!("{s:?}")
}

pub open spec fn num(n: int) -> Seq<char> {
    zero_pad(decimal(n as nat), 0)
}

/// `<code>: <message>` as an invalid-request error.
pub open spec fn refusal(res: Result<(), OpError>, text: Seq<char>) -> bool {
    match res {
        Err(OpError::InvalidRequest(m)) => m@ == text,
        _ => false,
    }
}

pub open spec fn region_invalid_id_text(id: Seq<char>) -> Seq<char> {
    "rpg.region.invalid_id: region id "@ + debug_text(id) + " must match [a-z][a-z0-9_]*"@
}

pub open spec fn entity_invalid_id_text(id: Seq<char>) -> Seq<char> {
    "rpg.entity.invalid_id: entity id "@ + debug_text(id) + " must match [a-z][a-z0-9_]*"@
}

pub open spec fn target_invalid_id_text(id: Seq<char>) -> Seq<char> {
    "rpg.region.invalid_id: target region id "@ + debug_text(id) + " must match [a-z][a-z0-9_]*"@
}

pub open spec fn dimensions_text(w: int, h: int) -> Seq<char> {
    "spatial.rect_out_of_bounds: region dimensions "@ + num(w) + "x"@ + num(h) + " must be within 1..="@ + num(256)
}

pub open spec fn unknown_terrain_text(kind: Seq<char>) -> Seq<char> {
    "rpg.terrain.unknown_kind: unknown terrain kind "@ + debug_text(kind)
}

pub open spec fn region_not_found_text(handle: Seq<char>) -> Seq<char> {
    "rpg.region.not_found: no region with id "@ + debug_text(handle)
}

pub open spec fn rect_out_text(x: int, y: int, w: int, h: int, region: Seq<char>, width: int, height: int) -> Seq<char> {
    "spatial.rect_out_of_bounds: rect ("@ + num(x) + ","@ + num(y) + ")+"@ + num(w) + "x"@ + num(h)
        + " exceeds region "@ + debug_text(region) + " bounds "@ + num(width) + "x"@ + num(height)
}

pub open spec fn point_out_text(x: int, y: int, region: Seq<char>, width: int, height: int) -> Seq<char> {
    "spatial.point_out_of_bounds: point ("@ + num(x) + ","@ + num(y) + ") is outside region "@
        + debug_text(region) + " bounds "@ + num(width) + "x"@ + num(height)
}

fn push_num(out: &mut Vec<char>, n: u32)
    ensures
        final(out)@ == old(out)@ + num(n as int),
{
    push_decimal(out, n as u64, 0);
}

fn push_debug(out: &mut Vec<char>, s: &str)
    ensures
        final(out)@ == old(out)@ + debug_text(s@),
{
    let d = debug_str(s);
    push_str(out, d.as_str());
}

fn refusal_of(text: Vec<char>) -> (res: OpError)
    ensures
        res matches OpError::InvalidRequest(m) && m@ == text@,
{
    OpError::InvalidRequest(string_of(&text))
}

/// A request error carrying its machine-readable code: `<code>: <message>`.
pub fn invalid(code: &str, message: &str) -> (res: OpError)
    ensures
        res matches OpError::InvalidRequest(m) && m@ == code@ + ": "@ + message@,
{
    let mut text: Vec<char> = Vec::new();
    push_str(&mut text, code);
    push_str(&mut text, ": ");
    push_str(&mut text, message);
    refusal_of(text)
}

/// A suggested fix: a request for a kernel operation, version 1, on behalf
/// of the module until the engine rewrites the actor to the invoking one.
pub fn fix_request(op_id: &str, input: Json) -> (res: PlanRequest)
    ensures
        res.op_id@ == op_id@,
        res.op_version == 1,
        res.input@ == input@,
        res.actor@ == OWNER_MODULE@,
{
    PlanRequest { op_id: op_id.to_string(), op_version: 1, input, actor: OWNER_MODULE.to_string() }
}

/// One region of the project as the operations read it: its handle, its
/// stable id, and its dimensions.
#[derive(Debug)]
pub struct RegionEntry {
    pub handle: String,
    pub stable_id: String,
    pub width: u32,
    pub height: u32,
}

/// The project's regions, in path order.
#[derive(Debug)]
pub struct RegionIndex {
    pub regions: Vec<RegionEntry>,
}

/// The first region (in path order) whose handle is `handle`.
pub open spec fn first_region(regions: Seq<RegionEntry>, handle: Seq<char>) -> Option<int>
    decreases regions.len(),
{
    if regions.len() == 0 {
        None
    } else {
        match first_region(regions.drop_last(), handle) {
            Some(i) => Some(i),
            None => if regions.last().handle@ == handle { Some(regions.len() - 1) } else { None },
        }
    }
}

proof fn lemma_first_region(regions: Seq<RegionEntry>, handle: Seq<char>)
    ensures
        match first_region(regions, handle) {
            Some(i) => 0 <= i < regions.len() && regions[i].handle@ == handle
                && forall|j: int| 0 <= j < i ==> regions[j].handle@ != handle,
            None => forall|j: int| 0 <= j < regions.len() ==> regions[j].handle@ != handle,
        },
    decreases regions.len(),
{
    if regions.len() > 0 {
        lemma_first_region(regions.drop_last(), handle);
        assert forall|j: int| 0 <= j < regions.len() - 1 implies regions.drop_last()[j] == regions[j] by {}
    }
}

impl RegionIndex {
    /// The index of the region whose handle is `handle`, if any.
    pub fn find(&self, handle: &str) -> (res: Option<usize>)
        ensures
            match res {
                Some(i) => first_region(self.regions@, handle@) == Some(i as int),
                None => first_region(self.regions@, handle@) is None,
            },
    {
        proof { lemma_first_region(self.regions@, handle@); }
        let h = crate::text::chars_of(handle);
        let mut i: usize = 0;
        while i < self.regions.len()
            invariant
                i <= self.regions@.len(),
                h@ == handle@,
                forall|j: int| 0 <= j < i ==> self.regions@[j].handle@ != handle@,
            decreases self.regions@.len() - i,
        {
            let c = crate::text::chars_of(self.regions[i].handle.as_str());
            if crate::text::chars_equal(&c, &h) {
                proof {
                    lemma_first_region(self.regions@, handle@);
                    match first_region(self.regions@, handle@) {
                        Some(k) => {
                            if k < i { assert(self.regions@[k].handle@ == handle@); }
                            if k > i { assert(self.regions@[i as int].handle@ == handle@); }
                        },
                        None => { assert(self.regions@[i as int].handle@ == handle@); },
                    }
                }
                return Some(i);
            }
            i = i + 1;
        }
        proof {
            lemma_first_region(self.regions@, handle@);
            match first_region(self.regions@, handle@) {
                Some(k) => { assert(self.regions@[k].handle@ == handle@); },
                None => {},
            }
        }
        None
    }
}

// ---------------------------------------------------------------- create_region

#[derive(Debug)]
pub struct CreateRegionRequest {
    pub id: String,
    pub width: u32,
    pub height: u32,
    pub fill: Option<String>,
    pub spawn: Option<[u32; 2]>,
}

/// The replayable plan: defaults resolved and the spawn clamped inside.
#[derive(Debug)]
pub struct CreateRegionPlan {
    pub id: String,
    pub width: u32,
    pub height: u32,
    pub fill: String,
    pub spawn: [u32; 2],
}

/// `rpg.create_region` v1.
#[derive(Debug)]
pub struct CreateRegion;

pub open spec fn create_region_check(req: CreateRegionRequest) -> Option<Seq<char>> {
    if !is_valid_handle(vstd::utf8::encode_utf8(req.id@)) {
        Some(region_invalid_id_text(req.id@))
    } else if req.width == 0 || req.height == 0 || req.width > 256 || req.height > 256 {
        Some(dimensions_text(req.width as int, req.height as int))
    } else {
        match req.fill {
            Some(f) => if terrain_of_kind(f@) is None { Some(unknown_terrain_text(f@)) } else { None },
            None => None,
        }
    }
}

/// Clamps a coordinate into `[0, n - 1]` (`0` when `n` is `0`).
pub open spec fn clamp(v: u32, n: u32) -> u32 {
    let top = if n == 0 { 0 } else { (n - 1) as u32 };
    if v <= top { v } else { top }
}

impl CreateRegion {
    pub fn validate_request(&self, req: &CreateRegionRequest) -> (res: Result<(), OpError>)
        ensures
            match create_region_check(*req) {
                Some(text) => refusal(res, text),
                None => res is Ok,
            },
    {
        if !valid_handle(req.id.as_str()) {
            let mut m: Vec<char> = Vec::new();
            push_str(&mut m, "rpg.region.invalid_id: region id ");
            push_debug(&mut m, req.id.as_str());
            push_str(&mut m, " must match [a-z][a-z0-9_]*");
            return Err(refusal_of(m));
        }
        if req.width == 0 || req.height == 0 || req.width > MAX_REGION_DIMENSION || req.height > MAX_REGION_DIMENSION {
            let mut m: Vec<char> = Vec::new();
            push_str(&mut m, "spatial.rect_out_of_bounds: region dimensions ");
            push_num(&mut m, req.width);
            push_str(&mut m, "x");
            push_num(&mut m, req.height);
            push_str(&mut m, " must be within 1..=");
            push_num(&mut m, MAX_REGION_DIMENSION);
            return Err(refusal_of(m));
        }
        match &req.fill {
            Some(fill) => {
                if Terrain::from_kind(fill.as_str()).is_none() {
                    let mut m: Vec<char> = Vec::new();
                    push_str(&mut m, "rpg.terrain.unknown_kind: unknown terrain kind ");
                    push_debug(&mut m, fill.as_str());
                    return Err(refusal_of(m));
                }
            },
            None => {},
        }
        Ok(())
    }

    /// Resolves the defaults: `fill` is `grass` when absent, `spawn` is
    /// `(0, 0)` when absent, and a spawn outside the region is clamped to
    /// its nearest in-bounds tile.
    pub fn materialize(&self, req: CreateRegionRequest) -> (res: Result<CreateRegionPlan, OpError>)
        ensures
            match res {
                Ok(plan) => {
                    let fill = match req.fill { Some(f) => f@, None => "grass"@ };
                    let spawn = match req.spawn { Some(s) => s, None => [0u32, 0u32] };
                    &&& terrain_of_kind(fill) is Some
                    &&& plan.id@ == req.id@
                    &&& plan.width == req.width
                    &&& plan.height == req.height
                    &&& plan.fill@ == terrain_kind(terrain_of_kind(fill)->0)
                    &&& plan.spawn[0] == clamp(spawn[0], req.width)
                    &&& plan.spawn[1] == clamp(spawn[1], req.height)
                },
                Err(e) => {
                    let fill = match req.fill { Some(f) => f@, None => "grass"@ };
                    &&& terrain_of_kind(fill) is None
                    &&& e matches OpError::InvalidRequest(m) && m@ == unknown_terrain_text(fill)
                },
            },
    {
        let fill = match req.fill {
            Some(f) => f,
            None => String::from_str("grass"),
        };
        let kind = match Terrain::from_kind(fill.as_str()) {
            Some(k) => k,
            None => {
                let mut m: Vec<char> = Vec::new();
                push_str(&mut m, "rpg.terrain.unknown_kind: unknown terrain kind ");
                push_debug(&mut m, fill.as_str());
                return Err(refusal_of(m));
            },
        };
        let spawn = match req.spawn {
            Some(s) => s,
            None => [0u32, 0u32],
        };
        let top_x = if req.width == 0 { 0 } else { req.width - 1 };
        let top_y = if req.height == 0 { 0 } else { req.height - 1 };
        let sx = if spawn[0] <= top_x { spawn[0] } else { top_x };
        let sy = if spawn[1] <= top_y { spawn[1] } else { top_y };
        Ok(CreateRegionPlan {
            id: req.id,
            width: req.width,
            height: req.height,
            fill: String::from_str(kind.kind()),
            spawn: [sx, sy],
        })
    }
}


/// The `rpg.region.not_found` refusal for `handle`.
pub(crate) fn region_not_found(handle: &str) -> (res: OpError)
    ensures
        res == OpError::InvalidRequest(res->InvalidRequest_0),
        res->InvalidRequest_0@ == region_not_found_text(handle@),
{
    let mut m: Vec<char> = Vec::new();
    push_str(&mut m, "rpg.region.not_found: no region with id ");
    push_debug(&mut m, handle);
    refusal_of(m)
}

/// Resolves a region handle to the index of its region, or the
/// `rpg.region.not_found` refusal.
pub fn require_region(index: &RegionIndex, handle: &str) -> (res: Result<usize, OpError>)
    ensures
        match res {
            Ok(i) => first_region(index.regions@, handle@) == Some(i as int) && i < index.regions@.len(),
            Err(e) => first_region(index.regions@, handle@) is None
                && (e matches OpError::InvalidRequest(m) && m@ == region_not_found_text(handle@)),
        },
{
    proof { lemma_first_region(index.regions@, handle@); }
    match index.find(handle) {
        Some(i) => Ok(i),
        None => {
            let mut m: Vec<char> = Vec::new();
            push_str(&mut m, "rpg.region.not_found: no region with id ");
            push_debug(&mut m, handle);
            Err(refusal_of(m))
        },
    }
}

fn rect_refusal(x: u32, y: u32, w: u32, h: u32, region: &str, width: u32, height: u32) -> (res: OpError)
    ensures
        res matches OpError::InvalidRequest(m) && m@ == rect_out_text(x as int, y as int, w as int, h as int, region@, width as int, height as int),
{
    let mut m: Vec<char> = Vec::new();
    push_str(&mut m, "spatial.rect_out_of_bounds: rect (");
    push_num(&mut m, x);
    push_str(&mut m, ",");
    push_num(&mut m, y);
    push_str(&mut m, ")+");
    push_num(&mut m, w);
    push_str(&mut m, "x");
    push_num(&mut m, h);
    push_str(&mut m, " exceeds region ");
    push_debug(&mut m, region);
    push_str(&mut m, " bounds ");
    push_num(&mut m, width);
    push_str(&mut m, "x");
    push_num(&mut m, height);
    refusal_of(m)
}

fn point_refusal(x: u32, y: u32, region: &str, width: u32, height: u32) -> (res: OpError)
    ensures
        res matches OpError::InvalidRequest(m) && m@ == point_out_text(x as int, y as int, region@, width as int, height as int),
{
    let mut m: Vec<char> = Vec::new();
    push_str(&mut m, "spatial.point_out_of_bounds: point (");
    push_num(&mut m, x);
    push_str(&mut m, ",");
    push_num(&mut m, y);
    push_str(&mut m, ") is outside region ");
    push_debug(&mut m, region);
    push_str(&mut m, " bounds ");
    push_num(&mut m, width);
    push_str(&mut m, "x");
    push_num(&mut m, height);
    refusal_of(m)
}

fn unknown_terrain(kind: &str) -> (res: OpError)
    ensures
        res matches OpError::InvalidRequest(m) && m@ == unknown_terrain_text(kind@),
{
    let mut m: Vec<char> = Vec::new();
    push_str(&mut m, "rpg.terrain.unknown_kind: unknown terrain kind ");
    push_debug(&mut m, kind);
    refusal_of(m)
}

/// What a rect request against the region index resolves to: the region's
/// stable id, or the refusal text.
pub open spec fn rect_resolution(index: Seq<RegionEntry>, region: Seq<char>, x: u32, y: u32, w: u32, h: u32) -> Result<Seq<char>, Seq<char>> {
    match first_region(index, region) {
        None => Err(region_not_found_text(region)),
        Some(i) => if rect_fits(x as int, y as int, w as int, h as int, index[i].width as int, index[i].height as int) {
            Ok(index[i].stable_id@)
        } else {
            Err(rect_out_text(x as int, y as int, w as int, h as int, region, index[i].width as int, index[i].height as int))
        },
    }
}

/// What a point request against the region index resolves to.
pub open spec fn point_resolution(index: Seq<RegionEntry>, region: Seq<char>, x: u32, y: u32) -> Result<Seq<char>, Seq<char>> {
    match first_region(index, region) {
        None => Err(region_not_found_text(region)),
        Some(i) => if x < index[i].width && y < index[i].height {
            Ok(index[i].stable_id@)
        } else {
            Err(point_out_text(x as int, y as int, region, index[i].width as int, index[i].height as int))
        },
    }
}

/// Matches a materialize result against the refusal text it must carry.
pub open spec fn refused_with<T>(res: Result<T, OpError>, text: Seq<char>) -> bool {
    match res {
        Err(OpError::InvalidRequest(m)) => m@ == text,
        _ => false,
    }
}

// ---------------------------------------------------------------- paint_area

#[derive(Debug)]
pub struct PaintAreaRequest {
    pub region: String,
    pub x: u32,
    pub y: u32,
    pub w: u32,
    pub h: u32,
    pub terrain: String,
}

#[derive(Debug)]
pub struct PaintAreaPlan {
    pub region_stable_id: String,
    pub x: u32,
    pub y: u32,
    pub w: u32,
    pub h: u32,
    pub terrain: String,
}

/// `rpg.paint_area` v1.
#[derive(Debug)]
pub struct PaintArea;

impl PaintArea {
    pub fn validate_request(&self, req: &PaintAreaRequest) -> (res: Result<(), OpError>)
        ensures
            if terrain_of_kind(req.terrain@) is None {
                refusal(res, unknown_terrain_text(req.terrain@))
            } else {
                res is Ok
            },
    {
        if Terrain::from_kind(req.terrain.as_str()).is_none() {
            return Err(unknown_terrain(req.terrain.as_str()));
        }
        Ok(())
    }

    pub fn materialize(&self, index: &RegionIndex, req: PaintAreaRequest) -> (res: Result<PaintAreaPlan, OpError>)
        ensures
            match rect_resolution(index.regions@, req.region@, req.x, req.y, req.w, req.h) {
                Ok(sid) => res matches Ok(plan) && plan.region_stable_id@ == sid && plan.x == req.x
                    && plan.y == req.y && plan.w == req.w && plan.h == req.h && plan.terrain@ == req.terrain@,
                Err(text) => refused_with(res, text),
            },
    {
        let i = match require_region(index, req.region.as_str()) {
            Ok(i) => i,
            Err(e) => return Err(e),
        };
        let r = &index.regions[i];
        if !rect_inside(req.x, req.y, req.w, req.h, r.width, r.height) {
            return Err(rect_refusal(req.x, req.y, req.w, req.h, req.region.as_str(), r.width, r.height));
        }
        Ok(PaintAreaPlan {
            region_stable_id: r.stable_id.clone(),
            x: req.x,
            y: req.y,
            w: req.w,
            h: req.h,
            terrain: req.terrain,
        })
    }
}

// ---------------------------------------------------------------- set_collision

#[derive(Debug)]
pub struct SetCollisionRequest {
    pub region: String,
    pub x: u32,
    pub y: u32,
    pub w: u32,
    pub h: u32,
    pub solid: bool,
}

#[derive(Debug)]
pub struct SetCollisionPlan {
    pub region_stable_id: String,
    pub x: u32,
    pub y: u32,
    pub w: u32,
    pub h: u32,
    pub solid: bool,
}

/// `rpg.set_collision` v1.
#[derive(Debug)]
pub struct SetCollision;

impl SetCollision {
    pub fn validate_request(&self, req: &SetCollisionRequest) -> (res: Result<(), OpError>)
        ensures
            res is Ok,
    {
        Ok(())
    }

    pub fn materialize(&self, index: &RegionIndex, req: SetCollisionRequest) -> (res: Result<SetCollisionPlan, OpError>)
        ensures
            match rect_resolution(index.regions@, req.region@, req.x, req.y, req.w, req.h) {
                Ok(sid) => res matches Ok(plan) && plan.region_stable_id@ == sid && plan.x == req.x
                    && plan.y == req.y && plan.w == req.w && plan.h == req.h && plan.solid == req.solid,
                Err(text) => refused_with(res, text),
            },
    {
        let i = match require_region(index, req.region.as_str()) {
            Ok(i) => i,
            Err(e) => return Err(e),
        };
        let r = &index.regions[i];
        if !rect_inside(req.x, req.y, req.w, req.h, r.width, r.height) {
            return Err(rect_refusal(req.x, req.y, req.w, req.h, req.region.as_str(), r.width, r.height));
        }
        Ok(SetCollisionPlan {
            region_stable_id: r.stable_id.clone(),
            x: req.x,
            y: req.y,
            w: req.w,
            h: req.h,
            solid: req.solid,
        })
    }
}

// ---------------------------------------------------------------- paint_path

#[derive(Debug)]
pub struct PaintPathRequest {
    pub region: String,
    pub from: [u32; 2],
    pub to: [u32; 2],
    pub terrain: Option<String>,
}

#[derive(Debug)]
pub struct PaintPathPlan {
    pub region_stable_id: String,
    pub from: [u32; 2],
    pub to: [u32; 2],
    pub terrain: String,
}

/// `rpg.paint_path` v1.
#[derive(Debug)]
pub struct PaintPath;

/// Both endpoints must lie in the region; `from` is checked first.
pub open spec fn path_resolution(index: Seq<RegionEntry>, region: Seq<char>, from: [u32; 2], to: [u32; 2]) -> Result<Seq<char>, Seq<char>> {
    match point_resolution(index, region, from[0], from[1]) {
        Err(t) => Err(t),
        Ok(sid) => point_resolution(index, region, to[0], to[1]),
    }
}

impl PaintPath {
    pub fn validate_request(&self, req: &PaintPathRequest) -> (res: Result<(), OpError>)
        ensures
            match req.terrain {
                Some(t) => if terrain_of_kind(t@) is None { refusal(res, unknown_terrain_text(t@)) } else { res is Ok },
                None => res is Ok,
            },
    {
        match &req.terrain {
            Some(t) => {
                if Terrain::from_kind(t.as_str()).is_none() {
                    return Err(unknown_terrain(t.as_str()));
                }
            },
            None => {},
        }
        Ok(())
    }

    /// The terrain defaults to `path`.
    pub fn materialize(&self, index: &RegionIndex, req: PaintPathRequest) -> (res: Result<PaintPathPlan, OpError>)
        ensures
            match path_resolution(index.regions@, req.region@, req.from, req.to) {
                Ok(sid) => res matches Ok(plan) && plan.region_stable_id@ == sid && plan.from == req.from
                    && plan.to == req.to && plan.terrain@ == match req.terrain { Some(t) => t@, None => "path"@ },
                Err(text) => refused_with(res, text),
            },
    {
        let i = match require_region(index, req.region.as_str()) {
            Ok(i) => i,
            Err(e) => return Err(e),
        };
        let r = &index.regions[i];
        if !point_inside(req.from[0], req.from[1], r.width, r.height) {
            return Err(point_refusal(req.from[0], req.from[1], req.region.as_str(), r.width, r.height));
        }
        if !point_inside(req.to[0], req.to[1], r.width, r.height) {
            return Err(point_refusal(req.to[0], req.to[1], req.region.as_str(), r.width, r.height));
        }
        let terrain = match req.terrain {
            Some(t) => t,
            None => String::from_str("path"),
        };
        Ok(PaintPathPlan { region_stable_id: r.stable_id.clone(), from: req.from, to: req.to, terrain })
    }
}

// ---------------------------------------------------------------- place_npc

#[derive(Debug)]
pub struct PlaceNpcRequest {
    pub region: String,
    pub id: String,
    pub at: [u32; 2],
    pub facing: Facing,
    pub human_name: Option<String>,
    pub tags: Vec<String>,
    pub intent: String,
    pub constraints: Vec<String>,
}

#[derive(Debug)]
pub struct PlaceNpcPlan {
    pub region: String,
    pub region_stable_id: String,
    pub id: String,
    pub at: [u32; 2],
    pub facing: Facing,
    pub human_name: Option<String>,
    pub tags: Vec<String>,
    pub intent: String,
    pub constraints: Vec<String>,
}

/// `rpg.place_npc` v1.
#[derive(Debug)]
pub struct PlaceNpc;

impl PlaceNpc {
    pub fn validate_request(&self, req: &PlaceNpcRequest) -> (res: Result<(), OpError>)
        ensures
            if !is_valid_handle(vstd::utf8::encode_utf8(req.id@)) {
                refusal(res, entity_invalid_id_text(req.id@))
            } else {
                res is Ok
            },
    {
        if !valid_handle(req.id.as_str()) {
            let mut m: Vec<char> = Vec::new();
            push_str(&mut m, "rpg.entity.invalid_id: entity id ");
            push_debug(&mut m, req.id.as_str());
            push_str(&mut m, " must match [a-z][a-z0-9_]*");
            return Err(refusal_of(m));
        }
        Ok(())
    }

    pub fn materialize(&self, index: &RegionIndex, req: PlaceNpcRequest) -> (res: Result<PlaceNpcPlan, OpError>)
        ensures
            match point_resolution(index.regions@, req.region@, req.at[0], req.at[1]) {
                Ok(sid) => res matches Ok(plan) && plan.region_stable_id@ == sid && plan.region@ == req.region@
                    && plan.id@ == req.id@ && plan.at == req.at && plan.facing == req.facing
                    && plan.human_name == req.human_name && plan.tags@ == req.tags@ && plan.intent@ == req.intent@
                    && plan.constraints@ == req.constraints@,
                Err(text) => refused_with(res, text),
            },
    {
        let i = match require_region(index, req.region.as_str()) {
            Ok(i) => i,
            Err(e) => return Err(e),
        };
        let r = &index.regions[i];
        if !point_inside(req.at[0], req.at[1], r.width, r.height) {
            return Err(point_refusal(req.at[0], req.at[1], req.region.as_str(), r.width, r.height));
        }
        Ok(PlaceNpcPlan {
            region: req.region,
            region_stable_id: r.stable_id.clone(),
            id: req.id,
            at: req.at,
            facing: req.facing,
            human_name: req.human_name,
            tags: req.tags,
            intent: req.intent,
            constraints: req.constraints,
        })
    }
}

// ---------------------------------------------------------------- mark_warp

#[derive(Debug)]
pub struct WarpTarget {
    /// The destination region's handle.
    pub region: String,
    pub at: Option<[u32; 2]>,
}

#[derive(Debug)]
pub struct MarkWarpRequest {
    pub region: String,
    pub at: [u32; 2],
    pub to: WarpTarget,
}

/// The target handle with its stable id when a region carries it (`None`
/// while the destination is unbuilt).
#[derive(Debug)]
pub struct ResolvedWarpTarget {
    pub region_id: String,
    pub region_stable_id: Option<String>,
    pub at: Option<[u32; 2]>,
}

#[derive(Debug)]
pub struct MarkWarpPlan {
    pub region: String,
    pub region_stable_id: String,
    pub at: [u32; 2],
    pub to: ResolvedWarpTarget,
}

/// `rpg.mark_warp` v1.
#[derive(Debug)]
pub struct MarkWarp;

/// A landing point given for an existing destination region must lie inside
/// it; `None` when there is nothing to refuse.
pub open spec fn destination_refusal(index: Seq<RegionEntry>, target: Seq<char>, at: Option<[u32; 2]>) -> Option<Seq<char>> {
    match (first_region(index, target), at) {
        (Some(j), Some(p)) => if p[0] < index[j].width && p[1] < index[j].height {
            None
        } else {
            Some(point_out_text(p[0] as int, p[1] as int, target, index[j].width as int, index[j].height as int))
        },
        _ => None,
    }
}

impl MarkWarp {
    pub fn validate_request(&self, req: &MarkWarpRequest) -> (res: Result<(), OpError>)
        ensures
            if !is_valid_handle(vstd::utf8::encode_utf8(req.to.region@)) {
                refusal(res, target_invalid_id_text(req.to.region@))
            } else {
                res is Ok
            },
    {
        if !valid_handle(req.to.region.as_str()) {
            let mut m: Vec<char> = Vec::new();
            push_str(&mut m, "rpg.region.invalid_id: target region id ");
            push_debug(&mut m, req.to.region.as_str());
            push_str(&mut m, " must match [a-z][a-z0-9_]*");
            return Err(refusal_of(m));
        }
        Ok(())
    }

    /// The destination may not exist yet: its stable id is `None` then.
    pub fn materialize(&self, index: &RegionIndex, req: MarkWarpRequest) -> (res: Result<MarkWarpPlan, OpError>)
        ensures
            match point_resolution(index.regions@, req.region@, req.at[0], req.at[1]) {
                Ok(sid) => match destination_refusal(index.regions@, req.to.region@, req.to.at) {
                    Some(text) => refused_with(res, text),
                    None => res matches Ok(plan) && plan.region_stable_id@ == sid && plan.region@ == req.region@
                    && plan.at == req.at && plan.to.region_id@ == req.to.region@ && plan.to.at == req.to.at
                    && match first_region(index.regions@, req.to.region@) {
                        Some(j) => plan.to.region_stable_id matches Some(t) && t@ == index.regions@[j].stable_id@,
                        None => plan.to.region_stable_id is None,
                    },
                },
                Err(text) => refused_with(res, text),
            },
    {
        let i = match require_region(index, req.region.as_str()) {
            Ok(i) => i,
            Err(e) => return Err(e),
        };
        let r = &index.regions[i];
        if !point_inside(req.at[0], req.at[1], r.width, r.height) {
            return Err(point_refusal(req.at[0], req.at[1], req.region.as_str(), r.width, r.height));
        }
        proof { lemma_first_region(index.regions@, req.to.region@); }
        let target = match index.find(req.to.region.as_str()) {
            Some(j) => {
                let d = &index.regions[j];
                match req.to.at {
                    Some(p) => {
                        if !point_inside(p[0], p[1], d.width, d.height) {
                            return Err(point_refusal(p[0], p[1], req.to.region.as_str(), d.width, d.height));
                        }
                    },
                    None => {},
                }
                Some(d.stable_id.clone())
            },
            None => None,
        };
        Ok(MarkWarpPlan {
            region: req.region,
            region_stable_id: r.stable_id.clone(),
            at: req.at,
            to: ResolvedWarpTarget { region_id: req.to.region, region_stable_id: target, at: req.to.at },
        })
    }
}

// ---------------------------------------------------------------- query_region

#[derive(Debug)]
pub struct QueryRegionRequest {
    pub region: String,
}

/// `rpg.query_region` v1 (read).
#[derive(Debug)]
pub struct QueryRegion;

impl QueryRegion {
    pub fn validate_request(&self, req: &QueryRegionRequest) -> (res: Result<(), OpError>)
        ensures
            res is Ok,
    {
        Ok(())
    }
}


/// What `rpg.create_region` reports: the new region's stable id and file.
#[derive(Debug)]
pub struct CreateRegionOutput {
    pub stable_id: String,
    pub path: String,
}

/// What `rpg.paint_area` reports: how many tiles changed glyph.
#[derive(Debug)]
pub struct PaintAreaOutput {
    pub tiles_changed: u64,
}

/// What `rpg.paint_path` reports: how many tiles changed glyph.
#[derive(Debug)]
pub struct PaintPathOutput {
    pub tiles_changed: u64,
}

/// What `rpg.set_collision` reports: how many tiles changed.
#[derive(Debug)]
pub struct SetCollisionOutput {
    pub tiles_changed: u64,
}

/// What `rpg.place_npc` reports: the new entity's stable id and file.
#[derive(Debug)]
pub struct PlaceNpcOutput {
    pub stable_id: String,
    pub path: String,
}

/// What `rpg.mark_warp` reports: the new warp's stable id.
#[derive(Debug)]
pub struct MarkWarpOutput {
    pub stable_id: String,
}

/// One placement as `rpg.query_region` lists it.
#[derive(Debug)]
pub struct PlacementOut {
    pub stable_id: String,
    pub id: String,
    pub at: [u32; 2],
    pub facing: String,
}

} // verus!
