//! The conditions the reachability check flags on each region, before their
//! suggested fixes are verified: a blocked spawn, a target standing on a
//! solid tile, a target the walk from the spawn never reaches, a warp to a
//! region that does not exist, and a warp landing where its region's walk
//! never arrives. Each flagged condition becomes a finding once the
//! candidates whose staged application clears it are known.

use vstd::prelude::*;

use crate::corridor::{clear_fix, collision_fix, repair_candidates, repairs, request_view, requests_view};
use crate::finding::{Location, location_path, location_stable_id};
use crate::integrity::files_view;
use crate::ir::RelPath;
use crate::json::{Json, JsonView, field_of, text_field};
use crate::op::PlanRequest;
use crate::ops::fix_request;
use crate::reachability::{Grid, bfs_reached, grid_wf, in_bounds, reachable, walkable};
use crate::regions::{
    RegionView, Target, TargetSpec, Warp, WarpSpec, first_where, lemma_first_where, lemma_first_where_at,
    targets_view, warps_view,
};
use crate::schema::OWNER_MODULE;
use crate::text::{chars_equal, chars_of};

verus! {

pub const CODE_SPAWN_BLOCKED: &'static str = "rpg.reachability.spawn_blocked";
pub const CODE_UNREACHABLE_NPC: &'static str = "rpg.reachability.unreachable_npc";
pub const CODE_UNREACHABLE_WARP: &'static str = "rpg.reachability.unreachable_warp";
pub const CODE_ON_SOLID_TILE: &'static str = "rpg.placement.on_solid_tile";
pub const CODE_DANGLING_TARGET: &'static str = "rpg.warp.dangling_target";
/// A warp's explicit destination lies in a region that exists but is not
/// reached there: out of bounds, or walled off from that region's spawn.
pub const CODE_UNREACHABLE_DESTINATION: &'static str = "rpg.warp.unreachable_destination";

/// How many tiles the walk from `spawn` reaches.
pub open spec fn reach_count(g: Grid, spawn: (u32, u32)) -> nat {
    Set::new(|t: (u32, u32)| reachable(g, spawn, t)).len()
}

/// `reached` lists each tile the walk from `spawn` reaches, once.
pub open spec fn reach_seq(g: Grid, spawn: (u32, u32), reached: Seq<(u32, u32)>) -> bool {
    &&& reached.no_duplicates()
    &&& forall|t: (u32, u32)| reached.contains(t) <==> reachable(g, spawn, t)
}

/// `[x, y]`.
pub open spec fn pair(p: (u32, u32)) -> JsonView {
    JsonView::Array(seq![JsonView::UInt(p.0 as u64), JsonView::UInt(p.1 as u64)])
}

pub open spec fn spawn_evidence(spawn: (u32, u32)) -> JsonView {
    JsonView::Object(seq![("spawn"@, pair(spawn))])
}

/// The evidence naming a target: its tile, its entity's handle when it has
/// one, the count of reached tiles where given, the spawn, and its stable
/// id (a warp's under `warp_stable_id`, with `stable_id` null).
pub open spec fn target_evidence(t: TargetSpec, spawn: (u32, u32), reached: Option<nat>) -> JsonView {
    JsonView::Object(
        seq![("at"@, pair(t.at))]
            + match t.entity_id {
                Some(h) => seq![("entity_id"@, JsonView::Str(h))],
                None => Seq::empty(),
            }
            + match reached {
                Some(n) => seq![("reached"@, JsonView::UInt(n as u64))],
                None => Seq::empty(),
            }
            + seq![("spawn"@, pair(spawn))]
            + if t.is_warp {
                seq![("stable_id"@, JsonView::Null), ("warp_stable_id"@, JsonView::Str(t.stable_id))]
            } else {
                seq![("stable_id"@, JsonView::Str(t.stable_id))]
            },
    )
}

pub open spec fn dangling_evidence(w: WarpSpec) -> JsonView {
    JsonView::Object(seq![
        ("at"@, pair(w.at)),
        ("target_region_id"@, JsonView::Str(w.target_region_id)),
        ("warp_stable_id"@, JsonView::Str(w.stable_id)),
    ])
}

pub open spec fn destination_evidence(w: WarpSpec, dest: (u32, u32)) -> JsonView {
    JsonView::Object(seq![
        ("at"@, pair(w.at)),
        ("destination_at"@, pair(dest)),
        ("target_region_id"@, JsonView::Str(w.target_region_id)),
        ("warp_stable_id"@, JsonView::Str(w.stable_id)),
    ])
}

/// The fix for a dangling warp: create the missing region with the source
/// region's dimensions and spawn.
pub open spec fn create_region_fix(handle: Seq<char>, width: u32, height: u32, spawn: (u32, u32)) -> (Seq<char>, u32, JsonView, Seq<char>) {
    ("rpg.create_region"@, 1u32, JsonView::Object(seq![
        ("height"@, JsonView::UInt(height as u64)),
        ("id"@, JsonView::Str(handle)),
        ("spawn"@, pair(spawn)),
        ("width"@, JsonView::UInt(width as u64)),
    ]), OWNER_MODULE@)
}

/// A region file carrying handle `handle` (and a string stable id).
pub open spec fn region_named(handle: Seq<char>) -> spec_fn((Seq<char>, JsonView)) -> bool {
    |f: (Seq<char>, JsonView)| is_region_named(f.0, f.1, handle)
}

#[verifier::opaque]
pub open spec fn is_region_named(path: Seq<char>, v: JsonView, handle: Seq<char>) -> bool {
    &&& "regions/"@.is_prefix_of(path)
    &&& "/region.json"@.is_suffix_of(path)
    &&& field_of(v, "kind"@) == Some(JsonView::Str("region"@))
    &&& field_of(v, "id"@) == Some(JsonView::Str(handle))
    &&& field_of(v, "stable_id"@) matches Some(JsonView::Str(_))
}

/// Whether some region of the project carries `handle`.
pub open spec fn region_exists(files: Seq<(Seq<char>, JsonView)>, handle: Seq<char>) -> bool {
    first_where(files, region_named(handle)) is Some
}

/// The first region view (in path order) whose handle is `handle`.
pub open spec fn first_view(views: Seq<RegionView>, handle: Seq<char>) -> Option<int>
    decreases views.len(),
{
    if views.len() == 0 {
        None
    } else {
        match first_view(views.drop_last(), handle) {
            Some(i) => Some(i),
            None => if views.last().handle@ == handle { Some(views.len() - 1) } else { None },
        }
    }
}

/// A flagged condition as the contract states it. `fixes` are its
/// candidate fixes, except for an unreachable target: there `repair` names
/// the region and tile, and the candidates are what [`repairs`] allows.
pub struct Expected {
    pub code: Seq<char>,
    pub blocking: bool,
    pub stable_id: Seq<char>,
    pub path: Seq<char>,
    pub evidence: JsonView,
    pub fixes: Seq<(Seq<char>, u32, JsonView, Seq<char>)>,
    pub repair: Option<(int, (u32, u32))>,
}

/// What region `r` flags for target `t`: standing on a solid tile, then
/// not being reached.
pub open spec fn target_expected(views: Seq<RegionView>, r: int, t: TargetSpec) -> Seq<Expected> {
    let v = views[r];
    let g = v.grid;
    (if in_bounds(g, t.at) && !walkable(g, t.at) {
        seq![Expected {
            code: CODE_ON_SOLID_TILE@,
            blocking: false,
            stable_id: v.stable_id@,
            path: v.path@,
            evidence: target_evidence(t, v.spawn, None),
            fixes: seq![clear_fix(v.handle@, (t.at.0, t.at.1, 1, 1))],
            repair: None,
        }]
    } else {
        Seq::empty()
    }) + (if !reachable(g, v.spawn, t.at) {
        seq![Expected {
            code: if t.is_warp { CODE_UNREACHABLE_WARP@ } else { CODE_UNREACHABLE_NPC@ },
            blocking: true,
            stable_id: v.stable_id@,
            path: v.path@,
            evidence: target_evidence(t, v.spawn, Some(reach_count(g, v.spawn))),
            fixes: Seq::empty(),
            repair: Some((r, t.at)),
        }]
    } else {
        Seq::empty()
    })
}

/// What region `r` flags for its targets `ts`, in order.
pub open spec fn targets_expected(views: Seq<RegionView>, r: int, ts: Seq<TargetSpec>) -> Seq<Expected>
    decreases ts.len(),
{
    if ts.len() == 0 {
        Seq::empty()
    } else {
        targets_expected(views, r, ts.drop_last()) + target_expected(views, r, ts.last())
    }
}

/// What region `r` flags for warp `w`: a target region that does not
/// exist; else a landing point its region's walk does not reach.
pub open spec fn warp_expected(files: Seq<(Seq<char>, JsonView)>, views: Seq<RegionView>, r: int, w: WarpSpec) -> Seq<Expected> {
    let v = views[r];
    if !region_exists(files, w.target_region_id) {
        seq![Expected {
            code: CODE_DANGLING_TARGET@,
            blocking: false,
            stable_id: v.stable_id@,
            path: v.path@,
            evidence: dangling_evidence(w),
            fixes: seq![create_region_fix(w.target_region_id, v.grid.width, v.grid.height, v.spawn)],
            repair: None,
        }]
    } else {
        match w.dest_at {
            Some(d) => match first_view(views, w.target_region_id) {
                Some(k) => if !reachable(views[k].grid, views[k].spawn, d) {
                    seq![Expected {
                        code: CODE_UNREACHABLE_DESTINATION@,
                        blocking: false,
                        stable_id: v.stable_id@,
                        path: v.path@,
                        evidence: destination_evidence(w, d),
                        fixes: Seq::empty(),
                        repair: None,
                    }]
                } else {
                    Seq::empty()
                },
                None => Seq::empty(),
            },
            None => Seq::empty(),
        }
    }
}

/// What region `r` flags for its warps `ws`, in order.
pub open spec fn warps_expected(files: Seq<(Seq<char>, JsonView)>, views: Seq<RegionView>, r: int, ws: Seq<WarpSpec>) -> Seq<Expected>
    decreases ws.len(),
{
    if ws.len() == 0 {
        Seq::empty()
    } else {
        warps_expected(files, views, r, ws.drop_last()) + warp_expected(files, views, r, ws.last())
    }
}

/// What region `r` flags: its spawn, then its targets, then its warps.
pub open spec fn region_expected(files: Seq<(Seq<char>, JsonView)>, views: Seq<RegionView>, r: int) -> Seq<Expected> {
    let v = views[r];
    (if !walkable(v.grid, v.spawn) {
        seq![Expected {
            code: CODE_SPAWN_BLOCKED@,
            blocking: true,
            stable_id: v.stable_id@,
            path: v.path@,
            evidence: spawn_evidence(v.spawn),
            fixes: seq![clear_fix(v.handle@, (v.spawn.0, v.spawn.1, 1, 1))],
            repair: None,
        }]
    } else {
        Seq::empty()
    }) + targets_expected(views, r, targets_view(v.targets@)) + warps_expected(files, views, r, warps_view(v.warps@))
}

/// What the first `n` regions flag, in order.
pub open spec fn expected_upto(files: Seq<(Seq<char>, JsonView)>, views: Seq<RegionView>, n: int) -> Seq<Expected>
    decreases n,
{
    if n <= 0 {
        Seq::empty()
    } else {
        expected_upto(files, views, n - 1) + region_expected(files, views, n - 1)
    }
}

/// A flagged condition, before its fixes are verified.
pub struct Flag {
    pub code: String,
    pub blocking: bool,
    pub location: Location,
    pub evidence: Json,
    pub candidates: Vec<PlanRequest>,
}

/// A flag as values.
pub struct FlagView {
    pub code: Seq<char>,
    pub blocking: bool,
    pub stable_id: Option<Seq<char>>,
    pub path: Option<Seq<char>>,
    pub evidence: JsonView,
    pub fixes: Seq<(Seq<char>, u32, JsonView, Seq<char>)>,
}

pub open spec fn flag_view(f: Flag) -> FlagView {
    FlagView {
        code: f.code@,
        blocking: f.blocking,
        stable_id: location_stable_id(f.location),
        path: location_path(f.location),
        evidence: f.evidence@,
        fixes: requests_view(f.candidates@),
    }
}

pub open spec fn flags_view(fs: Seq<Flag>) -> Seq<FlagView> {
    Seq::new(fs.len(), |i: int| flag_view(fs[i]))
}

/// The repair candidates of an unreachable target are those [`repairs`]
/// allows for the walk from the region's spawn.
pub open spec fn repair_contract(v: RegionView, t: (u32, u32), fixes: Seq<(Seq<char>, u32, JsonView, Seq<char>)>) -> bool {
    exists|reached: Seq<(u32, u32)>| #[trigger] reach_seq(v.grid, v.spawn, reached) && repairs(v.grid, v.handle@, reached, t, fixes)
}

/// A flag agrees with the condition the contract expects.
pub open spec fn flag_agrees(views: Seq<RegionView>, e: Expected, a: FlagView) -> bool {
    &&& a.code == e.code
    &&& a.blocking == e.blocking
    &&& a.stable_id == Some(e.stable_id)
    &&& a.path == Some(e.path)
    &&& a.evidence == e.evidence
    &&& match e.repair {
        None => a.fixes == e.fixes,
        Some((r, t)) => repair_contract(views[r], t, a.fixes),
    }
}

pub open spec fn flags_agree(views: Seq<RegionView>, expected: Seq<Expected>, actual: Seq<FlagView>) -> bool {
    &&& actual.len() == expected.len()
    &&& forall|i: int| 0 <= i < actual.len() ==> flag_agrees(views, expected[i], #[trigger] actual[i])
}

proof fn lemma_agree_concat(views: Seq<RegionView>, e1: Seq<Expected>, e2: Seq<Expected>, a1: Seq<FlagView>, a2: Seq<FlagView>)
    requires
        flags_agree(views, e1, a1),
        flags_agree(views, e2, a2),
    ensures
        flags_agree(views, e1 + e2, a1 + a2),
{
    assert forall|i: int| 0 <= i < (a1 + a2).len() implies flag_agrees(views, (e1 + e2)[i], #[trigger] (a1 + a2)[i]) by {
        if i < a1.len() {
            assert((a1 + a2)[i] == a1[i]);
            assert((e1 + e2)[i] == e1[i]);
        } else {
            assert((a1 + a2)[i] == a2[i - a1.len()]);
            assert((e1 + e2)[i] == e2[i - a1.len()]);
        }
    }
}

/// The walk from the spawn reaches exactly the tiles `reached` lists, so
/// their number is [`reach_count`], and each of them is in bounds.
proof fn lemma_reach_seq(g: Grid, spawn: (u32, u32), reached: Seq<(u32, u32)>)
    requires
        reach_seq(g, spawn, reached),
    ensures
        reached.len() == reach_count(g, spawn),
        forall|i: int| 0 <= i < reached.len() ==> in_bounds(g, #[trigger] reached[i]),
{
    assert(reached.to_set() =~= Set::new(|t: (u32, u32)| reachable(g, spawn, t)));
    reached.unique_seq_to_set();
    assert forall|i: int| 0 <= i < reached.len() implies in_bounds(g, #[trigger] reached[i]) by {
        assert(reached.contains(reached[i]));
        let p = choose|p: Seq<(u32, u32)>| crate::reachability::is_walk(g, p) && p[0] == spawn && #[trigger] p.last() == reached[i];
        assert(walkable(g, p[p.len() - 1]));
    }
}

fn pair_json(p: (u32, u32)) -> (res: Json)
    ensures
        res@ == pair(p),
{
    let items = vec![Json::UInt(p.0 as u64), Json::UInt(p.1 as u64)];
    proof { crate::json::lemma_view_items_len(items@); }
    let res = Json::Array(items);
    assert(crate::json::view_items(items@) =~= seq![JsonView::UInt(p.0 as u64), JsonView::UInt(p.1 as u64)]);
    res
}

fn member(key: &str, value: Json) -> (res: (String, Json))
    ensures
        res.0@ == key@,
        res.1@ == value@,
{
    (key.to_string(), value)
}

/// An object from members given in key order.
fn object_of(members: Vec<(String, Json)>) -> (res: Json)
    ensures
        res@ == JsonView::Object(Seq::new(members@.len(), |i: int| (members@[i].0@, members@[i].1@))),
{
    proof { crate::json::lemma_view_members_len(members@); }
    let ghost m = members@;
    let res = Json::Object(members);
    assert(crate::json::view_members(m) =~= Seq::new(m.len(), |i: int| (m[i].0@, m[i].1@)));
    res
}

fn target_evidence_json(t: &Target, spawn: (u32, u32), reached: Option<u64>) -> (res: Json)
    ensures
        res@ == target_evidence(crate::regions::target_spec(*t), spawn, match reached {
            Some(n) => Some(n as nat),
            None => None,
        }),
{
    let mut members: Vec<(String, Json)> = Vec::new();
    members.push(member("at", pair_json(t.at)));
    match &t.entity_id {
        Some(h) => members.push(member("entity_id", Json::Str(h.clone()))),
        None => {},
    }
    match reached {
        Some(n) => members.push(member("reached", Json::UInt(n))),
        None => {},
    }
    members.push(member("spawn", pair_json(spawn)));
    if t.is_warp {
        members.push(member("stable_id", Json::Null));
        members.push(member("warp_stable_id", Json::Str(t.stable_id.clone())));
    } else {
        members.push(member("stable_id", Json::Str(t.stable_id.clone())));
    }
    let ghost m = members@;
    let res = object_of(members);
    assert(Seq::new(m.len(), |i: int| (m[i].0@, m[i].1@)) =~= match res@ {
        JsonView::Object(ms) => ms,
        _ => Seq::empty(),
    });
    proof {
        let e = target_evidence(crate::regions::target_spec(*t), spawn, match reached {
            Some(n) => Some(n as nat),
            None => None,
        });
        match e {
            JsonView::Object(ms) => {
                assert(Seq::new(m.len(), |i: int| (m[i].0@, m[i].1@)) =~= ms);
            },
            _ => {},
        }
    }
    res
}

fn location_of(v: &RegionView) -> (res: Location)
    ensures
        location_stable_id(res) == Some(v.stable_id@),
        location_path(res) == Some(v.path@),
{
    Location { stable_id: Some(v.stable_id.clone()), path: Some(v.path.duplicate()) }
}

fn flag_of(v: &RegionView, code: &str, blocking: bool, evidence: Json, candidates: Vec<PlanRequest>) -> (res: Flag)
    ensures
        flag_view(res) == (FlagView {
            code: code@,
            blocking,
            stable_id: Some(v.stable_id@),
            path: Some(v.path@),
            evidence: evidence@,
            fixes: requests_view(candidates@),
        }),
{
    Flag { code: code.to_string(), blocking, location: location_of(v), evidence, candidates }
}

proof fn lemma_flags_view_push(fs: Seq<Flag>, f: Flag)
    ensures
        flags_view(fs.push(f)) == flags_view(fs).push(flag_view(f)),
{
    assert(flags_view(fs.push(f)) =~= flags_view(fs).push(flag_view(f)));
}

/// What region `r` flags for target `t`, given the tiles its walk reaches.
fn target_flags(views: &Vec<RegionView>, r: usize, reached: &Vec<(u32, u32)>, t: &Target) -> (res: Vec<Flag>)
    requires
        r < views@.len(),
        grid_wf(views@[r as int].grid),
        reach_seq(views@[r as int].grid, views@[r as int].spawn, reached@),
    ensures
        flags_agree(views@, target_expected(views@, r as int, crate::regions::target_spec(*t)), flags_view(res@)),
{
    let v = &views[r];
    let ghost ts = crate::regions::target_spec(*t);
    proof { lemma_reach_seq(v.grid, v.spawn, reached@); }
    let mut out: Vec<Flag> = Vec::new();
    let on_solid = crate::reachability::inside(&v.grid, t.at) && crate::reachability::solid_at(&v.grid, t.at);
    if on_solid {
        let fix = collision_fix(v.handle.as_str(), t.at, 1, 1);
        let cands = vec![fix];
        assert(requests_view(cands@) =~= seq![clear_fix(v.handle@, (t.at.0, t.at.1, 1, 1))]);
        let f = flag_of(v, CODE_ON_SOLID_TILE, false, target_evidence_json(t, v.spawn, None), cands);
        out.push(f);
    }
    let ghost first = out@;
    if !crate::schema::contains_tile(reached, t.at) {
        let cands = repair_candidates(&v.grid, v.handle.as_str(), reached, t.at);
        let count = reached.len() as u64;
        let code = if t.is_warp { CODE_UNREACHABLE_WARP } else { CODE_UNREACHABLE_NPC };
        let f = flag_of(v, code, true, target_evidence_json(t, v.spawn, Some(count)), cands);
        proof {
            assert(reach_seq(v.grid, v.spawn, reached@) && repairs(v.grid, v.handle@, reached@, t.at, requests_view(cands@)));
            assert(repair_contract(views@[r as int], t.at, flag_view(f).fixes));
        }
        out.push(f);
        proof {
            lemma_flags_view_push(first, f);
        }
    }
    proof {
        let e = target_expected(views@, r as int, ts);
        assert(flags_view(out@).len() == e.len());
        assert forall|i: int| 0 <= i < flags_view(out@).len() implies flag_agrees(views@, e[i], #[trigger] flags_view(out@)[i]) by {
            assert(flags_view(out@)[i] == flag_view(out@[i]));
        }
    }
    out
}

fn same_text(a: &str, b: &str) -> (res: bool)
    ensures
        res == (a@ == b@),
{
    chars_equal(&chars_of(a), &chars_of(b))
}

pub(crate) fn str_field_is(v: &Json, key: &str, expected: &str) -> (res: bool)
    ensures
        res == (field_of(v@, key@) == Some(JsonView::Str(expected@))),
{
    match v.get(key) {
        Some(Json::Str(k)) => same_text(k.as_str(), expected),
        _ => false,
    }
}

pub(crate) fn has_str_field(v: &Json, key: &str) -> (res: bool)
    ensures
        res == (field_of(v@, key@) matches Some(JsonView::Str(_))),
{
    match v.get(key) {
        Some(Json::Str(_)) => true,
        _ => false,
    }
}

pub(crate) fn is_region_named_exec(path: &RelPath, v: &Json, handle: &str) -> (res: bool)
    ensures
        res == (region_named(handle@))((path@, v@)),
{
    let p = chars_of(path.as_str());
    let a = crate::text::has_prefix(&p, "regions/");
    let b = crate::text::has_suffix(&p, "/region.json");
    let c = str_field_is(v, "kind", "region");
    let d = str_field_is(v, "id", handle);
    let e = has_str_field(v, "stable_id");
    proof { reveal(is_region_named); }
    a && b && c && d && e
}

/// Whether some region of the project carries `handle`.
fn region_exists_exec(files: &Vec<(RelPath, Json)>, handle: &str) -> (res: bool)
    ensures
        res == region_exists(files_view(files@), handle@),
{
    let ghost fv = files_view(files@);
    let mut i: usize = 0;
    while i < files.len()
        invariant
            i <= files@.len(),
            fv == files_view(files@),
            forall|j: int| 0 <= j < i ==> !(region_named(handle@))(#[trigger] fv[j]),
        decreases files@.len() - i,
    {
        assert(fv[i as int] == (files@[i as int].0@, files@[i as int].1@));
        if is_region_named_exec(&files[i].0, &files[i].1, handle) {
            proof { lemma_first_where_at(fv, region_named(handle@), i as int); }
            return true;
        }
        i = i + 1;
    }
    proof {
        lemma_first_where(fv, region_named(handle@));
        if first_where(fv, region_named(handle@)) is Some {
            let k = first_where(fv, region_named(handle@)).unwrap();
            assert(!(region_named(handle@))(fv[k]));
        }
    }
    false
}

proof fn lemma_first_view(views: Seq<RegionView>, handle: Seq<char>)
    ensures
        match first_view(views, handle) {
            Some(i) => 0 <= i < views.len() && views[i].handle@ == handle
                && forall|j: int| 0 <= j < i ==> views[j].handle@ != handle,
            None => forall|j: int| 0 <= j < views.len() ==> views[j].handle@ != handle,
        },
    decreases views.len(),
{
    if views.len() > 0 {
        lemma_first_view(views.drop_last(), handle);
        assert forall|j: int| 0 <= j < views.len() - 1 implies views.drop_last()[j] == views[j] by {}
    }
}

/// The first region view whose handle is `handle`.
fn first_view_exec(views: &Vec<RegionView>, handle: &str) -> (res: Option<usize>)
    ensures
        match res {
            Some(i) => first_view(views@, handle@) == Some(i as int),
            None => first_view(views@, handle@) is None,
        },
{
    proof { lemma_first_view(views@, handle@); }
    let mut i: usize = 0;
    while i < views.len()
        invariant
            i <= views@.len(),
            forall|j: int| 0 <= j < i ==> views@[j].handle@ != handle@,
            match first_view(views@, handle@) {
                Some(k) => 0 <= k < views@.len() && views@[k].handle@ == handle@
                    && forall|j: int| 0 <= j < k ==> views@[j].handle@ != handle@,
                None => forall|j: int| 0 <= j < views@.len() ==> views@[j].handle@ != handle@,
            },
        decreases views@.len() - i,
    {
        if same_text(views[i].handle.as_str(), handle) {
            proof {
                match first_view(views@, handle@) {
                    Some(k) => {
                        if k < i {
                        } else if k > i {
                            assert(views@[i as int].handle@ == handle@);
                        }
                    },
                    None => {
                        assert(views@[i as int].handle@ == handle@);
                    },
                }
            }
            return Some(i);
        }
        i = i + 1;
    }
    None
}

fn dangling_evidence_json(w: &Warp) -> (res: Json)
    ensures
        res@ == dangling_evidence(crate::regions::warp_spec(*w)),
{
    let members = vec![
        member("at", pair_json(w.at)),
        member("target_region_id", Json::Str(w.target_region_id.clone())),
        member("warp_stable_id", Json::Str(w.stable_id.clone())),
    ];
    let ghost m = members@;
    let res = object_of(members);
    assert(Seq::new(m.len(), |i: int| (m[i].0@, m[i].1@)) =~= seq![
        ("at"@, pair(w.at)),
        ("target_region_id"@, JsonView::Str(w.target_region_id@)),
        ("warp_stable_id"@, JsonView::Str(w.stable_id@)),
    ]);
    res
}

fn destination_evidence_json(w: &Warp, dest: (u32, u32)) -> (res: Json)
    ensures
        res@ == destination_evidence(crate::regions::warp_spec(*w), dest),
{
    let members = vec![
        member("at", pair_json(w.at)),
        member("destination_at", pair_json(dest)),
        member("target_region_id", Json::Str(w.target_region_id.clone())),
        member("warp_stable_id", Json::Str(w.stable_id.clone())),
    ];
    let ghost m = members@;
    let res = object_of(members);
    assert(Seq::new(m.len(), |i: int| (m[i].0@, m[i].1@)) =~= seq![
        ("at"@, pair(w.at)),
        ("destination_at"@, pair(dest)),
        ("target_region_id"@, JsonView::Str(w.target_region_id@)),
        ("warp_stable_id"@, JsonView::Str(w.stable_id@)),
    ]);
    res
}

fn create_region_request(handle: &str, width: u32, height: u32, spawn: (u32, u32)) -> (res: PlanRequest)
    ensures
        request_view(res) == create_region_fix(handle@, width, height, spawn),
{
    let members = vec![
        member("height", Json::UInt(height as u64)),
        member("id", Json::Str(handle.to_string())),
        member("spawn", pair_json(spawn)),
        member("width", Json::UInt(width as u64)),
    ];
    let ghost m = members@;
    let input = object_of(members);
    assert(Seq::new(m.len(), |i: int| (m[i].0@, m[i].1@)) =~= seq![
        ("height"@, JsonView::UInt(height as u64)),
        ("id"@, JsonView::Str(handle@)),
        ("spawn"@, pair(spawn)),
        ("width"@, JsonView::UInt(width as u64)),
    ]);
    fix_request("rpg.create_region", input)
}

/// What region `r` flags for warp `w`.
fn warp_flags(files: &Vec<(RelPath, Json)>, views: &Vec<RegionView>, r: usize, w: &Warp) -> (res: Vec<Flag>)
    requires
        r < views@.len(),
        forall|k: int| 0 <= k < views@.len() ==> grid_wf(#[trigger] views@[k].grid),
    ensures
        flags_agree(views@, warp_expected(files_view(files@), views@, r as int, crate::regions::warp_spec(*w)), flags_view(res@)),
{
    let v = &views[r];
    let ghost e = warp_expected(files_view(files@), views@, r as int, crate::regions::warp_spec(*w));
    let mut out: Vec<Flag> = Vec::new();
    if !region_exists_exec(files, w.target_region_id.as_str()) {
        let fix = create_region_request(w.target_region_id.as_str(), v.grid.width, v.grid.height, v.spawn);
        let cands = vec![fix];
        assert(requests_view(cands@) =~= seq![create_region_fix(w.target_region_id@, v.grid.width, v.grid.height, v.spawn)]);
        let f = flag_of(v, CODE_DANGLING_TARGET, false, dangling_evidence_json(w), cands);
        out.push(f);
        assert(flags_view(out@)[0] == flag_view(f));
        return out;
    }
    match w.dest_at {
        Some(d) => match first_view_exec(views, w.target_region_id.as_str()) {
            Some(k) => {
                proof { lemma_first_view(views@, w.target_region_id@); }
                let dv = &views[k];
                let dest_reached = bfs_reached(&dv.grid, dv.spawn);
                if !crate::schema::contains_tile(&dest_reached, d) {
                    let f = flag_of(v, CODE_UNREACHABLE_DESTINATION, false, destination_evidence_json(w, d), Vec::new());
                    assert(requests_view(Seq::<PlanRequest>::empty()) =~= Seq::empty());
                    out.push(f);
                    assert(flags_view(out@)[0] == flag_view(f));
                }
            },
            None => {},
        },
        None => {},
    }
    out
}

proof fn lemma_flags_view_concat(a: Seq<Flag>, b: Seq<Flag>)
    ensures
        flags_view(a + b) == flags_view(a) + flags_view(b),
{
    assert(flags_view(a + b) =~= flags_view(a) + flags_view(b));
}

/// Appends `more` to `out`, keeping the agreement with `e1 + e2`.
fn append_agreeing(out: &mut Vec<Flag>, more: Vec<Flag>, Ghost(views): Ghost<Seq<RegionView>>, Ghost(e1): Ghost<Seq<Expected>>, Ghost(e2): Ghost<Seq<Expected>>)
    requires
        flags_agree(views, e1, flags_view(old(out)@)),
        flags_agree(views, e2, flags_view(more@)),
    ensures
        flags_agree(views, e1 + e2, flags_view(final(out)@)),
{
    let mut more = more;
    let ghost a = out@;
    let ghost b = more@;
    out.append(&mut more);
    proof {
        assert(out@ == a + b);
        lemma_flags_view_concat(a, b);
        lemma_agree_concat(views, e1, e2, flags_view(a), flags_view(b));
    }
}

/// What region `r` flags: a blocked spawn, then each target, then each
/// warp.
fn region_flags(files: &Vec<(RelPath, Json)>, views: &Vec<RegionView>, r: usize) -> (res: Vec<Flag>)
    requires
        r < views@.len(),
        forall|k: int| 0 <= k < views@.len() ==> grid_wf(#[trigger] views@[k].grid),
    ensures
        flags_agree(views@, region_expected(files_view(files@), views@, r as int), flags_view(res@)),
{
    let v = &views[r];
    let ghost fv = files_view(files@);
    let mut out: Vec<Flag> = Vec::new();
    if crate::reachability::solid_at(&v.grid, v.spawn) {
        let fix = collision_fix(v.handle.as_str(), v.spawn, 1, 1);
        let cands = vec![fix];
        assert(requests_view(cands@) =~= seq![clear_fix(v.handle@, (v.spawn.0, v.spawn.1, 1, 1))]);
        let members = vec![member("spawn", pair_json(v.spawn))];
        let ghost m = members@;
        let evidence = object_of(members);
        assert(Seq::new(m.len(), |i: int| (m[i].0@, m[i].1@)) =~= seq![("spawn"@, pair(v.spawn))]);
        let f = flag_of(v, CODE_SPAWN_BLOCKED, true, evidence, cands);
        out.push(f);
        assert(flags_view(out@)[0] == flag_view(f));
    }
    let ghost head = region_expected(fv, views@, r as int).subrange(0, out@.len() as int);
    proof {
        let e = region_expected(fv, views@, r as int);
        assert forall|i: int| 0 <= i < flags_view(out@).len() implies flag_agrees(views@, head[i], #[trigger] flags_view(out@)[i]) by {}
    }
    let reached = bfs_reached(&v.grid, v.spawn);
    let ghost ts = targets_view(v.targets@);
    let mut i: usize = 0;
    assert(ts.take(0) =~= Seq::<TargetSpec>::empty());
    assert(head + targets_expected(views@, r as int, ts.take(0)) =~= head);
    while i < v.targets.len()
        invariant
            i <= v.targets@.len(),
            r < views@.len(),
            *v == views@[r as int],
            forall|k: int| 0 <= k < views@.len() ==> grid_wf(#[trigger] views@[k].grid),
            reach_seq(v.grid, v.spawn, reached@),
            ts == targets_view(v.targets@),
            flags_agree(views@, head + targets_expected(views@, r as int, ts.take(i as int)), flags_view(out@)),
        decreases v.targets@.len() - i,
    {
        let more = target_flags(views, r, &reached, &v.targets[i]);
        let ghost e1 = head + targets_expected(views@, r as int, ts.take(i as int));
        let ghost e2 = target_expected(views@, r as int, ts[i as int]);
        append_agreeing(&mut out, more, Ghost(views@), Ghost(e1), Ghost(e2));
        assert(ts.take(i + 1).drop_last() =~= ts.take(i as int));
        assert(e1 + e2 =~= head + targets_expected(views@, r as int, ts.take(i + 1)));
        i = i + 1;
    }
    assert(ts.take(v.targets@.len() as int) =~= ts);
    let ghost head2 = head + targets_expected(views@, r as int, ts);
    let ghost ws = warps_view(v.warps@);
    let mut j: usize = 0;
    assert(ws.take(0) =~= Seq::<WarpSpec>::empty());
    assert(head2 + warps_expected(fv, views@, r as int, ws.take(0)) =~= head2);
    while j < v.warps.len()
        invariant
            j <= v.warps@.len(),
            r < views@.len(),
            *v == views@[r as int],
            fv == files_view(files@),
            forall|k: int| 0 <= k < views@.len() ==> grid_wf(#[trigger] views@[k].grid),
            ws == warps_view(v.warps@),
            flags_agree(views@, head2 + warps_expected(fv, views@, r as int, ws.take(j as int)), flags_view(out@)),
        decreases v.warps@.len() - j,
    {
        let more = warp_flags(files, views, r, &v.warps[j]);
        let ghost e1 = head2 + warps_expected(fv, views@, r as int, ws.take(j as int));
        let ghost e2 = warp_expected(fv, views@, r as int, ws[j as int]);
        append_agreeing(&mut out, more, Ghost(views@), Ghost(e1), Ghost(e2));
        assert(ws.take(j + 1).drop_last() =~= ws.take(j as int));
        assert(e1 + e2 =~= head2 + warps_expected(fv, views@, r as int, ws.take(j + 1)));
        j = j + 1;
    }
    assert(ws.take(v.warps@.len() as int) =~= ws);
    proof {
        let e = region_expected(fv, views@, r as int);
        assert(head2 + warps_expected(fv, views@, r as int, ws) =~= e);
    }
    out
}

/// Every condition the reachability check flags, region by region in path
/// order: for each, a blocked spawn, then its targets (on a solid tile; not
/// reached), then its warps (dangling; unreachable landing).
pub fn conditions(files: &Vec<(RelPath, Json)>, views: &Vec<RegionView>) -> (res: Vec<Flag>)
    requires
        forall|k: int| 0 <= k < views@.len() ==> grid_wf(#[trigger] views@[k].grid),
    ensures
        flags_agree(views@, expected_upto(files_view(files@), views@, views@.len() as int), flags_view(res@)),
{
    let ghost fv = files_view(files@);
    let mut out: Vec<Flag> = Vec::new();
    let mut r: usize = 0;
    assert(flags_view(out@) =~= Seq::<FlagView>::empty());
    while r < views.len()
        invariant
            r <= views@.len(),
            fv == files_view(files@),
            forall|k: int| 0 <= k < views@.len() ==> grid_wf(#[trigger] views@[k].grid),
            flags_agree(views@, expected_upto(fv, views@, r as int), flags_view(out@)),
        decreases views@.len() - r,
    {
        let more = region_flags(files, views, r);
        append_agreeing(&mut out, more, Ghost(views@), Ghost(expected_upto(fv, views@, r as int)), Ghost(region_expected(fv, views@, r as int)));
        r = r + 1;
    }
    out
}

pub open spec fn before_message(m: (Seq<char>, JsonView)) -> bool {
    crate::json::key_less(m.0, "message"@)
}

pub open spec fn after_message(m: (Seq<char>, JsonView)) -> bool {
    crate::json::key_less("message"@, m.0)
}

/// The evidence a finding carries: when no fix verified, an object's
/// evidence gains the unfixable note under `message`, in key order.
pub open spec fn with_message(e: JsonView, unfixable: bool) -> JsonView {
    match e {
        JsonView::Object(ms) => if unfixable {
            JsonView::Object(
                ms.filter(|m: (Seq<char>, JsonView)| before_message(m))
                    + seq![("message"@, JsonView::Str(crate::regions::UNFIXABLE_NOTE@))]
                    + ms.filter(|m: (Seq<char>, JsonView)| after_message(m)),
            )
        } else {
            e
        },
        _ => e,
    }
}

/// The finding a flag becomes once `fix_count` of its candidates verified.
pub open spec fn finished(f: FlagView, fix_count: nat) -> crate::finding::FindingView {
    let evidence = with_message(f.evidence, fix_count == 0);
    crate::finding::FindingView {
        finding_id: crate::finding::finding_id_text(f.code, f.stable_id, f.path, evidence),
        code: f.code,
        severity: if f.blocking { crate::finding::Severity::Error } else { crate::finding::Severity::Warning },
        stable_id: f.stable_id,
        path: f.path,
        evidence,
        fix_count,
        blocking: f.blocking,
    }
}

fn key_before(a: &str, b: &str) -> (res: bool)
    ensures
        res == crate::json::key_less(a@, b@),
{
    match crate::json::compare_keys(a, b) {
        crate::json::KeyOrder::Less => true,
        _ => false,
    }
}

/// Adds the unfixable note to an object's evidence.
fn add_message(e: &Json) -> (res: Json)
    ensures
        res@ == with_message(e@, true),
{
    match e {
        Json::Object(ms) => {
            let ghost mv = crate::json::view_members(ms@);
            proof { crate::json::lemma_view_members_len(ms@); }
            let mut lo: Vec<(String, Json)> = Vec::new();
            let mut hi: Vec<(String, Json)> = Vec::new();
            let mut i: usize = 0;
            proof {
                assert(mv.take(0) =~= Seq::<(Seq<char>, JsonView)>::empty());
                reveal(Seq::filter);
            }
            while i < ms.len()
                invariant
                    i <= ms@.len(),
                    mv == crate::json::view_members(ms@),
                    mv.len() == ms@.len(),
                    forall|k: int| 0 <= k < ms@.len() ==> #[trigger] mv[k] == (ms@[k].0@, ms@[k].1@),
                    crate::json::view_members(lo@) == mv.take(i as int).filter(|m: (Seq<char>, JsonView)| before_message(m)),
                    crate::json::view_members(hi@) == mv.take(i as int).filter(|m: (Seq<char>, JsonView)| after_message(m)),
                decreases ms@.len() - i,
            {
                let key = &ms[i].0;
                proof {
                    reveal(Seq::filter);
                    assert(mv.take(i + 1).drop_last() =~= mv.take(i as int));
                    assert(mv.take(i + 1).last() == mv[i as int]);
                    crate::json::lemma_view_members_len(lo@);
                    crate::json::lemma_view_members_len(hi@);
                    crate::json::lemma_key_less_trichotomy(mv[i as int].0, "message"@);
                }
                if key_before(key.as_str(), "message") {
                    let ghost before = lo@;
                    lo.push((key.clone(), ms[i].1.duplicate()));
                    proof {
                        crate::json::lemma_view_members_len(lo@);
                        assert(crate::json::view_members(lo@) =~= crate::json::view_members(before).push(mv[i as int]));
                    }
                } else if key_before("message", key.as_str()) {
                    let ghost before = hi@;
                    hi.push((key.clone(), ms[i].1.duplicate()));
                    proof {
                        crate::json::lemma_view_members_len(hi@);
                        assert(crate::json::view_members(hi@) =~= crate::json::view_members(before).push(mv[i as int]));
                    }
                }
                i = i + 1;
            }
            assert(mv.take(ms@.len() as int) =~= mv);
            let ghost lov = crate::json::view_members(lo@);
            let ghost hiv = crate::json::view_members(hi@);
            let ghost h0 = hi@;
            let ghost l0 = lo@;
            lo.push(member("message", Json::Str(crate::regions::UNFIXABLE_NOTE.to_string())));
            let ghost lo1 = lo@;
            lo.append(&mut hi);
            proof {
                assert(lo@ == lo1 + h0);
                crate::json::lemma_view_members_len(lo@);
                crate::json::lemma_view_members_len(lo1);
                crate::json::lemma_view_members_len(l0);
                crate::json::lemma_view_members_len(h0);
                assert(crate::json::view_members(lo@) =~= lov + seq![("message"@, JsonView::Str(crate::regions::UNFIXABLE_NOTE@))] + hiv);
            }
            Json::Object(lo)
        },
        _ => e.duplicate(),
    }
}

/// The finding `flag` becomes, carrying the candidates that verified: an
/// error when it blocks, else a warning; with the unfixable note when none
/// verified.
pub fn finish(flag: Flag, fixes: Vec<PlanRequest>) -> (res: crate::finding::Finding)
    ensures
        crate::finding::finding_view(res) == finished(flag_view(flag), fixes@.len()),
        res.suggested_fixes@ == fixes@,
{
    let evidence = if fixes.len() == 0 { add_message(&flag.evidence) } else { flag.evidence.duplicate() };
    let id = crate::finding::finding_id(flag.code.as_str(), &flag.location, &evidence);
    let severity = if flag.blocking { crate::finding::Severity::Error } else { crate::finding::Severity::Warning };
    crate::finding::Finding {
        finding_id: id,
        code: flag.code,
        severity,
        location: flag.location,
        evidence,
        suggested_fixes: fixes,
        blocking: flag.blocking,
    }
}

pub open spec fn kept_in_identity(m: (Seq<char>, JsonView)) -> bool {
    m.0 != "reached"@ && m.0 != "message"@
}

/// Evidence without its state-dependent members (`reached`, `message`):
/// what stays the same while the flagged condition does.
pub open spec fn stripped(e: JsonView) -> JsonView {
    match e {
        JsonView::Object(ms) => JsonView::Object(ms.filter(|m: (Seq<char>, JsonView)| kept_in_identity(m))),
        _ => e,
    }
}

fn strip(e: &Json) -> (res: Json)
    ensures
        res@ == stripped(e@),
{
    match e {
        Json::Object(ms) => {
            let ghost mv = crate::json::view_members(ms@);
            proof { crate::json::lemma_view_members_len(ms@); }
            let mut out: Vec<(String, Json)> = Vec::new();
            let mut i: usize = 0;
            proof {
                assert(mv.take(0) =~= Seq::<(Seq<char>, JsonView)>::empty());
                reveal(Seq::filter);
            }
            while i < ms.len()
                invariant
                    i <= ms@.len(),
                    mv == crate::json::view_members(ms@),
                    mv.len() == ms@.len(),
                    forall|k: int| 0 <= k < ms@.len() ==> #[trigger] mv[k] == (ms@[k].0@, ms@[k].1@),
                    crate::json::view_members(out@) == mv.take(i as int).filter(|m: (Seq<char>, JsonView)| kept_in_identity(m)),
                decreases ms@.len() - i,
            {
                let key = &ms[i].0;
                proof {
                    reveal(Seq::filter);
                    assert(mv.take(i + 1).drop_last() =~= mv.take(i as int));
                    assert(mv.take(i + 1).last() == mv[i as int]);
                    crate::json::lemma_view_members_len(out@);
                }
                if !same_text(key.as_str(), "reached") && !same_text(key.as_str(), "message") {
                    let ghost before = out@;
                    out.push((key.clone(), ms[i].1.duplicate()));
                    proof {
                        crate::json::lemma_view_members_len(out@);
                        assert(crate::json::view_members(out@) =~= crate::json::view_members(before).push(mv[i as int]));
                    }
                }
                i = i + 1;
            }
            assert(mv.take(ms@.len() as int) =~= mv);
            Json::Object(out)
        },
        _ => e.duplicate(),
    }
}

/// Whether `f` names the condition `flag` names: the same code and
/// location, and the same evidence but for its state-dependent members.
pub fn same_condition(flag: &Flag, f: &crate::finding::Finding) -> (res: bool)
    ensures
        res == (flag.code@ == f.code@
            && location_stable_id(flag.location) == location_stable_id(f.location)
            && location_path(flag.location) == location_path(f.location)
            && stripped(flag.evidence@) == stripped(f.evidence@)),
{
    if !same_text(flag.code.as_str(), f.code.as_str()) {
        return false;
    }
    let sid_same = match (&flag.location.stable_id, &f.location.stable_id) {
        (Some(a), Some(b)) => same_text(a.as_str(), b.as_str()),
        (None, None) => true,
        _ => false,
    };
    let path_same = match (&flag.location.path, &f.location.path) {
        (Some(a), Some(b)) => a.same(b),
        (None, None) => true,
        _ => false,
    };
    if !sid_same || !path_same {
        return false;
    }
    strip(&flag.evidence).same(&strip(&f.evidence))
}

/// The candidates kept: those whose staged application cleared the
/// condition, in their order.
pub open spec fn kept(cands: Seq<(Seq<char>, u32, JsonView, Seq<char>)>, cleared: Seq<bool>) -> Seq<(Seq<char>, u32, JsonView, Seq<char>)>
    decreases cands.len(),
{
    if cands.len() == 0 || cleared.len() < cands.len() {
        Seq::empty()
    } else {
        let rest = kept(cands.drop_last(), cleared.subrange(0, cands.len() - 1));
        if cleared[cands.len() - 1] { rest.push(cands.last()) } else { rest }
    }
}

/// The fix contract: of the candidates, keep those whose staged application
/// made the condition disappear (`cleared[i]` for candidate `i`), in
/// order. A re-run made to check a fix (`depth` past 0) proposes none.
pub fn select_fixes(depth: u32, candidates: Vec<PlanRequest>, cleared: &Vec<bool>) -> (res: Vec<PlanRequest>)
    requires
        cleared@.len() == candidates@.len(),
    ensures
        depth != 0 ==> res@.len() == 0,
        depth == 0 ==> requests_view(res@) == kept(requests_view(candidates@), cleared@),
{
    let mut out: Vec<PlanRequest> = Vec::new();
    if depth != 0 {
        return out;
    }
    let ghost cv = requests_view(candidates@);
    let ghost all = candidates@;
    let n = candidates.len();
    let mut rest = candidates;
    let mut i: usize = 0;
    assert(requests_view(out@) =~= kept(cv.subrange(0, 0), cleared@.subrange(0, 0)));
    while i < n
        invariant
            i <= n,
            n == all.len(),
            cleared@.len() == n,
            rest@ == all.subrange(i as int, n as int),
            cv == requests_view(all),
            requests_view(out@) == kept(cv.subrange(0, i as int), cleared@.subrange(0, i as int)),
        decreases n - i,
    {
        let c = rest.remove(0);
        proof {
            let s = cv.subrange(0, i + 1);
            let k = cleared@.subrange(0, i + 1);
            assert(s.drop_last() =~= cv.subrange(0, i as int));
            assert(k.subrange(0, s.len() - 1) =~= cleared@.subrange(0, i as int));
            assert(s.last() == request_view(c));
            assert(rest@ =~= all.subrange(i + 1, n as int));
        }
        if cleared[i] {
            let ghost before = out@;
            out.push(c);
            assert(requests_view(out@) =~= requests_view(before).push(request_view(c)));
        }
        i = i + 1;
    }
    assert(cv.subrange(0, n as int) =~= cv);
    assert(cleared@.subrange(0, n as int) =~= cleared@);
    out
}

/// Findings in finding-id order.
pub fn ordered(findings: Vec<crate::finding::Finding>) -> (res: Vec<crate::finding::Finding>)
    ensures
        crate::integrity::sorted_by_id(crate::integrity::findings_view(res@)),
        crate::integrity::findings_view(res@).to_multiset() == crate::integrity::findings_view(findings@).to_multiset(),
        res@.to_multiset() == findings@.to_multiset(),
{
    crate::integrity::sort_by_finding_id(findings)
}

} // verus!
