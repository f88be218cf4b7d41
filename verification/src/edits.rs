//! The files the RPG operations write: a fresh region body, an npc entity,
//! a placement or a warp appended to a region, and the project's region
//! index that the operations resolve handles against.

use vstd::prelude::*;

use crate::finding::{Finding, FindingView, Location, Severity, finding_id, finding_id_text, finding_view};
use crate::integrity::{files_view, findings_view};
use crate::op::{Diff, FileChange, PlanRequest};
use crate::ir::RelPath;
use crate::json::{Json, JsonView, field_of, text_field, view_items, view_members};
use crate::ids::{IdKind, StableId, render};
use crate::op::OpError;
use crate::ops::{
    CreateRegion, CreateRegionOutput, CreateRegionPlan, MarkWarp, MarkWarpOutput, MarkWarpPlan, PlaceNpc, PlaceNpcOutput,
    PlaceNpcPlan, RegionEntry, RegionIndex,
};
use crate::schema::{npc_path_text, region_path_text};
use crate::text::{push_str, string_of};
use crate::tx::{Transaction, changes_view};
use crate::regions::{dimension, first_where};
use crate::schema::{Facing, OWNER_MODULE, Terrain, facing_name, is_solid_glyph, terrain_glyph, terrain_of_kind};
use crate::text::{chars_equal, chars_of};
use crate::walk::{is_region_named, pair, region_named};

verus! {

/// The first member named `k`.
pub open spec fn first_key(ms: Seq<(Seq<char>, JsonView)>, k: Seq<char>) -> Option<int>
    decreases ms.len(),
{
    if ms.len() == 0 {
        None
    } else {
        match first_key(ms.drop_last(), k) {
            Some(i) => Some(i),
            None => if ms.last().0 == k { Some(ms.len() - 1) } else { None },
        }
    }
}

/// The first member whose key sorts after `k`.
pub open spec fn first_after(ms: Seq<(Seq<char>, JsonView)>, k: Seq<char>) -> Option<int>
    decreases ms.len(),
{
    if ms.len() == 0 {
        None
    } else {
        match first_after(ms.drop_last(), k) {
            Some(i) => Some(i),
            None => if crate::json::key_less(k, ms.last().0) { Some(ms.len() - 1) } else { None },
        }
    }
}

proof fn lemma_first_key(ms: Seq<(Seq<char>, JsonView)>, k: Seq<char>)
    ensures
        match first_key(ms, k) {
            Some(i) => 0 <= i < ms.len() && ms[i].0 == k && forall|j: int| 0 <= j < i ==> #[trigger] ms[j].0 != k,
            None => forall|j: int| 0 <= j < ms.len() ==> #[trigger] ms[j].0 != k,
        },
    decreases ms.len(),
{
    if ms.len() > 0 {
        lemma_first_key(ms.drop_last(), k);
        assert forall|j: int| 0 <= j < ms.len() - 1 implies ms.drop_last()[j] == ms[j] by {}
    }
}

proof fn lemma_first_after(ms: Seq<(Seq<char>, JsonView)>, k: Seq<char>)
    ensures
        match first_after(ms, k) {
            Some(i) => 0 <= i < ms.len() && crate::json::key_less(k, ms[i].0)
                && forall|j: int| 0 <= j < i ==> !crate::json::key_less(k, #[trigger] ms[j].0),
            None => forall|j: int| 0 <= j < ms.len() ==> !crate::json::key_less(k, #[trigger] ms[j].0),
        },
    decreases ms.len(),
{
    if ms.len() > 0 {
        lemma_first_after(ms.drop_last(), k);
        assert forall|j: int| 0 <= j < ms.len() - 1 implies ms.drop_last()[j] == ms[j] by {}
    }
}

/// Members with `k` set to `v`, as a sorted map sets a key: an existing
/// member's value is replaced in place; a new member goes before the first
/// key that sorts after it.
pub open spec fn with_key(ms: Seq<(Seq<char>, JsonView)>, k: Seq<char>, v: JsonView) -> Seq<(Seq<char>, JsonView)> {
    match first_key(ms, k) {
        Some(i) => ms.update(i, (k, v)),
        None => match first_after(ms, k) {
            Some(j) => ms.insert(j, (k, v)),
            None => ms.push((k, v)),
        },
    }
}

fn key_before(a: &str, b: &str) -> (res: bool)
    ensures
        res == crate::json::key_less(a@, b@),
{
    match crate::json::compare_keys(a, b) {
        crate::json::KeyOrder::Less => true,
        _ => false,
    }
}

/// Sets member `key` of `members` to `value` (see [`with_key`]).
pub fn set_key(members: &mut Vec<(String, Json)>, key: &str, value: Json)
    ensures
        view_members(final(members)@) == with_key(view_members(old(members)@), key@, value@),
{
    let ghost mv = view_members(members@);
    proof {
        crate::json::lemma_view_members_len(members@);
        lemma_first_key(mv, key@);
        lemma_first_after(mv, key@);
    }
    let ghost v = value@;
    match crate::json::find_member(members, key) {
        Some(i) => {
            let ghost old_m = members@;
            members.set(i, (key.to_string(), value));
            proof {
                crate::json::lemma_view_members_len(members@);
                match first_key(mv, key@) {
                    Some(k) => {
                        if k < i as int {
                            assert(mv[k].0 == key@);
                        } else if k > i as int {
                            assert(mv[i as int].0 == key@);
                        }
                    },
                    None => {
                        assert(mv[i as int].0 == key@);
                    },
                }
                assert(view_members(members@) =~= mv.update(i as int, (key@, v)));
            }
        },
        None => {
            proof {
                if first_key(mv, key@) is Some {
                    let k = first_key(mv, key@).unwrap();
                    assert(mv[k].0 == key@);
                }
            }
            let mut j: usize = 0;
            let mut at_greater = false;
            while j < members.len() && !at_greater
                invariant
                    j <= members@.len(),
                    mv == view_members(members@),
                    mv.len() == members@.len(),
                    forall|q: int| 0 <= q < members@.len() ==> #[trigger] mv[q] == (members@[q].0@, members@[q].1@),
                    forall|q: int| 0 <= q < j ==> !crate::json::key_less(key@, #[trigger] mv[q].0),
                    at_greater ==> j < members@.len() && crate::json::key_less(key@, mv[j as int].0),
                decreases members@.len() - j, if at_greater { 0int } else { 1int },
            {
                if key_before(key, members[j].0.as_str()) {
                    at_greater = true;
                } else {
                    j = j + 1;
                }
            }
            if at_greater {
                proof {
                    match first_after(mv, key@) {
                        Some(k) => {
                            if k < j as int {
                            } else if k > j as int {
                                assert(crate::json::key_less(key@, mv[j as int].0));
                            }
                        },
                        None => {
                            assert(crate::json::key_less(key@, mv[j as int].0));
                        },
                    }
                }
                members.insert(j, (key.to_string(), value));
                proof {
                    crate::json::lemma_view_members_len(members@);
                    assert(view_members(members@) =~= mv.insert(j as int, (key@, v)));
                }
            } else {
                proof {
                    if first_after(mv, key@) is Some {
                        let k = first_after(mv, key@).unwrap();
                        assert(crate::json::key_less(key@, mv[k].0));
                    }
                }
                members.push((key.to_string(), value));
                proof {
                    crate::json::lemma_view_members_len(members@);
                    assert(view_members(members@) =~= mv.push((key@, v)));
                }
            }
        },
    }
}

/// Strings as a JSON array.
pub open spec fn texts(s: Seq<Seq<char>>) -> JsonView {
    JsonView::Array(Seq::new(s.len(), |i: int| JsonView::Str(s[i])))
}

pub open spec fn strings_view(v: Seq<String>) -> Seq<Seq<char>> {
    Seq::new(v.len(), |i: int| v[i]@)
}

/// `[x, y]` of a point.
pub open spec fn point_value(p: [u32; 2]) -> JsonView {
    pair((p[0], p[1]))
}

/// The body of a fresh region: no tags, intent or constraints, and no
/// placements or warps yet.
pub open spec fn region_body(id: Seq<char>, stable_id: Seq<char>, width: u32, height: u32, spawn: [u32; 2]) -> JsonView {
    JsonView::Object(seq![
        ("constraints"@, JsonView::Array(Seq::empty())),
        ("height"@, JsonView::UInt(height as u64)),
        ("id"@, JsonView::Str(id)),
        ("intent"@, JsonView::Str(Seq::empty())),
        ("kind"@, JsonView::Str("region"@)),
        ("owner_module"@, JsonView::Str(OWNER_MODULE@)),
        ("placements"@, JsonView::Array(Seq::empty())),
        ("spawn"@, point_value(spawn)),
        ("stable_id"@, JsonView::Str(stable_id)),
        ("tags"@, JsonView::Array(Seq::empty())),
        ("warps"@, JsonView::Array(Seq::empty())),
        ("width"@, JsonView::UInt(width as u64)),
    ])
}

/// An npc entity: every field of the entity schema, and no coordinates
/// (its placement lives on the region).
pub open spec fn npc_body(
    id: Seq<char>,
    stable_id: Seq<char>,
    tags: Seq<Seq<char>>,
    intent: Seq<char>,
    constraints: Seq<Seq<char>>,
    human_name: Option<Seq<char>>,
    facing: Facing,
) -> JsonView {
    JsonView::Object(seq![
        ("constraints"@, texts(constraints)),
        ("facing"@, JsonView::Str(facing_name(facing))),
        ("human_name"@, match human_name {
            Some(n) => JsonView::Str(n),
            None => JsonView::Null,
        }),
        ("id"@, JsonView::Str(id)),
        ("intent"@, JsonView::Str(intent)),
        ("kind"@, JsonView::Str("npc"@)),
        ("owner_module"@, JsonView::Str(OWNER_MODULE@)),
        ("stable_id"@, JsonView::Str(stable_id)),
        ("tags"@, texts(tags)),
    ])
}

/// A region's placement of an entity.
pub open spec fn placement_value(stable_id: Seq<char>, at: [u32; 2], facing: Facing) -> JsonView {
    JsonView::Object(seq![
        ("at"@, point_value(at)),
        ("facing"@, JsonView::Str(facing_name(facing))),
        ("stable_id"@, JsonView::Str(stable_id)),
    ])
}

/// A warp: its tile, and where it leads (the target's stable id `null`
/// while the target is unbuilt).
pub open spec fn warp_value(
    stable_id: Seq<char>,
    at: [u32; 2],
    to_region: Seq<char>,
    to_stable_id: Option<Seq<char>>,
    to_at: Option<[u32; 2]>,
) -> JsonView {
    JsonView::Object(seq![
        ("at"@, point_value(at)),
        ("stable_id"@, JsonView::Str(stable_id)),
        ("to"@, JsonView::Object(seq![
            ("at"@, match to_at {
                Some(p) => point_value(p),
                None => JsonView::Null,
            }),
            ("region_id"@, JsonView::Str(to_region)),
            ("region_stable_id"@, match to_stable_id {
                Some(s) => JsonView::Str(s),
                None => JsonView::Null,
            }),
        ])),
    ])
}

/// `region` with `item` appended to its array field `key`; `None` when
/// that field is not an array.
pub open spec fn appended(region: JsonView, key: Seq<char>, item: JsonView) -> Option<JsonView> {
    match region {
        JsonView::Object(ms) => match field_of(region, key) {
            Some(JsonView::Array(a)) => Some(JsonView::Object(with_key(ms, key, JsonView::Array(a.push(item))))),
            _ => None,
        },
        _ => None,
    }
}

proof fn lemma_set_existing_field(region: JsonView, key: Seq<char>, v: JsonView)
    requires
        region is Object,
        field_of(region, key) is Some,
    ensures
        field_of(JsonView::Object(with_key(region->Object_0, key, v)), key) == Some(v),
{
    let ms = region->Object_0;
    lemma_first_key(ms, key);
    match first_key(ms, key) {
        Some(i) => {
            let ms2 = ms.update(i, (key, v));
            assert(with_key(ms, key, v) == ms2);
            assert forall|j: int| 0 <= j < i implies (#[trigger] ms2[j]).0 != key by {
                assert(ms2[j] == ms[j]);
            }
            crate::json::lemma_member_first(ms2, key, i);
        },
        None => {
            assert(!(exists|i: int| 0 <= i < ms.len() && #[trigger] ms[i].0 == key));
        },
    }
}

/// Appending a warp records it last in the region's `warps`, under its own
/// stable id, leading to the target region by handle and by the target's
/// resolved stable id (`null` only while the target is unbuilt).
pub proof fn law_appended_warp_records_its_target(
    region: JsonView,
    stable_id: Seq<char>,
    at: [u32; 2],
    to_region: Seq<char>,
    to_stable_id: Option<Seq<char>>,
    to_at: Option<[u32; 2]>,
    after: JsonView,
)
    requires
        appended(region, "warps"@, warp_value(stable_id, at, to_region, to_stable_id, to_at)) == Some(after),
    ensures
        crate::regions::array_field(after, "warps"@).len() == crate::regions::array_field(region, "warps"@).len() + 1,
        ({
            let w = crate::regions::array_field(after, "warps"@).last();
            &&& field_of(w, "at"@) == Some(JsonView::Array(seq![JsonView::UInt(at[0] as u64), JsonView::UInt(at[1] as u64)]))
            &&& field_of(w, "stable_id"@) == Some(JsonView::Str(stable_id))
            &&& field_of(w, "to"@) matches Some(t) && field_of(t, "region_id"@) == Some(JsonView::Str(to_region))
                && field_of(t, "region_stable_id"@) == Some(match to_stable_id {
                    Some(s) => JsonView::Str(s),
                    None => JsonView::Null,
                })
                && field_of(t, "at"@) == Some(match to_at {
                    Some(p) => JsonView::Array(seq![JsonView::UInt(p[0] as u64), JsonView::UInt(p[1] as u64)]),
                    None => JsonView::Null,
                })
        }),
{
    let item = warp_value(stable_id, at, to_region, to_stable_id, to_at);
    let a = crate::regions::array_field(region, "warps"@);
    lemma_set_existing_field(region, "warps"@, JsonView::Array(a.push(item)));
    assert(crate::regions::array_field(after, "warps"@) == a.push(item));
    assert(a.push(item).last() == item);
    lemma_warp_fields(stable_id, at, to_region, to_stable_id, to_at);
}

#[verifier::rlimit(30)]
proof fn lemma_warp_fields(
    stable_id: Seq<char>,
    at: [u32; 2],
    to_region: Seq<char>,
    to_stable_id: Option<Seq<char>>,
    to_at: Option<[u32; 2]>,
)
    ensures
        ({
            let w = warp_value(stable_id, at, to_region, to_stable_id, to_at);
            &&& field_of(w, "at"@) == Some(JsonView::Array(seq![JsonView::UInt(at[0] as u64), JsonView::UInt(at[1] as u64)]))
            &&& field_of(w, "stable_id"@) == Some(JsonView::Str(stable_id))
            &&& field_of(w, "to"@) matches Some(t) && field_of(t, "region_id"@) == Some(JsonView::Str(to_region))
                && field_of(t, "region_stable_id"@) == Some(match to_stable_id {
                    Some(s) => JsonView::Str(s),
                    None => JsonView::Null,
                })
                && field_of(t, "at"@) == Some(match to_at {
                    Some(p) => JsonView::Array(seq![JsonView::UInt(p[0] as u64), JsonView::UInt(p[1] as u64)]),
                    None => JsonView::Null,
                })
        }),
{
    reveal_strlit("at");
    reveal_strlit("stable_id");
    reveal_strlit("to");
    reveal_strlit("region_id");
    reveal_strlit("region_stable_id");
    let item = warp_value(stable_id, at, to_region, to_stable_id, to_at);
    let sid_v = match to_stable_id {
        Some(s) => JsonView::Str(s),
        None => JsonView::Null,
    };
    let dest_v = match to_at {
        Some(p) => point_value(p),
        None => JsonView::Null,
    };
    let inner = seq![("at"@, dest_v), ("region_id"@, JsonView::Str(to_region)), ("region_stable_id"@, sid_v)];
    let outer = seq![("at"@, point_value(at)), ("stable_id"@, JsonView::Str(stable_id)), ("to"@, JsonView::Object(inner))];
    match item {
        JsonView::Object(ms) => {
            assert(ms.len() == 3);
            assert(ms[0] == outer[0]);
            assert(ms[1] == outer[1]);
            assert(ms[2].0 == outer[2].0);
            match ms[2].1 {
                JsonView::Object(ims) => {
                    assert(ims.len() == 3);
                    assert(ims[0] == inner[0]);
                    assert(ims[1] == inner[1]);
                    assert(ims[2] == inner[2]);
                    assert(ims =~= inner);
                },
                _ => { assert(false); },
            }
            assert(ms =~= outer);
        },
        _ => { assert(false); },
    }
    assert("at"@[0] == 'a' && "stable_id"@[0] == 's' && "to"@[0] == 't' && "region_id"@[0] == 'r');
    assert("region_id"@.len() == 9 && "region_stable_id"@.len() == 16);
    assert(outer[0].0 != "stable_id"@);
    assert(outer[0].0 != "to"@);
    assert(outer[1].0 != "to"@);
    crate::json::lemma_member_first(outer, "at"@, 0);
    crate::json::lemma_member_first(inner, "at"@, 0);
    crate::json::lemma_member_first(outer, "stable_id"@, 1);
    crate::json::lemma_member_first(outer, "to"@, 2);
    assert(inner[0].0 != "region_id"@);
    assert(inner[0].0 != "region_stable_id"@);
    assert(inner[1].0 != "region_stable_id"@);
    crate::json::lemma_member_first(inner, "region_id"@, 1);
    crate::json::lemma_member_first(inner, "region_stable_id"@, 2);
}

fn point_json(p: [u32; 2]) -> (res: Json)
    ensures
        res@ == point_value(p),
{
    let items = vec![Json::UInt(p[0] as u64), Json::UInt(p[1] as u64)];
    proof { crate::json::lemma_view_items_len(items@); }
    let res = Json::Array(items);
    assert(view_items(items@) =~= seq![JsonView::UInt(p[0] as u64), JsonView::UInt(p[1] as u64)]);
    res
}

fn texts_json(v: &Vec<String>) -> (res: Json)
    ensures
        res@ == texts(strings_view(v@)),
{
    let mut items: Vec<Json> = Vec::new();
    let mut i: usize = 0;
    while i < v.len()
        invariant
            i <= v@.len(),
            items@.len() == i,
            forall|j: int| 0 <= j < i ==> (#[trigger] items@[j])@ == JsonView::Str(v@[j]@),
        decreases v@.len() - i,
    {
        items.push(Json::Str(v[i].clone()));
        i = i + 1;
    }
    proof { crate::json::lemma_view_items_len(items@); }
    let res = Json::Array(items);
    assert(view_items(items@) =~= Seq::new(v@.len(), |j: int| JsonView::Str(strings_view(v@)[j])));
    res
}

fn members_json(members: Vec<(String, Json)>) -> (res: Json)
    ensures
        res@ == JsonView::Object(Seq::new(members@.len(), |i: int| (members@[i].0@, members@[i].1@))),
{
    proof { crate::json::lemma_view_members_len(members@); }
    let ghost m = members@;
    let res = Json::Object(members);
    assert(view_members(m) =~= Seq::new(m.len(), |i: int| (m[i].0@, m[i].1@)));
    res
}

/// `region.json` for a fresh region.
pub fn region_file(id: &str, stable_id: &str, width: u32, height: u32, spawn: [u32; 2]) -> (res: Json)
    ensures
        res@ == region_body(id@, stable_id@, width, height, spawn),
{
    let members = vec![
        ("constraints".to_string(), Json::Array(Vec::new())),
        ("height".to_string(), Json::UInt(height as u64)),
        ("id".to_string(), Json::Str(id.to_string())),
        ("intent".to_string(), Json::Str(String::new())),
        ("kind".to_string(), Json::Str("region".to_string())),
        ("owner_module".to_string(), Json::Str(OWNER_MODULE.to_string())),
        ("placements".to_string(), Json::Array(Vec::new())),
        ("spawn".to_string(), point_json(spawn)),
        ("stable_id".to_string(), Json::Str(stable_id.to_string())),
        ("tags".to_string(), Json::Array(Vec::new())),
        ("warps".to_string(), Json::Array(Vec::new())),
        ("width".to_string(), Json::UInt(width as u64)),
    ];
    assert(view_items(Seq::<Json>::empty()) =~= Seq::<JsonView>::empty());
    let ghost m = members@;
    let res = members_json(members);
    assert(Seq::new(m.len(), |i: int| (m[i].0@, m[i].1@)) =~= match region_body(id@, stable_id@, width, height, spawn) {
        JsonView::Object(ms) => ms,
        _ => Seq::empty(),
    });
    res
}

/// The npc entity file.
pub fn npc_file(
    id: &str,
    stable_id: &str,
    tags: &Vec<String>,
    intent: &str,
    constraints: &Vec<String>,
    human_name: &Option<String>,
    facing: Facing,
) -> (res: Json)
    ensures
        res@ == npc_body(id@, stable_id@, strings_view(tags@), intent@, strings_view(constraints@), match human_name {
            Some(n) => Some(n@),
            None => None,
        }, facing),
{
    let name = match human_name {
        Some(n) => Json::Str(n.clone()),
        None => Json::Null,
    };
    let members = vec![
        ("constraints".to_string(), texts_json(constraints)),
        ("facing".to_string(), Json::Str(facing.name().to_string())),
        ("human_name".to_string(), name),
        ("id".to_string(), Json::Str(id.to_string())),
        ("intent".to_string(), Json::Str(intent.to_string())),
        ("kind".to_string(), Json::Str("npc".to_string())),
        ("owner_module".to_string(), Json::Str(OWNER_MODULE.to_string())),
        ("stable_id".to_string(), Json::Str(stable_id.to_string())),
        ("tags".to_string(), texts_json(tags)),
    ];
    let ghost m = members@;
    let res = members_json(members);
    assert(Seq::new(m.len(), |i: int| (m[i].0@, m[i].1@)) =~= match npc_body(id@, stable_id@, strings_view(tags@), intent@, strings_view(constraints@), match human_name {
        Some(n) => Some(n@),
        None => None,
    }, facing) {
        JsonView::Object(ms) => ms,
        _ => Seq::empty(),
    });
    res
}

/// Appends `item` to the array field `key` of `region`.
fn push_item(region: &mut Json, key: &str, item: Json) -> (res: Result<(), ()>)
    ensures
        match res {
            Ok(()) => appended(old(region)@, key@, item@) == Some(final(region)@),
            Err(()) => appended(old(region)@, key@, item@) is None && final(region)@ == old(region)@,
        },
{
    let grown: Option<Json> = match region.get(key) {
        Some(Json::Array(a)) => {
            let mut items: Vec<Json> = Vec::new();
            let mut i: usize = 0;
            while i < a.len()
                invariant
                    i <= a@.len(),
                    items@.len() == i,
                    forall|j: int| 0 <= j < i ==> (#[trigger] items@[j])@ == a@[j]@,
                decreases a@.len() - i,
            {
                items.push(a[i].duplicate());
                i = i + 1;
            }
            let ghost iv = item@;
            items.push(item);
            proof {
                crate::json::lemma_view_items_len(items@);
                crate::json::lemma_view_items_len(a@);
                assert(view_items(items@) =~= view_items(a@).push(iv));
            }
            Some(Json::Array(items))
        },
        _ => None,
    };
    match grown {
        Some(g) => {
            let mut taken = Json::Null;
            std::mem::swap(&mut taken, region);
            match taken {
                Json::Object(mut ms) => {
                    set_key(&mut ms, key, g);
                    *region = Json::Object(ms);
                    Ok(())
                },
                other => {
                    *region = other;
                    Err(())
                },
            }
        },
        None => Err(()),
    }
}

/// Appends the placement `{stable_id, at, facing}` to the region's
/// `placements`.
pub fn push_placement(region: &mut Json, entity_stable_id: &str, at: [u32; 2], facing: Facing) -> (res: Result<(), String>)
    ensures
        match res {
            Ok(()) => appended(old(region)@, "placements"@, placement_value(entity_stable_id@, at, facing)) == Some(final(region)@),
            Err(m) => appended(old(region)@, "placements"@, placement_value(entity_stable_id@, at, facing)) is None
                && final(region)@ == old(region)@ && m@ == "region placements is not an array"@,
        },
{
    let members = vec![
        ("at".to_string(), point_json(at)),
        ("facing".to_string(), Json::Str(facing.name().to_string())),
        ("stable_id".to_string(), Json::Str(entity_stable_id.to_string())),
    ];
    let ghost m = members@;
    let item = members_json(members);
    assert(Seq::new(m.len(), |i: int| (m[i].0@, m[i].1@)) =~= seq![
        ("at"@, point_value(at)),
        ("facing"@, JsonView::Str(facing_name(facing))),
        ("stable_id"@, JsonView::Str(entity_stable_id@)),
    ]);
    match push_item(region, "placements", item) {
        Ok(()) => Ok(()),
        Err(()) => Err("region placements is not an array".to_string()),
    }
}

/// Appends the warp `{stable_id, at, to}` to the region's `warps`.
pub fn push_warp(
    region: &mut Json,
    warp_stable_id: &str,
    at: [u32; 2],
    to_region: &str,
    to_stable_id: &Option<String>,
    to_at: Option<[u32; 2]>,
) -> (res: Result<(), String>)
    ensures
        match res {
            Ok(()) => appended(old(region)@, "warps"@, warp_value(warp_stable_id@, at, to_region@, match to_stable_id {
                Some(s) => Some(s@),
                None => None,
            }, to_at)) == Some(final(region)@),
            Err(m) => appended(old(region)@, "warps"@, warp_value(warp_stable_id@, at, to_region@, match to_stable_id {
                Some(s) => Some(s@),
                None => None,
            }, to_at)) is None && final(region)@ == old(region)@ && m@ == "region warps is not an array"@,
        },
{
    let dest = match to_at {
        Some(p) => point_json(p),
        None => Json::Null,
    };
    let sid = match to_stable_id {
        Some(s) => Json::Str(s.clone()),
        None => Json::Null,
    };
    let to_members = vec![
        ("at".to_string(), dest),
        ("region_id".to_string(), Json::Str(to_region.to_string())),
        ("region_stable_id".to_string(), sid),
    ];
    let ghost tm = to_members@;
    let to = members_json(to_members);
    assert(Seq::new(tm.len(), |i: int| (tm[i].0@, tm[i].1@)) =~= seq![
        ("at"@, match to_at {
            Some(p) => point_value(p),
            None => JsonView::Null,
        }),
        ("region_id"@, JsonView::Str(to_region@)),
        ("region_stable_id"@, match to_stable_id {
            Some(s) => JsonView::Str(s@),
            None => JsonView::Null,
        }),
    ]);
    let ghost tv = to@;
    assert(tv == JsonView::Object(Seq::new(tm.len(), |i: int| (tm[i].0@, tm[i].1@))));
    let members = vec![
        ("at".to_string(), point_json(at)),
        ("stable_id".to_string(), Json::Str(warp_stable_id.to_string())),
        ("to".to_string(), to),
    ];
    let ghost m = members@;
    assert(m[2].1@ == tv);
    let item = members_json(members);
    proof {
        let wv = warp_value(warp_stable_id@, at, to_region@, match to_stable_id {
            Some(s) => Some(s@),
            None => None,
        }, to_at);
        let dest_v = match to_at {
            Some(p) => point_value(p),
            None => JsonView::Null,
        };
        let sid_v = match to_stable_id {
            Some(s) => JsonView::Str(s@),
            None => JsonView::Null,
        };
        let inner = seq![("at"@, dest_v), ("region_id"@, JsonView::Str(to_region@)), ("region_stable_id"@, sid_v)];
        assert(Seq::new(tm.len(), |i: int| (tm[i].0@, tm[i].1@)) =~= inner);
        let outer = seq![("at"@, point_value(at)), ("stable_id"@, JsonView::Str(warp_stable_id@)), ("to"@, JsonView::Object(inner))];
        match wv {
            JsonView::Object(ms) => {
                assert(ms.len() == 3);
                assert(ms[0] == outer[0]);
                assert(ms[1] == outer[1]);
                assert(ms[2].0 == outer[2].0);
                match ms[2].1 {
                    JsonView::Object(ims) => {
                        assert(ims.len() == 3);
                        assert(ims[0] == inner[0]);
                        assert(ims[1] == inner[1]);
                        assert(ims[2] == inner[2]);
                        assert(ims =~= inner);
                    },
                    _ => { assert(false); },
                }
                assert(ms =~= outer);
            },
            _ => { assert(false); },
        }
        assert(Seq::new(m.len(), |i: int| (m[i].0@, m[i].1@)) =~= outer);
    }
    match push_item(region, "warps", item) {
        Ok(()) => Ok(()),
        Err(()) => Err("region warps is not an array".to_string()),
    }
}

/// Where an operation that appends to a region body leaves it: the region
/// as read (`None` when the file is missing), `item` appended under `key`;
/// or the apply error.
pub open spec fn appended_region(
    region_sid: Seq<char>,
    region: Option<JsonView>,
    key: Seq<char>,
    item: JsonView,
    not_array: Seq<char>,
) -> Result<JsonView, Seq<char>> {
    match region {
        None => Err("region "@ + region_sid + " lacks "@ + region_path_text(region_sid)),
        Some(r) => match appended(r, key, item) {
            Some(r2) => Ok(r2),
            None => Err(not_array),
        },
    }
}

/// The stable id the transaction allocates next for `kind`.
pub open spec fn next_id(kind: IdKind, counter: u64) -> Seq<char> {
    render(StableId { kind, n: (counter + 1) as u64 })
}

fn lacks(region_sid: &str, path: &RelPath) -> (res: OpError)
    ensures
        res matches OpError::Apply(m) && m@ == "region "@ + region_sid@ + " lacks "@ + path@,
{
    let mut m: Vec<char> = Vec::new();
    push_str(&mut m, "region ");
    push_str(&mut m, region_sid);
    push_str(&mut m, " lacks ");
    push_str(&mut m, path.as_str());
    OpError::Apply(string_of(&m))
}

pub open spec fn human_name_view(h: Option<String>) -> Option<Seq<char>> {
    match h {
        Some(n) => Some(n@),
        None => None,
    }
}

/// The other files of a transaction are as they were.
pub open spec fn others_unchanged(before: Transaction, after: Transaction, a: Seq<char>, b: Seq<char>) -> bool {
    forall|q: Seq<char>| q != a && q != b ==> #[trigger] after.read_view(q) == before.read_view(q)
}

impl PlaceNpc {
    /// Creates the npc entity under a freshly allocated `ent_` id and
    /// appends its placement to the region.
    pub fn apply(&self, tx: &mut Transaction, plan: PlaceNpcPlan) -> (res: Result<PlaceNpcOutput, OpError>)
        requires
            old(tx).wf(),
            old(tx).counter() < u64::MAX,
        ensures
            final(tx).wf(),
            final(tx).snapshot() == old(tx).snapshot(),
            final(tx).counter() == old(tx).counter() + 1,
            ({
                let sid = next_id(IdKind::Ent, old(tx).counter());
                let rpath = region_path_text(plan.region_stable_id@);
                let npath = npc_path_text(sid);
                let outcome = appended_region(plan.region_stable_id@, old(tx).read_view(rpath), "placements"@,
                    placement_value(sid, plan.at, plan.facing), "region placements is not an array"@);
                &&& outcome is Ok ==> {
                    &&& res is Ok
                    &&& res->Ok_0.stable_id@ == sid
                    &&& res->Ok_0.path@ == npath
                    &&& final(tx).read_view(rpath) == Some(outcome->Ok_0)
                    &&& final(tx).read_view(npath) == Some(npc_body(plan.id@, sid, strings_view(plan.tags@), plan.intent@,
                        strings_view(plan.constraints@), human_name_view(plan.human_name), plan.facing))
                    &&& others_unchanged(*old(tx), *final(tx), rpath, npath)
                }
                &&& outcome is Err ==> {
                    &&& res is Err
                    &&& res->Err_0 == OpError::Apply(res->Err_0->Apply_0)
                    &&& res->Err_0->Apply_0@ == outcome->Err_0
                    &&& forall|q: Seq<char>| #[trigger] final(tx).read_view(q) == old(tx).read_view(q)
                }
            }),
    {
        let id = tx.alloc_id(IdKind::Ent);
        let sid = id.to_string();
        let rpath = crate::schema::region_path(plan.region_stable_id.as_str());
        let mut region = match tx.read(&rpath) {
            Some(r) => r,
            None => return Err(lacks(plan.region_stable_id.as_str(), &rpath)),
        };
        match push_placement(&mut region, sid.as_str(), plan.at, plan.facing) {
            Ok(()) => {},
            Err(m) => return Err(OpError::Apply(m)),
        }
        let npath = crate::schema::npc_path(sid.as_str());
        let entity = npc_file(plan.id.as_str(), sid.as_str(), &plan.tags, plan.intent.as_str(), &plan.constraints, &plan.human_name, plan.facing);
        let out_path = npath.as_str().to_string();
        proof {
            reveal_strlit("regions/");
            reveal_strlit("entities/npc/");
            assert(rpath@[0] != npath@[0]);
        }
        tx.write(npath, entity);
        tx.write(rpath, region);
        Ok(PlaceNpcOutput { stable_id: sid, path: out_path })
    }
}

impl MarkWarp {
    /// Appends the warp, under a freshly allocated `warp_` id, to the
    /// region.
    pub fn apply(&self, tx: &mut Transaction, plan: MarkWarpPlan) -> (res: Result<MarkWarpOutput, OpError>)
        requires
            old(tx).wf(),
            old(tx).counter() < u64::MAX,
        ensures
            final(tx).wf(),
            final(tx).snapshot() == old(tx).snapshot(),
            final(tx).counter() == old(tx).counter() + 1,
            ({
                let sid = next_id(IdKind::Warp, old(tx).counter());
                let rpath = region_path_text(plan.region_stable_id@);
                let outcome = appended_region(plan.region_stable_id@, old(tx).read_view(rpath), "warps"@,
                    warp_value(sid, plan.at, plan.to.region_id@, human_name_view(plan.to.region_stable_id), plan.to.at),
                    "region warps is not an array"@);
                &&& outcome is Ok ==> {
                    &&& res is Ok
                    &&& res->Ok_0.stable_id@ == sid
                    &&& final(tx).read_view(rpath) == Some(outcome->Ok_0)
                    &&& others_unchanged(*old(tx), *final(tx), rpath, rpath)
                }
                &&& outcome is Err ==> {
                    &&& res is Err
                    &&& res->Err_0 == OpError::Apply(res->Err_0->Apply_0)
                    &&& res->Err_0->Apply_0@ == outcome->Err_0
                    &&& forall|q: Seq<char>| #[trigger] final(tx).read_view(q) == old(tx).read_view(q)
                }
            }),
    {
        let id = tx.alloc_id(IdKind::Warp);
        let sid = id.to_string();
        let rpath = crate::schema::region_path(plan.region_stable_id.as_str());
        let mut region = match tx.read(&rpath) {
            Some(r) => r,
            None => return Err(lacks(plan.region_stable_id.as_str(), &rpath)),
        };
        match push_warp(&mut region, sid.as_str(), plan.at, plan.to.region_id.as_str(), &plan.to.region_stable_id, plan.to.at) {
            Ok(()) => {},
            Err(m) => return Err(OpError::Apply(m)),
        }
        tx.write(rpath, region);
        Ok(MarkWarpOutput { stable_id: sid })
    }
}

/// The terrain legend: glyph to kind.
pub open spec fn legend_value() -> JsonView {
    JsonView::Object(seq![
        ("#"@, JsonView::Str("wall"@)),
        ("-"@, JsonView::Str("path"@)),
        ("."@, JsonView::Str("grass"@)),
        (":"@, JsonView::Str("floor"@)),
        ("~"@, JsonView::Str("water"@)),
    ])
}

/// The glyph painted for a terrain kind is the one the legend written into
/// every terrain layer maps back to that kind; no two kinds share a glyph.
pub proof fn law_glyph_names_its_kind(t: Terrain, u: Terrain)
    ensures
        field_of(legend_value(), seq![terrain_glyph(t)]) == Some(JsonView::Str(crate::schema::terrain_kind(t))),
        terrain_glyph(t) == terrain_glyph(u) ==> t == u,
{
    reveal_strlit("#");
    reveal_strlit("-");
    reveal_strlit(".");
    reveal_strlit(":");
    reveal_strlit("~");
    let ms = seq![
        ("#"@, JsonView::Str("wall"@)),
        ("-"@, JsonView::Str("path"@)),
        ("."@, JsonView::Str("grass"@)),
        (":"@, JsonView::Str("floor"@)),
        ("~"@, JsonView::Str("water"@)),
    ];
    assert(legend_value() == JsonView::Object(ms));
    let g = seq![terrain_glyph(t)];
    let i: int = match t {
        Terrain::Wall => 0,
        Terrain::Path => 1,
        Terrain::Grass => 2,
        Terrain::Floor => 3,
        Terrain::Water => 4,
    };
    assert(ms[0].0 =~= seq!['#']);
    assert(ms[1].0 =~= seq!['-']);
    assert(ms[2].0 =~= seq!['.']);
    assert(ms[3].0 =~= seq![':']);
    assert(ms[4].0 =~= seq!['~']);
    assert(ms[i].0 == g);
    assert forall|j: int| 0 <= j < i implies (#[trigger] ms[j]).0 != g by {
        assert(ms[j].0[0] != g[0]);
    }
    crate::json::lemma_member_first(ms, g, i);
}

/// `height` rows of `width` copies of `g`.
pub open spec fn filled(width: u32, height: u32, g: char) -> Seq<Seq<char>> {
    Seq::new(height as nat, |y: int| Seq::new(width as nat, |x: int| g))
}

pub open spec fn rows_value(rows: Seq<Seq<char>>) -> JsonView {
    JsonView::Array(Seq::new(rows.len(), |y: int| JsonView::Str(rows[y])))
}

/// A fresh terrain layer, every tile `g`.
pub open spec fn terrain_body(width: u32, height: u32, g: char) -> JsonView {
    JsonView::Object(seq![
        ("height"@, JsonView::UInt(height as u64)),
        ("kind"@, JsonView::Str("terrain"@)),
        ("legend"@, legend_value()),
        ("rows"@, rows_value(filled(width, height, g))),
        ("width"@, JsonView::UInt(width as u64)),
    ])
}

/// A fresh collision layer with no overrides, every tile solid or not.
pub open spec fn collision_body(width: u32, height: u32, solid: bool) -> JsonView {
    JsonView::Object(seq![
        ("height"@, JsonView::UInt(height as u64)),
        ("kind"@, JsonView::Str("collision"@)),
        ("overrides"@, JsonView::Object(Seq::empty())),
        ("rows"@, rows_value(filled(width, height, crate::layers::solid_char(solid)))),
        ("width"@, JsonView::UInt(width as u64)),
    ])
}

fn text_json(s: &str) -> (res: Json)
    ensures
        res@ == JsonView::Str(s@),
{
    Json::Str(s.to_string())
}

pub(crate) fn legend_json() -> (res: Json)
    ensures
        res@ == legend_value(),
{
    let members = vec![
        ("#".to_string(), text_json("wall")),
        ("-".to_string(), text_json("path")),
        (".".to_string(), text_json("grass")),
        (":".to_string(), text_json("floor")),
        ("~".to_string(), text_json("water")),
    ];
    let ghost m = members@;
    let res = members_json(members);
    assert(Seq::new(m.len(), |i: int| (m[i].0@, m[i].1@)) =~= match legend_value() {
        JsonView::Object(ms) => ms,
        _ => Seq::empty(),
    });
    res
}

fn filled_rows(width: u32, height: u32, g: char) -> (res: Json)
    ensures
        res@ == rows_value(filled(width, height, g)),
{
    let mut row: Vec<char> = Vec::new();
    let mut x: u32 = 0;
    while x < width
        invariant
            x <= width,
            row@ == Seq::new(x as nat, |i: int| g),
        decreases width - x,
    {
        row.push(g);
        x = x + 1;
        assert(row@ =~= Seq::new(x as nat, |i: int| g));
    }
    let text = string_of(&row);
    let mut items: Vec<Json> = Vec::new();
    let mut y: u32 = 0;
    while y < height
        invariant
            y <= height,
            text@ == Seq::new(width as nat, |i: int| g),
            items@.len() == y,
            forall|j: int| 0 <= j < y ==> (#[trigger] items@[j])@ == JsonView::Str(text@),
        decreases height - y,
    {
        items.push(Json::Str(text.clone()));
        y = y + 1;
    }
    proof { crate::json::lemma_view_items_len(items@); }
    let res = Json::Array(items);
    assert(view_items(items@) =~= Seq::new(height as nat, |j: int| JsonView::Str(filled(width, height, g)[j])));
    res
}

/// `layers/terrain.json` of a `width × height` region filled with `fill`.
pub fn terrain_json(width: u32, height: u32, fill: Terrain) -> (res: Json)
    ensures
        res@ == terrain_body(width, height, terrain_glyph(fill)),
{
    let members = vec![
        ("height".to_string(), Json::UInt(height as u64)),
        ("kind".to_string(), text_json("terrain")),
        ("legend".to_string(), legend_json()),
        ("rows".to_string(), filled_rows(width, height, fill.glyph())),
        ("width".to_string(), Json::UInt(width as u64)),
    ];
    let ghost m = members@;
    let res = members_json(members);
    assert(Seq::new(m.len(), |i: int| (m[i].0@, m[i].1@)) =~= match terrain_body(width, height, terrain_glyph(fill)) {
        JsonView::Object(ms) => ms,
        _ => Seq::empty(),
    });
    res
}

/// `layers/collision.json` derived from a terrain filled with `fill`, with
/// no overrides.
pub fn collision_json(width: u32, height: u32, fill: Terrain) -> (res: Json)
    ensures
        res@ == collision_body(width, height, is_solid_glyph(terrain_glyph(fill))),
{
    let solid = crate::schema::glyph_solid(fill.glyph());
    let cell = if solid { '#' } else { '.' };
    let members = vec![
        ("height".to_string(), Json::UInt(height as u64)),
        ("kind".to_string(), text_json("collision")),
        ("overrides".to_string(), Json::Object(Vec::new())),
        ("rows".to_string(), filled_rows(width, height, cell)),
        ("width".to_string(), Json::UInt(width as u64)),
    ];
    assert(view_members(Seq::<(String, Json)>::empty()) =~= Seq::<(Seq<char>, JsonView)>::empty());
    let ghost m = members@;
    let res = members_json(members);
    assert(Seq::new(m.len(), |i: int| (m[i].0@, m[i].1@)) =~= match collision_body(width, height, is_solid_glyph(terrain_glyph(fill))) {
        JsonView::Object(ms) => ms,
        _ => Seq::empty(),
    });
    res
}

/// The three files creating a region writes: its body, its terrain filled
/// with `fill`, and the collision layer derived from that terrain.
pub fn region_writes(stable_id: &str, plan: &CreateRegionPlan, fill: Terrain) -> (res: Vec<(RelPath, Json)>)
    ensures
        res@.len() == 3,
        res@[0].0@ == region_path_text(stable_id@),
        res@[0].1@ == region_body(plan.id@, stable_id@, plan.width, plan.height, plan.spawn),
        res@[1].0@ == crate::schema::terrain_path_text(stable_id@),
        res@[1].1@ == terrain_body(plan.width, plan.height, terrain_glyph(fill)),
        res@[2].0@ == crate::schema::collision_path_text(stable_id@),
        res@[2].1@ == collision_body(plan.width, plan.height, is_solid_glyph(terrain_glyph(fill))),
{
    vec![
        (crate::schema::region_path(stable_id), region_file(plan.id.as_str(), stable_id, plan.width, plan.height, plan.spawn)),
        (crate::schema::terrain_path(stable_id), terrain_json(plan.width, plan.height, fill)),
        (crate::schema::collision_path(stable_id), collision_json(plan.width, plan.height, fill)),
    ]
}

impl CreateRegion {
    /// Allocates a `region_` id and writes the region's three files.
    pub fn apply(&self, tx: &mut Transaction, plan: CreateRegionPlan) -> (res: Result<CreateRegionOutput, OpError>)
        requires
            old(tx).wf(),
            old(tx).counter() < u64::MAX,
        ensures
            final(tx).wf(),
            final(tx).snapshot() == old(tx).snapshot(),
            final(tx).counter() == old(tx).counter() + 1,
            ({
                let sid = next_id(IdKind::Region, old(tx).counter());
                let rpath = region_path_text(sid);
                let tpath = crate::schema::terrain_path_text(sid);
                let cpath = crate::schema::collision_path_text(sid);
                match terrain_of_kind(plan.fill@) {
                    Some(fill) => {
                        &&& res is Ok
                        &&& res->Ok_0.stable_id@ == sid
                        &&& res->Ok_0.path@ == rpath
                        &&& final(tx).read_view(rpath) == Some(region_body(plan.id@, sid, plan.width, plan.height, plan.spawn))
                        &&& final(tx).read_view(tpath) == Some(terrain_body(plan.width, plan.height, terrain_glyph(fill)))
                        &&& final(tx).read_view(cpath) == Some(collision_body(plan.width, plan.height, is_solid_glyph(terrain_glyph(fill))))
                        &&& forall|q: Seq<char>| q != rpath && q != tpath && q != cpath ==> #[trigger] final(tx).read_view(q) == old(tx).read_view(q)
                    },
                    None => {
                        &&& res is Err
                        &&& res->Err_0 == OpError::Apply(res->Err_0->Apply_0)
                        &&& res->Err_0->Apply_0@ == "plan carries unknown terrain "@ + crate::ops::debug_text(plan.fill@)
                        &&& forall|q: Seq<char>| #[trigger] final(tx).read_view(q) == old(tx).read_view(q)
                    },
                }
            }),
    {
        let id = tx.alloc_id(IdKind::Region);
        let sid = id.to_string();
        let fill = match Terrain::from_kind(plan.fill.as_str()) {
            Some(t) => t,
            None => {
                let mut m: Vec<char> = Vec::new();
                push_str(&mut m, "plan carries unknown terrain ");
                let d = crate::ops::debug_str(plan.fill.as_str());
                push_str(&mut m, d.as_str());
                return Err(OpError::Apply(string_of(&m)));
            },
        };
        let writes = region_writes(sid.as_str(), &plan, fill);
        proof {
            reveal_strlit("regions/");
            reveal_strlit("/region.json");
            reveal_strlit("/layers/terrain.json");
            reveal_strlit("/layers/collision.json");
            assert(writes@[0].0@.len() != writes@[1].0@.len());
            assert(writes@[0].0@.len() != writes@[2].0@.len());
            assert(writes@[1].0@.len() != writes@[2].0@.len());
        }
        let mut rest = writes;
        let ghost w = rest@;
        let (p2, v2) = rest.pop().unwrap();
        let (p1, v1) = rest.pop().unwrap();
        let (p0, v0) = rest.pop().unwrap();
        tx.write(p0, v0);
        tx.write(p1, v1);
        tx.write(p2, v2);
        Ok(CreateRegionOutput { path: crate::schema::region_path(sid.as_str()).as_str().to_string(), stable_id: sid })
    }
}

pub const REGION_DUPLICATE_ID: &'static str = "rpg.region.duplicate_id";
pub const ENTITY_DUPLICATE_ID: &'static str = "rpg.entity.duplicate_id";
pub const PLACEMENT_ON_SOLID: &'static str = "rpg.placement.on_solid_tile";
pub const WARP_DANGLING_TARGET: &'static str = "rpg.warp.dangling_target";
pub const WARP_DUPLICATE_TILE: &'static str = "rpg.warp.duplicate_tile";

/// A finding as values, its id computed by the shared formula.
pub open spec fn finding_of(
    code: Seq<char>,
    severity: Severity,
    blocking: bool,
    stable_id: Option<Seq<char>>,
    path: Option<Seq<char>>,
    evidence: JsonView,
    fix_count: nat,
) -> FindingView {
    FindingView {
        finding_id: finding_id_text(code, stable_id, path, evidence),
        code,
        severity,
        stable_id,
        path,
        evidence,
        fix_count,
        blocking,
    }
}

/// Builds a finding whose id is the shared deterministic formula over its
/// code, location and evidence.
pub fn make_finding(
    code: &str,
    severity: Severity,
    blocking: bool,
    stable_id: Option<String>,
    path: Option<RelPath>,
    evidence: Json,
    suggested_fixes: Vec<PlanRequest>,
) -> (res: Finding)
    ensures
        finding_view(res) == finding_of(code@, severity, blocking, match stable_id {
            Some(s) => Some(s@),
            None => None,
        }, match path {
            Some(p) => Some(p@),
            None => None,
        }, evidence@, suggested_fixes@.len()),
        res.suggested_fixes@ == suggested_fixes@,
{
    let location = Location { stable_id, path };
    let id = finding_id(code, &location, &evidence);
    Finding { finding_id: id, code: code.to_string(), severity, location, evidence, suggested_fixes, blocking }
}

/// A region file carrying `handle`: the stable id of the first, in path
/// order.
pub open spec fn found_region(fv: Seq<(Seq<char>, JsonView)>, handle: Seq<char>) -> Option<Seq<char>> {
    match first_where(fv, region_named(handle)) {
        Some(i) => Some(text_field(fv[i].1, "stable_id"@)),
        None => None,
    }
}

/// An entity file (`entities/…​.json`) carrying `handle` and a string stable
/// id.
pub open spec fn entity_named(handle: Seq<char>) -> spec_fn((Seq<char>, JsonView)) -> bool {
    |f: (Seq<char>, JsonView)| is_entity_named(f.0, f.1, handle)
}

#[verifier::opaque]
pub open spec fn is_entity_named(path: Seq<char>, v: JsonView, handle: Seq<char>) -> bool {
    &&& "entities/"@.is_prefix_of(path)
    &&& ".json"@.is_suffix_of(path)
    &&& field_of(v, "id"@) == Some(JsonView::Str(handle))
    &&& field_of(v, "stable_id"@) matches Some(JsonView::Str(_))
}

/// The stable id of the first entity carrying `handle`.
pub open spec fn found_entity(fv: Seq<(Seq<char>, JsonView)>, handle: Seq<char>) -> Option<Seq<char>> {
    match first_where(fv, entity_named(handle)) {
        Some(i) => Some(text_field(fv[i].1, "stable_id"@)),
        None => None,
    }
}

fn is_entity_named_exec(path: &RelPath, v: &Json, handle: &str) -> (res: bool)
    ensures
        res == (entity_named(handle@))((path@, v@)),
{
    let p = chars_of(path.as_str());
    let a = crate::text::has_prefix(&p, "entities/");
    let b = crate::text::has_suffix(&p, ".json");
    let c = crate::walk::str_field_is(v, "id", handle);
    let d = crate::walk::has_str_field(v, "stable_id");
    proof { reveal(is_entity_named); }
    a && b && c && d
}

fn stable_id_of(v: &Json) -> (res: String)
    ensures
        res@ == text_field(v@, "stable_id"@),
{
    match v.get("stable_id") {
        Some(Json::Str(s)) => s.clone(),
        _ => String::new(),
    }
}

/// The stable id of the region carrying `handle`.
pub fn find_region(files: &Vec<(RelPath, Json)>, handle: &str) -> (res: Option<String>)
    ensures
        match res {
            Some(s) => found_region(files_view(files@), handle@) == Some(s@),
            None => found_region(files_view(files@), handle@) is None,
        },
{
    let ghost fv = files_view(files@);
    let mut i: usize = 0;
    while i < files.len()
        invariant
            i <= files@.len(),
            fv == files_view(files@),
            forall|j: int| 0 <= j < i ==> !(region_named(handle@))(#[trigger] fv[j]),
        decreases files@.len() - i,
    {
        assert(fv[i as int] == (files@[i as int].0@, files@[i as int].1@));
        if crate::walk::is_region_named_exec(&files[i].0, &files[i].1, handle) {
            proof { crate::regions::lemma_first_where_at(fv, region_named(handle@), i as int); }
            return Some(stable_id_of(&files[i].1));
        }
        i = i + 1;
    }
    proof {
        crate::regions::lemma_first_where(fv, region_named(handle@));
        if first_where(fv, region_named(handle@)) is Some {
            let k = first_where(fv, region_named(handle@)).unwrap();
            assert(!(region_named(handle@))(fv[k]));
        }
    }
    None
}

/// The stable id of the entity carrying `handle`.
pub fn find_entity(files: &Vec<(RelPath, Json)>, handle: &str) -> (res: Option<String>)
    ensures
        match res {
            Some(s) => found_entity(files_view(files@), handle@) == Some(s@),
            None => found_entity(files_view(files@), handle@) is None,
        },
{
    let ghost fv = files_view(files@);
    let mut i: usize = 0;
    while i < files.len()
        invariant
            i <= files@.len(),
            fv == files_view(files@),
            forall|j: int| 0 <= j < i ==> !(entity_named(handle@))(#[trigger] fv[j]),
        decreases files@.len() - i,
    {
        assert(fv[i as int] == (files@[i as int].0@, files@[i as int].1@));
        if is_entity_named_exec(&files[i].0, &files[i].1, handle) {
            proof { crate::regions::lemma_first_where_at(fv, entity_named(handle@), i as int); }
            return Some(stable_id_of(&files[i].1));
        }
        i = i + 1;
    }
    proof {
        crate::regions::lemma_first_where(fv, entity_named(handle@));
        if first_where(fv, entity_named(handle@)) is Some {
            let k = first_where(fv, entity_named(handle@)).unwrap();
            assert(!(entity_named(handle@))(fv[k]));
        }
    }
    None
}

/// The finding that refuses a second region with the same handle.
pub open spec fn duplicate_region_finding(requested: Seq<char>, existing: Seq<char>) -> FindingView {
    finding_of(REGION_DUPLICATE_ID@, Severity::Error, true, Some(existing), Some(region_path_text(existing)),
        JsonView::Object(seq![("existing_stable_id"@, JsonView::Str(existing)), ("requested_id"@, JsonView::Str(requested))]), 0)
}

fn duplicate_evidence(existing: &str, requested: &str) -> (res: Json)
    ensures
        res@ == JsonView::Object(seq![("existing_stable_id"@, JsonView::Str(existing@)), ("requested_id"@, JsonView::Str(requested@))]),
{
    let members = vec![
        ("existing_stable_id".to_string(), text_json(existing)),
        ("requested_id".to_string(), text_json(requested)),
    ];
    let ghost m = members@;
    let res = members_json(members);
    assert(Seq::new(m.len(), |i: int| (m[i].0@, m[i].1@)) =~= seq![("existing_stable_id"@, JsonView::Str(existing@)), ("requested_id"@, JsonView::Str(requested@))]);
    res
}

impl CreateRegion {
    /// A region whose handle is already taken is refused with a blocking
    /// finding naming the existing region.
    pub fn validate(&self, files: &Vec<(RelPath, Json)>, plan: &CreateRegionPlan) -> (res: Vec<Finding>)
        ensures
            match found_region(files_view(files@), plan.id@) {
                Some(existing) => findings_view(res@) == seq![duplicate_region_finding(plan.id@, existing)],
                None => res@.len() == 0,
            },
    {
        let mut out: Vec<Finding> = Vec::new();
        match find_region(files, plan.id.as_str()) {
            Some(existing) => {
                let evidence = duplicate_evidence(existing.as_str(), plan.id.as_str());
                let path = crate::schema::region_path(existing.as_str());
                let f = make_finding(REGION_DUPLICATE_ID, Severity::Error, true, Some(existing), Some(path), evidence, Vec::new());
                out.push(f);
                assert(findings_view(out@) =~= seq![finding_view(f)]);
            },
            None => {},
        }
        out
    }
}

/// Whether the collision layer of region `region_sid` marks `at` solid.
pub open spec fn marked_solid(fv: Seq<(Seq<char>, JsonView)>, region_sid: Seq<char>, at: [u32; 2]) -> bool {
    let rows = crate::regions::collision_rows(crate::regions::file_at(fv, crate::schema::collision_path_text(region_sid)));
    &&& at[1] < rows.len()
    &&& at[0] < crate::regions::row_chars(rows[at[1] as int]).len()
    &&& crate::regions::row_chars(rows[at[1] as int])[at[0] as int] == '#'
}

/// The blocking finding refusing a second entity with the same handle.
pub open spec fn duplicate_entity_finding(requested: Seq<char>, existing: Seq<char>) -> FindingView {
    finding_of(ENTITY_DUPLICATE_ID@, Severity::Error, true, Some(existing), None,
        JsonView::Object(seq![("existing_stable_id"@, JsonView::Str(existing)), ("requested_id"@, JsonView::Str(requested))]), 0)
}

/// The advisory finding for a placement on a tile the collision layer marks
/// solid; its fix clears that tile.
pub open spec fn placement_on_solid_finding(region_sid: Seq<char>, id: Seq<char>, at: [u32; 2]) -> FindingView {
    finding_of(PLACEMENT_ON_SOLID@, Severity::Warning, false, Some(region_sid), Some(crate::schema::collision_path_text(region_sid)),
        JsonView::Object(seq![("at"@, point_value(at)), ("id"@, JsonView::Str(id))]), 1)
}

/// What placing an npc is warned or refused for, before ordering.
pub open spec fn place_npc_findings(fv: Seq<(Seq<char>, JsonView)>, plan: PlaceNpcPlan) -> Seq<FindingView> {
    (match found_entity(fv, plan.id@) {
        Some(existing) => seq![duplicate_entity_finding(plan.id@, existing)],
        None => Seq::empty(),
    }) + (if marked_solid(fv, plan.region_stable_id@, plan.at) {
        seq![placement_on_solid_finding(plan.region_stable_id@, plan.id@, plan.at)]
    } else {
        Seq::empty()
    })
}

fn at_id_evidence(at: [u32; 2], id: &str) -> (res: Json)
    ensures
        res@ == JsonView::Object(seq![("at"@, point_value(at)), ("id"@, JsonView::Str(id@))]),
{
    let members = vec![("at".to_string(), point_json(at)), ("id".to_string(), text_json(id))];
    let ghost m = members@;
    let res = members_json(members);
    assert(Seq::new(m.len(), |i: int| (m[i].0@, m[i].1@)) =~= seq![("at"@, point_value(at)), ("id"@, JsonView::Str(id@))]);
    res
}

impl PlaceNpc {
    /// A taken entity handle is refused (blocking); a placement on a tile
    /// marked solid is warned, with a fix clearing it. In finding-id order.
    pub fn validate(&self, files: &Vec<(RelPath, Json)>, plan: &PlaceNpcPlan) -> (res: Vec<Finding>)
        ensures
            crate::integrity::sorted_by_id(findings_view(res@)),
            findings_view(res@).to_multiset() == place_npc_findings(files_view(files@), *plan).to_multiset(),
            forall|i: int| 0 <= i < res@.len() && (#[trigger] res@[i]).code@ == PLACEMENT_ON_SOLID@
                ==> crate::corridor::requests_view(res@[i].suggested_fixes@)
                    == seq![crate::corridor::clear_fix(plan.region@, (plan.at[0], plan.at[1], 1, 1))],
    {
        let ghost fv = files_view(files@);
        let mut out: Vec<Finding> = Vec::new();
        match find_entity(files, plan.id.as_str()) {
            Some(existing) => {
                let evidence = duplicate_evidence(existing.as_str(), plan.id.as_str());
                let f = make_finding(ENTITY_DUPLICATE_ID, Severity::Error, true, Some(existing), None, evidence, Vec::new());
                out.push(f);
            },
            None => {},
        }
        let ghost first = findings_view(out@);
        assert(first =~= match found_entity(fv, plan.id@) {
            Some(existing) => seq![duplicate_entity_finding(plan.id@, existing)],
            None => Seq::empty(),
        });
        let rows = crate::regions::collision_rows_of(files, plan.region_stable_id.as_str());
        proof { crate::json::lemma_view_items_len(rows@); }
        let y = plan.at[1] as usize;
        let x = plan.at[0] as usize;
        let solid = if y < rows.len() {
            match &rows[y] {
                Json::Str(r) => {
                    let rc = chars_of(r.as_str());
                    x < rc.len() && rc[x] == '#'
                },
                _ => false,
            }
        } else {
            false
        };
        assert(solid == marked_solid(fv, plan.region_stable_id@, plan.at));
        if solid {
            let fix = crate::corridor::collision_fix(plan.region.as_str(), (plan.at[0], plan.at[1]), 1, 1);
            let fixes = vec![fix];
            assert(crate::corridor::requests_view(fixes@) =~= seq![crate::corridor::clear_fix(plan.region@, (plan.at[0], plan.at[1], 1, 1))]);
            let path = crate::schema::collision_path(plan.region_stable_id.as_str());
            let f = make_finding(PLACEMENT_ON_SOLID, Severity::Warning, false, Some(plan.region_stable_id.clone()), Some(path),
                at_id_evidence(plan.at, plan.id.as_str()), fixes);
            let ghost before = out@;
            out.push(f);
            assert(findings_view(out@) =~= findings_view(before).push(finding_view(f)));
        }
        assert(findings_view(out@) =~= place_npc_findings(fv, *plan));
        proof {
            reveal_strlit("rpg.entity.duplicate_id");
            reveal_strlit("rpg.placement.on_solid_tile");
            assert(ENTITY_DUPLICATE_ID@[4] != PLACEMENT_ON_SOLID@[4]);
        }
        let ghost unsorted = out@;
        let res = crate::walk::ordered(out);
        proof {
            assert forall|i: int| 0 <= i < res@.len() && (#[trigger] res@[i]).code@ == PLACEMENT_ON_SOLID@
                implies crate::corridor::requests_view(res@[i].suggested_fixes@)
                    == seq![crate::corridor::clear_fix(plan.region@, (plan.at[0], plan.at[1], 1, 1))] by {
                vstd::seq_lib::to_multiset_contains(res@, res@[i]);
                vstd::seq_lib::to_multiset_contains(unsorted, res@[i]);
                assert(res@.contains(res@[i]));
                let j = choose|j: int| 0 <= j < unsorted.len() && unsorted[j] == res@[i];
                assert(finding_view(unsorted[j]) == findings_view(unsorted)[j]);
            }
        }
        res
    }
}

pub open spec fn text_of(o: Option<JsonView>) -> Option<Seq<char>> {
    match o {
        Some(JsonView::Str(s)) => Some(s),
        _ => None,
    }
}

pub open spec fn value_or_null(o: Option<JsonView>) -> JsonView {
    match o {
        Some(x) => x,
        None => JsonView::Null,
    }
}

/// The blocking finding for an existing warp `w` already on tile `at`.
pub open spec fn duplicate_tile_finding(rpath: Seq<char>, w: JsonView, at: [u32; 2]) -> FindingView {
    finding_of(WARP_DUPLICATE_TILE@, Severity::Error, true, text_of(field_of(w, "stable_id"@)), Some(rpath),
        JsonView::Object(seq![("at"@, point_value(at)), ("existing_warp"@, value_or_null(field_of(w, "stable_id"@)))]), 0)
}

/// A finding for each existing warp on tile `at`, in order.
#[verifier::opaque]
pub open spec fn duplicate_tiles(rpath: Seq<char>, ws: Seq<JsonView>, at: [u32; 2]) -> Seq<FindingView>
    decreases ws.len(),
{
    if ws.len() == 0 {
        Seq::empty()
    } else {
        duplicate_tiles(rpath, ws.drop_last(), at) + if crate::regions::point_of(field_of(ws.last(), "at"@)) == Some((at[0], at[1])) {
            seq![duplicate_tile_finding(rpath, ws.last(), at)]
        } else {
            Seq::empty()
        }
    }
}

/// The dimensions proposed for an unbuilt destination: the source
/// region's, or 16 × 16 when its body is missing.
pub open spec fn proposed_size(region: Option<JsonView>) -> (u32, u32) {
    match region {
        Some(r) => (dimension(r, "width"@), dimension(r, "height"@)),
        None => (16, 16),
    }
}

/// The fix for a warp to an unbuilt region: create it.
pub open spec fn create_destination_fix(handle: Seq<char>, size: (u32, u32)) -> (Seq<char>, u32, JsonView, Seq<char>) {
    ("rpg.create_region"@, 1u32, JsonView::Object(seq![
        ("height"@, JsonView::UInt(size.1 as u64)),
        ("id"@, JsonView::Str(handle)),
        ("width"@, JsonView::UInt(size.0 as u64)),
    ]), OWNER_MODULE@)
}

pub open spec fn dangling_warp_finding(region_sid: Seq<char>, at: [u32; 2], target: Seq<char>) -> FindingView {
    finding_of(WARP_DANGLING_TARGET@, Severity::Warning, false, Some(region_sid), Some(region_path_text(region_sid)),
        JsonView::Object(seq![("at"@, point_value(at)), ("target_region_id"@, JsonView::Str(target))]), 1)
}

/// What marking a warp is warned or refused for, before ordering.
#[verifier::opaque]
pub open spec fn mark_warp_findings(fv: Seq<(Seq<char>, JsonView)>, plan: MarkWarpPlan) -> Seq<FindingView> {
    let rpath = region_path_text(plan.region_stable_id@);
    (match crate::regions::file_at(fv, rpath) {
        Some(r) => duplicate_tiles(rpath, crate::regions::array_field(r, "warps"@), plan.at),
        None => Seq::empty(),
    }) + if plan.to.region_stable_id is None {
        seq![dangling_warp_finding(plan.region_stable_id@, plan.at, plan.to.region_id@)]
    } else {
        Seq::empty()
    }
}

fn duplicate_tile(rpath: &RelPath, w: &Json, at: [u32; 2]) -> (res: Finding)
    ensures
        finding_view(res) == duplicate_tile_finding(rpath@, w@, at),
{
    let (sid, existing) = match w.get("stable_id") {
        Some(v) => (match v {
            Json::Str(s) => Some(s.clone()),
            _ => None,
        }, v.duplicate()),
        None => (None, Json::Null),
    };
    let members = vec![("at".to_string(), point_json(at)), ("existing_warp".to_string(), existing)];
    let ghost m = members@;
    let evidence = members_json(members);
    assert(Seq::new(m.len(), |i: int| (m[i].0@, m[i].1@)) =~= seq![("at"@, point_value(at)), ("existing_warp"@, value_or_null(field_of(w@, "stable_id"@)))]);
    make_finding(WARP_DUPLICATE_TILE, Severity::Error, true, sid, Some(rpath.duplicate()), evidence, Vec::new())
}

fn dangling_fix(handle: &str, size: (u32, u32)) -> (res: PlanRequest)
    ensures
        crate::corridor::request_view(res) == create_destination_fix(handle@, size),
{
    let members = vec![
        ("height".to_string(), Json::UInt(size.1 as u64)),
        ("id".to_string(), text_json(handle)),
        ("width".to_string(), Json::UInt(size.0 as u64)),
    ];
    let ghost m = members@;
    let input = members_json(members);
    assert(Seq::new(m.len(), |i: int| (m[i].0@, m[i].1@)) =~= seq![
        ("height"@, JsonView::UInt(size.1 as u64)),
        ("id"@, JsonView::Str(handle@)),
        ("width"@, JsonView::UInt(size.0 as u64)),
    ]);
    crate::ops::fix_request("rpg.create_region", input)
}

/// The value stored at `path`.
pub(crate) fn file_value<'a>(files: &'a Vec<(RelPath, Json)>, path: &RelPath) -> (res: Option<&'a Json>)
    ensures
        match res {
            Some(v) => crate::regions::file_at(files_view(files@), path@) == Some(v@),
            None => crate::regions::file_at(files_view(files@), path@) is None,
        },
{
    proof { crate::regions::lemma_first_where(files_view(files@), crate::regions::at_path(path@)); }
    match crate::regions::find_file(files, path.as_str()) {
        Some(k) => {
            assert(files_view(files@)[k as int] == (files@[k as int].0@, files@[k as int].1@));
            Some(&files[k].1)
        },
        None => None,
    }
}

/// A finding for each warp of `ws` on tile `at`.
#[verifier::rlimit(30)]
fn warps_on_tile(rpath: &RelPath, ws: &[Json], at: [u32; 2]) -> (res: Vec<Finding>)
    ensures
        findings_view(res@) == duplicate_tiles(rpath@, view_items(ws@), at),
        forall|q: int| 0 <= q < res@.len() ==> (#[trigger] res@[q]).code@ == WARP_DUPLICATE_TILE@,
{
    let ghost items = view_items(ws@);
    proof {
        crate::json::lemma_view_items_len(ws@);
        reveal(duplicate_tiles);
    }
    let mut out: Vec<Finding> = Vec::new();
    let mut i: usize = 0;
    assert(items.take(0) =~= Seq::<JsonView>::empty());
    assert(findings_view(out@) =~= Seq::<FindingView>::empty());
    while i < ws.len()
        invariant
            i <= ws@.len(),
            items == view_items(ws@),
            items.len() == ws@.len(),
            forall|q: int| 0 <= q < ws@.len() ==> #[trigger] items[q] == ws@[q]@,
            findings_view(out@) == duplicate_tiles(rpath@, items.take(i as int), at),
            forall|q: int| 0 <= q < out@.len() ==> (#[trigger] out@[q]).code@ == WARP_DUPLICATE_TILE@,
        decreases ws@.len() - i,
    {
        let w = &ws[i];
        proof { reveal(duplicate_tiles); }
        assert(items.take(i + 1).drop_last() =~= items.take(i as int));
        assert(items.take(i + 1).last() == w@);
        let same = match crate::regions::point(w.get("at")) {
            Some(p) => p.0 == at[0] && p.1 == at[1],
            None => false,
        };
        if same {
            let f = duplicate_tile(rpath, w, at);
            let ghost before = out@;
            out.push(f);
            assert(findings_view(out@) =~= findings_view(before).push(finding_view(f)));
        }
        i = i + 1;
    }
    assert(items.take(ws@.len() as int) =~= items);
    out
}

/// The duplicate-tile findings of region file `rpath` for tile `at`, and
/// the size proposed for a missing destination.
#[verifier::rlimit(30)]
fn tile_findings(files: &Vec<(RelPath, Json)>, rpath: &RelPath, at: [u32; 2]) -> (res: (Vec<Finding>, (u32, u32)))
    ensures
        findings_view(res.0@) == (match crate::regions::file_at(files_view(files@), rpath@) {
            Some(r) => duplicate_tiles(rpath@, crate::regions::array_field(r, "warps"@), at),
            None => Seq::empty(),
        }),
        forall|q: int| 0 <= q < res.0@.len() ==> (#[trigger] res.0@[q]).code@ == WARP_DUPLICATE_TILE@,
        res.1 == proposed_size(crate::regions::file_at(files_view(files@), rpath@)),
{
    match file_value(files, rpath) {
        Some(r) => {
            let size = (crate::regions::dimension_of(r, "width"), crate::regions::dimension_of(r, "height"));
            let ws = crate::regions::array_of(r, "warps");
            (warps_on_tile(rpath, ws, at), size)
        },
        None => {
            let out: Vec<Finding> = Vec::new();
            assert(findings_view(out@) =~= Seq::<FindingView>::empty());
            (out, (16, 16))
        },
    }
}

fn dangling_warp(plan: &MarkWarpPlan, rpath: &RelPath, size: (u32, u32)) -> (res: Finding)
    requires
        rpath@ == region_path_text(plan.region_stable_id@),
    ensures
        finding_view(res) == dangling_warp_finding(plan.region_stable_id@, plan.at, plan.to.region_id@),
        res.code@ == WARP_DANGLING_TARGET@,
        crate::corridor::requests_view(res.suggested_fixes@) == seq![create_destination_fix(plan.to.region_id@, size)],
{
    let members = vec![("at".to_string(), point_json(plan.at)), ("target_region_id".to_string(), text_json(plan.to.region_id.as_str()))];
    let ghost m = members@;
    let evidence = members_json(members);
    assert(Seq::new(m.len(), |i: int| (m[i].0@, m[i].1@)) =~= seq![("at"@, point_value(plan.at)), ("target_region_id"@, JsonView::Str(plan.to.region_id@))]);
    let fixes = vec![dangling_fix(plan.to.region_id.as_str(), size)];
    assert(crate::corridor::requests_view(fixes@) =~= seq![create_destination_fix(plan.to.region_id@, size)]);
    make_finding(WARP_DANGLING_TARGET, Severity::Warning, false, Some(plan.region_stable_id.clone()), Some(rpath.duplicate()), evidence, fixes)
}

proof fn lemma_warp_codes_differ()
    ensures
        WARP_DUPLICATE_TILE@ != WARP_DANGLING_TARGET@,
{
    reveal_strlit("rpg.warp.duplicate_tile");
    reveal_strlit("rpg.warp.dangling_target");
    assert(WARP_DUPLICATE_TILE@[10] != WARP_DANGLING_TARGET@[10]);
}

/// The findings of marking a warp, before ordering.
#[verifier::rlimit(30)]
fn warp_findings(files: &Vec<(RelPath, Json)>, plan: &MarkWarpPlan) -> (res: Vec<Finding>)
    ensures
        findings_view(res@) == mark_warp_findings(files_view(files@), *plan),
        forall|i: int| 0 <= i < res@.len() && (#[trigger] res@[i]).code@ == WARP_DANGLING_TARGET@
            ==> crate::corridor::requests_view(res@[i].suggested_fixes@) == seq![create_destination_fix(plan.to.region_id@,
                proposed_size(crate::regions::file_at(files_view(files@), region_path_text(plan.region_stable_id@))))],
{
    let ghost fv = files_view(files@);
    let rpath = crate::schema::region_path(plan.region_stable_id.as_str());
    let ghost region = crate::regions::file_at(fv, rpath@);
    let (mut out, size) = tile_findings(files, &rpath, plan.at);
    assert(size == proposed_size(region));
    if plan.to.region_stable_id.is_none() {
        let f = dangling_warp(plan, &rpath, size);
        let ghost before = out@;
        out.push(f);
        assert(findings_view(out@) =~= findings_view(before).push(finding_view(f)));
    }
    assert(findings_view(out@) =~= mark_warp_findings(fv, *plan)) by {
        reveal(mark_warp_findings);
    }
    proof { lemma_warp_codes_differ(); }
    out
}

impl MarkWarp {
    /// A warp already on the tile is refused (blocking, one finding per
    /// such warp); a destination that does not exist yet is warned, with a
    /// fix creating it at the source region's size. In finding-id order.
    pub fn validate(&self, files: &Vec<(RelPath, Json)>, plan: &MarkWarpPlan) -> (res: Vec<Finding>)
        ensures
            crate::integrity::sorted_by_id(findings_view(res@)),
            findings_view(res@).to_multiset() == mark_warp_findings(files_view(files@), *plan).to_multiset(),
            forall|i: int| 0 <= i < res@.len() && (#[trigger] res@[i]).code@ == WARP_DANGLING_TARGET@
                ==> crate::corridor::requests_view(res@[i].suggested_fixes@) == seq![create_destination_fix(plan.to.region_id@,
                    proposed_size(crate::regions::file_at(files_view(files@), region_path_text(plan.region_stable_id@))))],
    {
        let out = warp_findings(files, plan);
        let ghost unsorted = out@;
        let res = crate::walk::ordered(out);
        proof {
            assert forall|i: int| 0 <= i < res@.len() && (#[trigger] res@[i]).code@ == WARP_DANGLING_TARGET@
                implies crate::corridor::requests_view(res@[i].suggested_fixes@) == seq![create_destination_fix(plan.to.region_id@,
                    proposed_size(crate::regions::file_at(files_view(files@), region_path_text(plan.region_stable_id@))))] by {
                vstd::seq_lib::to_multiset_contains(res@, res@[i]);
                vstd::seq_lib::to_multiset_contains(unsorted, res@[i]);
                assert(res@.contains(res@[i]));
                let j = choose|j: int| 0 <= j < unsorted.len() && unsorted[j] == res@[i];
            }
        }
        res
    }
}

/// A region file as the operations index it: handle, stable id, width,
/// height (see [`found_region`]: the same files, in the same order).
pub open spec fn index_entry(path: Seq<char>, v: JsonView) -> Option<(Seq<char>, Seq<char>, u32, u32)> {
    if "regions/"@.is_prefix_of(path) && "/region.json"@.is_suffix_of(path) && field_of(v, "kind"@) == Some(JsonView::Str("region"@)) {
        match field_of(v, "id"@) {
            Some(JsonView::Str(h)) => match field_of(v, "stable_id"@) {
                Some(JsonView::Str(s)) => Some((h, s, dimension(v, "width"@), dimension(v, "height"@))),
                _ => None,
            },
            _ => None,
        }
    } else {
        None
    }
}

/// The region index of the first `n` files.
pub open spec fn index_of(fv: Seq<(Seq<char>, JsonView)>, n: int) -> Seq<(Seq<char>, Seq<char>, u32, u32)>
    decreases n,
{
    if n <= 0 {
        Seq::empty()
    } else {
        match index_entry(fv[n - 1].0, fv[n - 1].1) {
            Some(e) => index_of(fv, n - 1).push(e),
            None => index_of(fv, n - 1),
        }
    }
}

pub open spec fn entries_view(rs: Seq<RegionEntry>) -> Seq<(Seq<char>, Seq<char>, u32, u32)> {
    Seq::new(rs.len(), |i: int| (rs[i].handle@, rs[i].stable_id@, rs[i].width, rs[i].height))
}

fn str_field(v: &Json, key: &str) -> (res: Option<String>)
    ensures
        match res {
            Some(s) => text_of(field_of(v@, key@)) == Some(s@),
            None => text_of(field_of(v@, key@)) is None,
        },
{
    match v.get(key) {
        Some(Json::Str(s)) => Some(s.clone()),
        _ => None,
    }
}

fn index_entry_of(path: &RelPath, v: &Json) -> (res: Option<RegionEntry>)
    ensures
        match res {
            Some(e) => index_entry(path@, v@) == Some((e.handle@, e.stable_id@, e.width, e.height)),
            None => index_entry(path@, v@) is None,
        },
{
    let p = chars_of(path.as_str());
    let a = crate::text::has_prefix(&p, "regions/");
    let b = crate::text::has_suffix(&p, "/region.json");
    let c = crate::walk::str_field_is(v, "kind", "region");
    if !(a && b && c) {
        return None;
    }
    let handle = match str_field(v, "id") {
        Some(h) => h,
        None => return None,
    };
    let sid = match str_field(v, "stable_id") {
        Some(s) => s,
        None => return None,
    };
    let width = crate::regions::dimension_of(v, "width");
    let height = crate::regions::dimension_of(v, "height");
    Some(RegionEntry { handle, stable_id: sid, width, height })
}

impl RegionIndex {
    /// The project's regions, in path order: every region body carrying a
    /// string handle and stable id, with its declared dimensions.
    #[verifier::rlimit(30)]
    pub fn from_files(files: &Vec<(RelPath, Json)>) -> (res: RegionIndex)
        ensures
            entries_view(res.regions@) == index_of(files_view(files@), files@.len() as int),
    {
        let ghost fv = files_view(files@);
        let mut regions: Vec<RegionEntry> = Vec::new();
        let mut i: usize = 0;
        assert(entries_view(regions@) =~= Seq::<(Seq<char>, Seq<char>, u32, u32)>::empty());
        while i < files.len()
            invariant
                i <= files@.len(),
                fv == files_view(files@),
                entries_view(regions@) == index_of(fv, i as int),
            decreases files@.len() - i,
        {
            assert(fv[i as int] == (files@[i as int].0@, files@[i as int].1@));
            match index_entry_of(&files[i].0, &files[i].1) {
                Some(e) => {
                    let ghost before = regions@;
                    regions.push(e);
                    assert(entries_view(regions@) =~= entries_view(before).push((e.handle@, e.stable_id@, e.width, e.height)));
                },
                None => {},
            }
            i = i + 1;
        }
        RegionIndex { regions }
    }
}

/// The changes a plan's writes make: each write whose after-image differs
/// from the project's current value, with that value as its before-image.
pub open spec fn diff_changes(fv: Seq<(Seq<char>, JsonView)>, ws: Seq<(Seq<char>, JsonView)>) -> Seq<(Seq<char>, Option<JsonView>, Option<JsonView>)>
    decreases ws.len(),
{
    if ws.len() == 0 {
        Seq::empty()
    } else {
        let w = ws.last();
        let before = crate::regions::file_at(fv, w.0);
        diff_changes(fv, ws.drop_last()) + if before != Some(w.1) {
            seq![(w.0, before, Some(w.1))]
        } else {
            Seq::empty()
        }
    }
}

pub open spec fn writes_view(ws: Seq<(RelPath, Json)>) -> Seq<(Seq<char>, JsonView)> {
    Seq::new(ws.len(), |i: int| (ws[i].0@, ws[i].1@))
}

/// Assembles a diff from the writes an apply will stage; no-op writes,
/// whose after-image is already the file's value, are left out.
pub fn diff_of(files: &Vec<(RelPath, Json)>, writes: Vec<(RelPath, Json)>) -> (res: Diff)
    ensures
        changes_view(res.changes@) == diff_changes(files_view(files@), writes_view(writes@)),
{
    let ghost fv = files_view(files@);
    let ghost wv = writes_view(writes@);
    let n = writes.len();
    let mut rest = writes;
    let mut changes: Vec<FileChange> = Vec::new();
    let mut i: usize = 0;
    assert(wv.take(0) =~= Seq::<(Seq<char>, JsonView)>::empty());
    assert(changes_view(changes@) =~= Seq::<(Seq<char>, Option<JsonView>, Option<JsonView>)>::empty());
    while i < n
        invariant
            i <= n,
            n == wv.len(),
            fv == files_view(files@),
            rest@.len() == n - i,
            forall|k: int| 0 <= k < rest@.len() ==> (#[trigger] rest@[k]).0@ == wv[i + k].0 && rest@[k].1@ == wv[i + k].1,
            changes_view(changes@) == diff_changes(fv, wv.take(i as int)),
        decreases n - i,
    {
        let ghost rb = rest@;
        let (path, after) = rest.remove(0);
        assert(path@ == wv[i as int].0 && after@ == wv[i as int].1);
        assert forall|k: int| 0 <= k < rest@.len() implies (#[trigger] rest@[k]).0@ == wv[i + 1 + k].0 && rest@[k].1@ == wv[i + 1 + k].1 by {
            assert(rest@[k] == rb[k + 1]);
        }
        assert(wv.take(i + 1).drop_last() =~= wv.take(i as int));
        assert(wv.take(i + 1).last() == wv[i as int]);
        let before = file_value(files, &path);
        let unchanged = match before {
            Some(b) => b.same(&after),
            None => false,
        };
        if !unchanged {
            let before_copy = match before {
                Some(b) => Some(b.duplicate()),
                None => None,
            };
            let ghost prev = changes@;
            changes.push(FileChange { path, before: before_copy, after: Some(after) });
            assert(changes_view(changes@) =~= changes_view(prev).push(crate::tx::change_view(changes@.last())));
        }
        i = i + 1;
    }
    assert(wv.take(n as int) =~= wv);
    Diff { changes }
}

pub(crate) fn lacks_text(region_sid: &str, path: &RelPath) -> (res: String)
    ensures
        res@ == "region "@ + region_sid@ + " lacks "@ + path@,
{
    let mut m: Vec<char> = Vec::new();
    push_str(&mut m, "region ");
    push_str(&mut m, region_sid);
    push_str(&mut m, " lacks ");
    push_str(&mut m, path.as_str());
    string_of(&m)
}

impl CreateRegion {
    /// The changes creating the region would make, under the id the
    /// transaction will allocate next (`counter + 1`).
    pub fn diff(&self, files: &Vec<(RelPath, Json)>, counter: u64, plan: &CreateRegionPlan) -> (res: Result<Diff, OpError>)
        requires
            counter < u64::MAX,
        ensures
            ({
                let sid = next_id(IdKind::Region, counter);
                match terrain_of_kind(plan.fill@) {
                    Some(fill) => res is Ok && changes_view(res->Ok_0.changes@) == diff_changes(files_view(files@), seq![
                        (region_path_text(sid), region_body(plan.id@, sid, plan.width, plan.height, plan.spawn)),
                        (crate::schema::terrain_path_text(sid), terrain_body(plan.width, plan.height, terrain_glyph(fill))),
                        (crate::schema::collision_path_text(sid), collision_body(plan.width, plan.height, is_solid_glyph(terrain_glyph(fill)))),
                    ]),
                    None => res is Err && res->Err_0 == OpError::Diff(res->Err_0->Diff_0)
                        && res->Err_0->Diff_0@ == "plan carries unknown terrain "@ + crate::ops::debug_text(plan.fill@),
                }
            }),
    {
        let sid = StableId::new(IdKind::Region, counter + 1).to_string();
        let fill = match Terrain::from_kind(plan.fill.as_str()) {
            Some(t) => t,
            None => {
                let mut m: Vec<char> = Vec::new();
                push_str(&mut m, "plan carries unknown terrain ");
                let d = crate::ops::debug_str(plan.fill.as_str());
                push_str(&mut m, d.as_str());
                return Err(OpError::Diff(string_of(&m)));
            },
        };
        let writes = region_writes(sid.as_str(), plan, fill);
        let ghost w = writes@;
        let res = diff_of(files, writes);
        proof {
            let sidv = next_id(IdKind::Region, counter);
            assert(writes_view(w) =~= seq![
                (region_path_text(sidv), region_body(plan.id@, sidv, plan.width, plan.height, plan.spawn)),
                (crate::schema::terrain_path_text(sidv), terrain_body(plan.width, plan.height, terrain_glyph(fill))),
                (crate::schema::collision_path_text(sidv), collision_body(plan.width, plan.height, is_solid_glyph(terrain_glyph(fill)))),
            ]);
        }
        Ok(res)
    }
}

impl PlaceNpc {
    /// The changes placing the npc would make, under the id the
    /// transaction will allocate next (`counter + 1`).
    pub fn diff(&self, files: &Vec<(RelPath, Json)>, counter: u64, plan: &PlaceNpcPlan) -> (res: Result<Diff, OpError>)
        requires
            counter < u64::MAX,
        ensures
            ({
                let sid = next_id(IdKind::Ent, counter);
                let rpath = region_path_text(plan.region_stable_id@);
                let outcome = appended_region(plan.region_stable_id@, crate::regions::file_at(files_view(files@), rpath), "placements"@,
                    placement_value(sid, plan.at, plan.facing), "region placements is not an array"@);
                &&& outcome is Ok ==> res is Ok && changes_view(res->Ok_0.changes@) == diff_changes(files_view(files@), seq![
                    (npc_path_text(sid), npc_body(plan.id@, sid, strings_view(plan.tags@), plan.intent@,
                        strings_view(plan.constraints@), human_name_view(plan.human_name), plan.facing)),
                    (rpath, outcome->Ok_0),
                ])
                &&& outcome is Err ==> res is Err && res->Err_0 == OpError::Diff(res->Err_0->Diff_0)
                    && res->Err_0->Diff_0@ == outcome->Err_0
            }),
    {
        let sid = StableId::new(IdKind::Ent, counter + 1).to_string();
        let rpath = crate::schema::region_path(plan.region_stable_id.as_str());
        let mut region = match file_value(files, &rpath) {
            Some(r) => r.duplicate(),
            None => return Err(OpError::Diff(lacks_text(plan.region_stable_id.as_str(), &rpath))),
        };
        match push_placement(&mut region, sid.as_str(), plan.at, plan.facing) {
            Ok(()) => {},
            Err(m) => return Err(OpError::Diff(m)),
        }
        let npath = crate::schema::npc_path(sid.as_str());
        let entity = npc_file(plan.id.as_str(), sid.as_str(), &plan.tags, plan.intent.as_str(), &plan.constraints, &plan.human_name, plan.facing);
        let writes = vec![(npath, entity), (rpath, region)];
        let ghost w = writes@;
        let res = diff_of(files, writes);
        assert(writes_view(w) =~= seq![(w[0].0@, w[0].1@), (w[1].0@, w[1].1@)]);
        Ok(res)
    }
}

impl MarkWarp {
    /// The changes marking the warp would make, under the id the
    /// transaction will allocate next (`counter + 1`).
    pub fn diff(&self, files: &Vec<(RelPath, Json)>, counter: u64, plan: &MarkWarpPlan) -> (res: Result<Diff, OpError>)
        requires
            counter < u64::MAX,
        ensures
            ({
                let sid = next_id(IdKind::Warp, counter);
                let rpath = region_path_text(plan.region_stable_id@);
                let outcome = appended_region(plan.region_stable_id@, crate::regions::file_at(files_view(files@), rpath), "warps"@,
                    warp_value(sid, plan.at, plan.to.region_id@, human_name_view(plan.to.region_stable_id), plan.to.at),
                    "region warps is not an array"@);
                &&& outcome is Ok ==> res is Ok && changes_view(res->Ok_0.changes@) == diff_changes(files_view(files@), seq![(rpath, outcome->Ok_0)])
                &&& outcome is Err ==> res is Err && res->Err_0 == OpError::Diff(res->Err_0->Diff_0)
                    && res->Err_0->Diff_0@ == outcome->Err_0
            }),
    {
        let sid = StableId::new(IdKind::Warp, counter + 1).to_string();
        let rpath = crate::schema::region_path(plan.region_stable_id.as_str());
        let mut region = match file_value(files, &rpath) {
            Some(r) => r.duplicate(),
            None => return Err(OpError::Diff(lacks_text(plan.region_stable_id.as_str(), &rpath))),
        };
        match push_warp(&mut region, sid.as_str(), plan.at, plan.to.region_id.as_str(), &plan.to.region_stable_id, plan.to.at) {
            Ok(()) => {},
            Err(m) => return Err(OpError::Diff(m)),
        }
        let writes = vec![(rpath, region)];
        let ghost w = writes@;
        let res = diff_of(files, writes);
        assert(writes_view(w) =~= seq![(w[0].0@, w[0].1@)]);
        Ok(res)
    }
}

} // verus!
