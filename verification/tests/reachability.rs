use std::collections::BTreeSet;

use serde_json::Value;
use systole::collision::apply_collision_override;
use systole::commit::post_files;
use systole::edits::{collision_json, npc_file, push_placement, push_warp, region_file, terrain_json};
use systole::finding::Finding;
use systole::ir::RelPath;
use systole::json::Json;
use systole::op::{FileChange, PlanRequest};
use systole::ops::{CreateRegion, CreateRegionRequest, RegionIndex, SetCollision, SetCollisionRequest};
use systole::regions::regions;
use systole::schema::{rect_tiles, Facing, Terrain};
use systole::tx::Transaction;
use systole::walk::{conditions, finish, ordered, same_condition, select_fixes};

const CODE_UNREACHABLE_NPC: &str = "rpg.reachability.unreachable_npc";
const CODE_UNREACHABLE_WARP: &str = "rpg.reachability.unreachable_warp";
const CODE_SPAWN_BLOCKED: &str = "rpg.reachability.spawn_blocked";
const CODE_DANGLING_TARGET: &str = "rpg.warp.dangling_target";
const CODE_UNREACHABLE_DESTINATION: &str = "rpg.warp.unreachable_destination";

fn to_value(j: &Json) -> Value {
    match j {
        Json::Null => Value::Null,
        Json::Bool(b) => Value::Bool(*b),
        Json::UInt(u) => Value::from(*u),
        Json::NegInt(i) => Value::from(*i),
        Json::Str(s) => Value::String(s.clone()),
        Json::Array(items) => Value::Array(items.iter().map(to_value).collect()),
        Json::Object(members) => {
            let mut map = serde_json::Map::new();
            for (k, v) in members {
                map.insert(k.clone(), to_value(v));
            }
            Value::Object(map)
        }
    }
}

type Files = Vec<(RelPath, Json)>;

fn copy(files: &Files) -> Files {
    files.iter().map(|(p, v)| (p.duplicate(), v.duplicate())).collect()
}

fn sorted(mut files: Files) -> Files {
    files.sort_by(|a, b| a.0.as_str().cmp(b.0.as_str()));
    files
}

/// A fix materialized and applied in memory: the files and counter after.
fn staged_apply(files: &Files, counter: u64, req: &PlanRequest) -> Option<(Files, u64)> {
    let input = to_value(&req.input);
    let num = |k: &str| input[k].as_u64().map(|n| n as u32);
    let index = RegionIndex::from_files(files);
    let mut tx = Transaction::new(copy(files), counter);
    match req.op_id.as_str() {
        "rpg.set_collision" => {
            let r = SetCollisionRequest {
                region: input["region"].as_str()?.to_string(),
                x: num("x")?,
                y: num("y")?,
                w: num("w")?,
                h: num("h")?,
                solid: input["solid"].as_bool()?,
            };
            let plan = SetCollision.materialize(&index, r).ok()?;
            SetCollision.apply(&mut tx, plan).ok()?;
        }
        "rpg.create_region" => {
            let spawn = input["spawn"].as_array().map(|s| [s[0].as_u64().unwrap() as u32, s[1].as_u64().unwrap() as u32]);
            let r = CreateRegionRequest {
                id: input["id"].as_str()?.to_string(),
                width: num("width")?,
                height: num("height")?,
                fill: None,
                spawn,
            };
            let plan = CreateRegion.materialize(r).ok()?;
            CreateRegion.apply(&mut tx, plan).ok()?;
        }
        _ => return None,
    }
    let staged: Vec<FileChange> = tx
        .staged()
        .iter()
        .map(|c| FileChange { path: c.path.duplicate(), before: c.before.as_ref().map(Json::duplicate), after: c.after.as_ref().map(Json::duplicate) })
        .collect();
    let after = post_files(files, &staged).into_iter().map(|(p, v)| (RelPath::new(p), v)).collect();
    Some((sorted(after), tx.stable_id_counter()))
}

/// The reachability validator: each flagged condition keeps the candidate
/// fixes whose staged application clears it.
fn validate(files: &Files, counter: u64, depth: u32) -> Vec<Finding> {
    let (views, mut findings) = regions(files);
    for mut flag in conditions(files, &views) {
        let candidates = std::mem::take(&mut flag.candidates);
        let cleared: Vec<bool> = candidates
            .iter()
            .map(|c| {
                depth == 0
                    && match staged_apply(files, counter, c) {
                        Some((after, n)) => !validate(&after, n, depth + 1).iter().any(|f| same_condition(&flag, f)),
                        None => false,
                    }
            })
            .collect();
        let fixes = select_fixes(depth, candidates, &cleared);
        findings.push(finish(flag, fixes));
    }
    ordered(findings)
}

fn ring(x: u32, y: u32, w: u32, h: u32) -> BTreeSet<(u32, u32)> {
    let mut out = BTreeSet::new();
    for t in rect_tiles(x, y, w, 1).into_iter().chain(rect_tiles(x, y + h - 1, w, 1)) {
        out.insert(t);
    }
    for t in rect_tiles(x, y + 1, 1, h - 2).into_iter().chain(rect_tiles(x + w - 1, y + 1, 1, h - 2)) {
        out.insert(t);
    }
    out
}

/// A 16×16 grass `town` (region_00001, spawn (1,1)) with solid overrides on
/// `walls`, an optional npc `elder` (ent_00002) and an optional warp
/// (warp_00003) to `to_region`.
fn town(walls: &BTreeSet<(u32, u32)>, npc_at: Option<(u32, u32)>, warp: Option<((u32, u32), &str)>) -> Files {
    let terrain = terrain_json(16, 16, Terrain::Grass);
    let mut collision = collision_json(16, 16, Terrain::Grass);
    for &(x, y) in walls {
        apply_collision_override(&mut collision, x, y, 1, 1, true).unwrap();
    }
    let mut region = region_file("town", "region_00001", 16, 16, [1, 1]);
    if let Some(at) = npc_at {
        push_placement(&mut region, "ent_00002", [at.0, at.1], Facing::Down).unwrap();
    }
    if let Some((at, to_region)) = warp {
        push_warp(&mut region, "warp_00003", [at.0, at.1], to_region, &None, None).unwrap();
    }
    let mut files = vec![
        (RelPath::new("regions/region_00001/region.json".to_string()), region),
        (RelPath::new("regions/region_00001/layers/terrain.json".to_string()), terrain),
        (RelPath::new("regions/region_00001/layers/collision.json".to_string()), collision),
    ];
    if npc_at.is_some() {
        files.push((
            RelPath::new("entities/npc/ent_00002.json".to_string()),
            npc_file("elder", "ent_00002", &vec![], "", &vec![], &None, Facing::Down),
        ));
    }
    sorted(files)
}

fn codes(findings: &[Finding]) -> Vec<&str> {
    findings.iter().map(|f| f.code.as_str()).collect()
}

#[test]
fn an_open_town_is_clean() {
    let findings = validate(&town(&BTreeSet::new(), Some((5, 5)), None), 3, 0);
    assert!(findings.is_empty(), "unexpected: {findings:?}");
}

#[test]
fn an_npc_inside_a_closed_ring_gets_a_verified_door_fix() {
    let p = town(&ring(4, 4, 3, 3), Some((5, 5)), None);
    let findings = validate(&p, 3, 0);
    assert_eq!(codes(&findings), vec![CODE_UNREACHABLE_NPC]);
    let f = &findings[0];
    assert!(f.blocking);
    assert_eq!(f.suggested_fixes.len(), 1);
    let fix = &f.suggested_fixes[0];
    assert_eq!(fix.op_id, "rpg.set_collision");
    let input = to_value(&fix.input);
    assert_eq!(input["w"], 1);
    assert_eq!(input["h"], 1);
    assert_eq!(input["solid"], false);
    let (after, n) = staged_apply(&p, 3, fix).unwrap();
    assert!(!validate(&after, n, 0).iter().any(|g| g.code == CODE_UNREACHABLE_NPC));
}

#[test]
fn a_two_thick_wall_yields_the_breach_fix() {
    let centre: BTreeSet<(u32, u32)> = rect_tiles(6, 6, 1, 1).into_iter().collect();
    let walls: BTreeSet<(u32, u32)> = rect_tiles(4, 4, 5, 5).into_iter().filter(|t| !centre.contains(t)).collect();
    let p = town(&walls, Some((6, 6)), None);
    let findings = validate(&p, 3, 0);
    assert_eq!(codes(&findings), vec![CODE_UNREACHABLE_NPC]);
    let fixes = &findings[0].suggested_fixes;
    assert_eq!(fixes.len(), 1);
    let input = to_value(&fixes[0].input);
    let (w, h) = (input["w"].as_u64().unwrap(), input["h"].as_u64().unwrap());
    assert!(w == 2 || h == 2, "breach must span two solid tiles: {input}");
    let (after, n) = staged_apply(&p, 3, &fixes[0]).unwrap();
    assert!(!validate(&after, n, 0).iter().any(|g| g.code == CODE_UNREACHABLE_NPC));
}

#[test]
fn a_warp_destination_point_is_checked_for_reachability() {
    let mut p = town(&BTreeSet::new(), None, None);
    let mut collision = collision_json(4, 4, Terrain::Grass);
    apply_collision_override(&mut collision, 3, 3, 1, 1, true).unwrap();
    p.push((RelPath::new("regions/region_00002/region.json".to_string()), region_file("route_1", "region_00002", 4, 4, [1, 1])));
    p.push((RelPath::new("regions/region_00002/layers/terrain.json".to_string()), terrain_json(4, 4, Terrain::Grass)));
    p.push((RelPath::new("regions/region_00002/layers/collision.json".to_string()), collision));
    for entry in p.iter_mut() {
        if entry.0.as_str() == "regions/region_00001/region.json" {
            push_warp(&mut entry.1, "warp_00003", [15, 8], "route_1", &Some("region_00002".to_string()), Some([3, 3])).unwrap();
        }
    }
    let p = sorted(p);
    let findings = validate(&p, 3, 0);
    assert_eq!(codes(&findings), vec![CODE_UNREACHABLE_DESTINATION]);
    assert!(!findings[0].blocking, "an unreachable destination stays advisory");
}

#[test]
fn a_spawn_on_a_wall_is_blocking_with_a_one_tile_fix() {
    let p = town(&BTreeSet::from([(1, 1)]), Some((5, 5)), None);
    let findings = validate(&p, 3, 0);
    let spawn = findings.iter().find(|f| f.code == CODE_SPAWN_BLOCKED).expect("spawn_blocked");
    assert!(spawn.blocking);
    assert_eq!(spawn.suggested_fixes.len(), 1);
    let input = to_value(&spawn.suggested_fixes[0].input);
    assert_eq!(input["x"], 1);
    assert_eq!(input["y"], 1);
}

#[test]
fn a_warp_behind_a_wall_is_unreachable() {
    let p = town(&ring(4, 4, 3, 3), None, Some(((5, 5), "route_1")));
    let findings = validate(&p, 3, 0);
    let warp = findings.iter().find(|f| f.code == CODE_UNREACHABLE_WARP).expect("unreachable_warp");
    assert!(warp.blocking);
    assert!(!warp.suggested_fixes.is_empty());
}

#[test]
fn a_dangling_warp_target_is_non_blocking_with_a_create_region_fix() {
    let p = town(&BTreeSet::new(), None, Some(((15, 8), "route_1")));
    let findings = validate(&p, 3, 0);
    assert_eq!(codes(&findings), vec![CODE_DANGLING_TARGET]);
    let f = &findings[0];
    assert!(!f.blocking);
    let fix = &f.suggested_fixes[0];
    assert_eq!(fix.op_id, "rpg.create_region");
    let input = to_value(&fix.input);
    assert_eq!(input["id"], "route_1");
    assert_eq!(input["width"], 16);
    assert_eq!(input["height"], 16);
    assert_eq!(input["spawn"], serde_json::from_str::<Value>("[1, 1]").unwrap());
    let (after, n) = staged_apply(&p, 3, fix).unwrap();
    assert!(validate(&after, n, 0).is_empty());
}

#[test]
fn findings_are_sorted_by_finding_id() {
    let p = town(&ring(4, 4, 3, 3), Some((5, 5)), Some(((15, 8), "route_1")));
    let findings = validate(&p, 3, 0);
    let ids: Vec<&str> = findings.iter().map(|f| f.finding_id.as_str()).collect();
    let mut ordered_ids = ids.clone();
    ordered_ids.sort_unstable();
    assert_eq!(ids, ordered_ids);
    let unique: BTreeSet<&&str> = ids.iter().collect();
    assert_eq!(unique.len(), ids.len(), "finding ids are unique");
    assert!(codes(&findings).contains(&CODE_UNREACHABLE_NPC));
    assert!(codes(&findings).contains(&CODE_DANGLING_TARGET));
}

fn identity(f: &Finding) -> Value {
    let mut e = to_value(&f.evidence);
    if let Some(map) = e.as_object_mut() {
        map.remove("reached");
        map.remove("message");
    }
    Value::Array(vec![
        Value::from(f.code.clone()),
        f.location.stable_id.clone().map(Value::from).unwrap_or(Value::Null),
        f.location.path.as_ref().map(|p| Value::from(p.as_str())).unwrap_or(Value::Null),
        e,
    ])
}

#[test]
fn every_emitted_fix_clears_its_own_finding() {
    for (x, y, w, h) in [(4, 4, 3, 3), (2, 2, 4, 4), (8, 8, 5, 3)] {
        let p = town(&ring(x, y, w, h), Some((x + 1, y + 1)), None);
        for f in validate(&p, 3, 0) {
            for fix in &f.suggested_fixes {
                let (after, n) = staged_apply(&p, 3, fix).expect("a suggested fix always materializes and applies");
                let id = identity(&f);
                assert!(
                    !validate(&after, n, 0).iter().any(|g| identity(g) == id),
                    "fix did not clear {} on ring {x},{y} {w}x{h}",
                    f.code
                );
            }
        }
    }
}
