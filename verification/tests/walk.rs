use serde_json::Value;
use systole::finding::Severity;
use systole::ir::RelPath;
use systole::json::Json;
use systole::regions::regions;
use systole::walk::{conditions, finish, ordered, same_condition, select_fixes};

fn from_serde(v: &Value) -> Json {
    match v {
        Value::Null => Json::Null,
        Value::Bool(b) => Json::Bool(*b),
        Value::Number(n) => match n.as_u64() {
            Some(u) => Json::UInt(u),
            None => Json::NegInt(n.as_i64().unwrap()),
        },
        Value::String(s) => Json::Str(s.clone()),
        Value::Array(items) => Json::Array(items.iter().map(from_serde).collect()),
        Value::Object(map) => Json::object(map.iter().map(|(k, v)| (k.clone(), from_serde(v))).collect()),
    }
}

fn file(path: &str, json: &str) -> (RelPath, Json) {
    (RelPath::new(path.to_string()), from_serde(&serde_json::from_str::<Value>(json).unwrap()))
}

fn compact(j: &Json) -> String {
    let bytes = systole::json::format_line(j);
    let v: Value = serde_json::from_slice(&bytes).unwrap();
    v.to_string()
}

/// A 3x2 town: spawn at the origin, an npc beyond a wall, a warp to a
/// region that does not exist.
fn town(rows: &str) -> Vec<(RelPath, Json)> {
    vec![
        file("entities/npc/ent_00001.json", r###"{"kind": "npc", "id": "elder", "stable_id": "ent_00001"}"###),
        file(
            "regions/reg_00001/layers/collision.json",
            &format!(r###"{{"kind": "collision", "rows": {rows}}}"###),
        ),
        file(
            "regions/reg_00001/region.json",
            r###"{"kind": "region", "id": "town", "stable_id": "reg_00001", "width": 3, "height": 2,
                "spawn": [0, 0],
                "placements": [{"stable_id": "ent_00001", "at": [2, 0], "facing": "down"}],
                "warps": [{"stable_id": "warp_00002", "at": [1, 1], "to": {"region_id": "route", "region_stable_id": null}}]}"###,
        ),
    ]
}

#[test]
fn regions_read_the_grid_targets_and_warps() {
    let files = town(r###"[".#.", "..."]"###);
    let (views, invalid) = regions(&files);
    assert!(invalid.is_empty());
    assert_eq!(views.len(), 1);
    let v = &views[0];
    assert_eq!(v.stable_id, "reg_00001");
    assert_eq!(v.handle, "town");
    assert_eq!(v.path.as_str(), "regions/reg_00001/region.json");
    assert_eq!((v.grid.width, v.grid.height), (3, 2));
    assert_eq!(v.grid.solid, vec![vec![false, true, false], vec![false, false, false]]);
    assert_eq!(v.spawn, (0, 0));
    assert_eq!(v.targets.len(), 2);
    assert!(!v.targets[0].is_warp);
    assert_eq!(v.targets[0].entity_id.as_deref(), Some("elder"));
    assert_eq!(v.targets[0].at, (2, 0));
    assert!(v.targets[1].is_warp);
    assert_eq!(v.targets[1].stable_id, "warp_00002");
    assert_eq!(v.warps.len(), 1);
    assert_eq!(v.warps[0].target_region_id, "route");
    assert_eq!(v.warps[0].dest_at, None);
}

#[test]
fn missing_collision_rows_are_solid() {
    let mut files = town(r###"["."]"###);
    let (views, _) = regions(&files);
    assert_eq!(views[0].grid.solid, vec![vec![false, true, true], vec![true, true, true]]);
    files.remove(1);
    let (views, _) = regions(&files);
    assert_eq!(views[0].grid.solid, vec![vec![true, true, true], vec![true, true, true]]);
}

#[test]
fn region_dimensions_past_the_bound_are_refused() {
    let files = vec![file(
        "regions/reg_00009/region.json",
        r###"{"kind": "region", "id": "huge", "stable_id": "reg_00009", "width": 257, "height": 4}"###,
    )];
    let (views, invalid) = regions(&files);
    assert!(views.is_empty());
    assert_eq!(invalid.len(), 1);
    let f = &invalid[0];
    assert_eq!(f.code, "rpg.region.invalid_dimensions");
    assert!(f.blocking);
    assert_eq!(f.severity, Severity::Error);
    assert_eq!(f.location.stable_id.as_deref(), Some("reg_00009"));
    assert!(f.finding_id.starts_with("finding_"));
    assert_eq!(
        compact(&f.evidence),
        r###"{"height":4,"max":256,"message":"no suggested fix verified: this state cannot be repaired by a single Release 0 operation — repair by hand or via `systole project doctor`","width":257}"###
    );
}

#[test]
fn files_that_are_not_region_bodies_are_skipped() {
    let files = vec![
        file("regions/reg_00001/region.json", r###"{"kind": "terrain", "width": 1, "height": 1}"###),
        file("regions/x/y/region.json", r###"{"kind": "region", "width": 1, "height": 1}"###),
    ];
    let (views, invalid) = regions(&files);
    assert!(views.is_empty() && invalid.is_empty());
}

#[test]
fn an_npc_behind_a_wall_is_flagged_with_a_corridor_fix() {
    // Spawn (0,0); the npc at (2,0) sits behind the wall at (1,0) and (1,1).
    let files = town(r###"[".#.", ".#."]"###);
    let (views, _) = regions(&files);
    let flags = conditions(&files, &views);
    let codes: Vec<&str> = flags.iter().map(|f| f.code.as_str()).collect();
    assert_eq!(
        codes,
        vec![
            "rpg.reachability.unreachable_npc",
            "rpg.placement.on_solid_tile",
            "rpg.reachability.unreachable_warp",
            "rpg.warp.dangling_target",
        ]
    );
    let npc = &flags[0];
    assert!(npc.blocking);
    assert_eq!(
        compact(&npc.evidence),
        r###"{"at":[2,0],"entity_id":"elder","reached":2,"spawn":[0,0],"stable_id":"ent_00001"}"###
    );
    assert!(!npc.candidates.is_empty());
    assert_eq!(npc.candidates[0].op_id, "rpg.set_collision");
    let warp_on_wall = &flags[1];
    assert_eq!(
        compact(&warp_on_wall.evidence),
        r###"{"at":[1,1],"spawn":[0,0],"stable_id":null,"warp_stable_id":"warp_00002"}"###
    );
    let dangling = &flags[3];
    assert!(!dangling.blocking);
    assert_eq!(dangling.candidates[0].op_id, "rpg.create_region");
    assert_eq!(
        compact(&dangling.candidates[0].input),
        r###"{"height":2,"id":"route","spawn":[0,0],"width":3}"###
    );
}

#[test]
fn a_blocked_spawn_is_flagged() {
    let files = town(r###"["#..", "..."]"###);
    let (views, _) = regions(&files);
    let flags = conditions(&files, &views);
    assert_eq!(flags[0].code, "rpg.reachability.spawn_blocked");
    assert_eq!(compact(&flags[0].evidence), r###"{"spawn":[0,0]}"###);
    assert_eq!(
        compact(&flags[0].candidates[0].input),
        r###"{"h":1,"region":"town","solid":false,"w":1,"x":0,"y":0}"###
    );
    // Nothing is reached, so the unreachable targets propose no corridor.
    let npc = flags.iter().find(|f| f.code == "rpg.reachability.unreachable_npc").unwrap();
    assert!(npc.candidates.is_empty());
}

#[test]
fn an_unreachable_landing_is_flagged_when_the_target_region_exists() {
    let mut files = town(r###"["...", "..."]"###);
    files.push(file("regions/reg_00003/layers/collision.json", r###"{"rows": [".#", "##"]}"###));
    files.push(file(
        "regions/reg_00003/region.json",
        r###"{"kind": "region", "id": "route", "stable_id": "reg_00003", "width": 2, "height": 2, "spawn": [0, 0]}"###,
    ));
    if let Json::Object(ms) = &mut files[2].1 {
        for (k, v) in ms.iter_mut() {
            if k == "warps" {
                *v = from_serde(
                    &serde_json::from_str::<Value>(
                        r###"[{"stable_id": "warp_00002", "at": [1, 1], "to": {"region_id": "route", "at": [1, 1]}}]"###,
                    )
                    .unwrap(),
                );
            }
        }
    }
    let (views, _) = regions(&files);
    let flags = conditions(&files, &views);
    assert_eq!(flags.len(), 1);
    assert_eq!(flags[0].code, "rpg.warp.unreachable_destination");
    assert_eq!(
        compact(&flags[0].evidence),
        r###"{"at":[1,1],"destination_at":[1,1],"target_region_id":"route","warp_stable_id":"warp_00002"}"###
    );
}

#[test]
fn a_flag_without_verified_fixes_carries_the_unfixable_note() {
    let files = town(r###"[".#.", "..."]"###);
    let (views, _) = regions(&files);
    let mut flags = conditions(&files, &views);
    let dangling = flags.pop().unwrap();
    let probe = finish(
        systole::walk::Flag {
            code: dangling.code.clone(),
            blocking: dangling.blocking,
            location: dangling.location.clone(),
            evidence: dangling.evidence.duplicate(),
            candidates: Vec::new(),
        },
        Vec::new(),
    );
    assert_eq!(probe.severity, Severity::Warning);
    assert!(compact(&probe.evidence).contains(r###""message":"no suggested fix verified"###));
    assert!(same_condition(&dangling, &probe));
    let cleared = vec![true];
    let kept = select_fixes(0, dangling.candidates, &cleared);
    assert_eq!(kept.len(), 1);
    let f = finish(
        systole::walk::Flag {
            code: dangling.code.clone(),
            blocking: false,
            location: dangling.location.clone(),
            evidence: dangling.evidence.duplicate(),
            candidates: Vec::new(),
        },
        kept,
    );
    assert!(!compact(&f.evidence).contains("message"));
    assert_ne!(f.finding_id, probe.finding_id);
    let sorted = ordered(vec![f, probe]);
    assert!(sorted[0].finding_id < sorted[1].finding_id);
}

#[test]
fn fix_selection_keeps_cleared_candidates_in_order_and_none_on_a_rerun() {
    let files = town(r###"[".#.", ".#."]"###);
    let (views, _) = regions(&files);
    let flags = conditions(&files, &views);
    let n = flags[0].candidates.len();
    assert!(n >= 1);
    let mut cleared = vec![false; n];
    cleared[n - 1] = true;
    let last_input = compact(&flags[0].candidates[n - 1].input);
    let mut flags = flags;
    let npc = flags.remove(0);
    let kept = select_fixes(0, npc.candidates, &cleared);
    assert_eq!(kept.len(), 1);
    assert_eq!(compact(&kept[0].input), last_input);
    let flags2 = conditions(&files, &views);
    let again = flags2.into_iter().next().unwrap();
    assert!(select_fixes(1, again.candidates, &vec![true; n]).is_empty());
}
