use serde_json::Value;
use systole::edits::{diff_of, find_entity, find_region, make_finding, npc_file, push_placement, push_warp, region_file};
use systole::finding::Severity;
use systole::ids::IdKind;
use systole::ir::RelPath;
use systole::json::Json;
use systole::op::OpError;
use systole::ops::{
    CreateRegion, CreateRegionPlan, MarkWarp, MarkWarpPlan, PlaceNpc, PlaceNpcPlan, QueryRegion, QueryRegionRequest,
    RegionIndex, ResolvedWarpTarget,
};
use systole::schema::Facing;
use systole::tx::Transaction;

fn from_serde(v: &Value) -> Json {
    match v {
        Value::Null => Json::Null,
        Value::Bool(b) => Json::Bool(*b),
        Value::Number(n) => match n.as_u64() {
            Some(u) => Json::UInt(u),
            None => Json::NegInt(n.as_i64().unwrap()),
        },
        Value::String(s) => Json::Str(s.clone()),
        Value::Array(items) => Json::Array(items.iter().map(from_serde).collect()),
        Value::Object(map) => Json::object(map.iter().map(|(k, v)| (k.clone(), from_serde(v))).collect()),
    }
}

fn json(text: &str) -> Json {
    from_serde(&serde_json::from_str::<Value>(text).unwrap())
}

fn compact(j: &Json) -> String {
    String::from_utf8(systole::json::format_line(j)).unwrap().trim_end().to_string()
}

fn town_files() -> Vec<(RelPath, Json)> {
    vec![
        (RelPath::new("entities/npc/ent_00002.json".into()), json(r#"{"id": "elder", "kind": "npc", "stable_id": "ent_00002"}"#)),
        (
            RelPath::new("regions/region_00001/layers/collision.json".into()),
            json(r##"{"kind": "collision", "rows": ["..#", "..."], "overrides": {}}"##),
        ),
        (RelPath::new("regions/region_00001/layers/terrain.json".into()), json(r##"{"kind": "terrain", "rows": ["..#", "..."]}"##)),
        (
            RelPath::new("regions/region_00001/region.json".into()),
            json(r#"{"id": "town", "kind": "region", "stable_id": "region_00001", "width": 3, "height": 2, "spawn": [0, 0],
                    "placements": [{"stable_id": "ent_00002", "at": [1, 1], "facing": "up"}], "warps": []}"#),
        ),
    ]
}

#[test]
fn a_fresh_region_body_has_every_field_in_key_order() {
    assert_eq!(
        compact(&region_file("town", "region_00001", 16, 12, [2, 3])),
        r#"{"constraints":[],"height":12,"id":"town","intent":"","kind":"region","owner_module":"systole.rpg","placements":[],"spawn":[2,3],"stable_id":"region_00001","tags":[],"warps":[],"width":16}"#
    );
}

#[test]
fn an_npc_entity_carries_no_coordinates() {
    let e = npc_file("elder", "ent_00002", &vec!["quest".into()], "greets", &vec![], &None, Facing::Down);
    assert_eq!(
        compact(&e),
        r#"{"constraints":[],"facing":"down","human_name":null,"id":"elder","intent":"greets","kind":"npc","owner_module":"systole.rpg","stable_id":"ent_00002","tags":["quest"]}"#
    );
}

#[test]
fn placements_and_warps_append_to_the_region() {
    let mut r = region_file("town", "region_00001", 4, 4, [0, 0]);
    push_placement(&mut r, "ent_00002", [1, 2], Facing::Left).unwrap();
    push_warp(&mut r, "warp_00003", [3, 3], "route", &None, Some([0, 1])).unwrap();
    let text = compact(&r);
    assert!(text.contains(r#""placements":[{"at":[1,2],"facing":"left","stable_id":"ent_00002"}]"#));
    assert!(text.contains(r#""warps":[{"at":[3,3],"stable_id":"warp_00003","to":{"at":[0,1],"region_id":"route","region_stable_id":null}}]"#));
    let mut broken = json(r#"{"placements": 7}"#);
    assert_eq!(push_placement(&mut broken, "ent_1", [0, 0], Facing::Up), Err("region placements is not an array".to_string()));
    assert_eq!(compact(&broken), r#"{"placements":7}"#);
}

#[test]
fn handles_resolve_to_the_first_file_carrying_them() {
    let files = town_files();
    assert_eq!(find_region(&files, "town").as_deref(), Some("region_00001"));
    assert_eq!(find_region(&files, "route"), None);
    assert_eq!(find_entity(&files, "elder").as_deref(), Some("ent_00002"));
    let index = RegionIndex::from_files(&files);
    assert_eq!(index.regions.len(), 1);
    assert_eq!(index.regions[0].handle, "town");
    assert_eq!((index.regions[0].width, index.regions[0].height), (3, 2));
}

fn npc_plan(id: &str, at: [u32; 2]) -> PlaceNpcPlan {
    PlaceNpcPlan {
        region: "town".into(),
        region_stable_id: "region_00001".into(),
        id: id.into(),
        at,
        facing: Facing::Down,
        human_name: Some("Old Mae".into()),
        tags: vec![],
        intent: String::new(),
        constraints: vec![],
    }
}

#[test]
fn placing_an_npc_writes_the_entity_and_the_placement() {
    let files = town_files();
    let mut tx = Transaction::new(files, 4);
    let out = PlaceNpc.apply(&mut tx, npc_plan("smith", [0, 1])).unwrap();
    assert_eq!(out.stable_id, "ent_00005");
    assert_eq!(out.path, "entities/npc/ent_00005.json");
    assert_eq!(tx.stable_id_counter(), 5);
    let entity = tx.read(&RelPath::new("entities/npc/ent_00005.json".into())).unwrap();
    assert!(compact(&entity).contains(r#""human_name":"Old Mae""#));
    let region = tx.read(&RelPath::new("regions/region_00001/region.json".into())).unwrap();
    assert!(compact(&region).contains(r#"{"at":[0,1],"facing":"down","stable_id":"ent_00005"}"#));
}

#[test]
fn an_apply_on_a_missing_region_body_fails() {
    let mut tx = Transaction::new(Vec::new(), 0);
    match PlaceNpc.apply(&mut tx, npc_plan("smith", [0, 1])) {
        Err(OpError::Apply(m)) => assert_eq!(m, "region region_00001 lacks regions/region_00001/region.json"),
        other => panic!("unexpected {other:?}"),
    }
}

#[test]
fn npc_validation_flags_a_taken_handle_and_a_solid_tile() {
    let files = town_files();
    let fs = PlaceNpc.validate(&files, &npc_plan("elder", [2, 0]));
    assert_eq!(fs.len(), 2);
    assert!(fs[0].finding_id < fs[1].finding_id);
    let dup = fs.iter().find(|f| f.code == "rpg.entity.duplicate_id").unwrap();
    assert!(dup.blocking);
    assert_eq!(compact(&dup.evidence), r#"{"existing_stable_id":"ent_00002","requested_id":"elder"}"#);
    let solid = fs.iter().find(|f| f.code == "rpg.placement.on_solid_tile").unwrap();
    assert_eq!(solid.severity, Severity::Warning);
    assert_eq!(compact(&solid.suggested_fixes[0].input), r#"{"h":1,"region":"town","solid":false,"w":1,"x":2,"y":0}"#);
    assert!(PlaceNpc.validate(&files, &npc_plan("smith", [0, 0])).is_empty());
}

fn warp_plan(at: [u32; 2], target: Option<&str>) -> MarkWarpPlan {
    MarkWarpPlan {
        region: "town".into(),
        region_stable_id: "region_00001".into(),
        at,
        to: ResolvedWarpTarget { region_id: "route".into(), region_stable_id: target.map(|s| s.to_string()), at: None },
    }
}

#[test]
fn marking_a_warp_appends_it_and_flags_an_unbuilt_destination() {
    let files = town_files();
    let mut tx = Transaction::new(town_files(), 7);
    let out = MarkWarp.apply(&mut tx, warp_plan([2, 1], None)).unwrap();
    assert_eq!(out.stable_id, "warp_00008");
    let fs = MarkWarp.validate(&files, &warp_plan([2, 1], None));
    assert_eq!(fs.len(), 1);
    assert_eq!(fs[0].code, "rpg.warp.dangling_target");
    assert_eq!(compact(&fs[0].suggested_fixes[0].input), r#"{"height":2,"id":"route","width":3}"#);
    assert!(MarkWarp.validate(&files, &warp_plan([2, 1], Some("region_00009"))).is_empty());
}

#[test]
fn a_second_warp_on_a_tile_is_refused() {
    let mut files = town_files();
    files[3].1 = json(
        r#"{"id": "town", "kind": "region", "stable_id": "region_00001", "width": 3, "height": 2,
            "placements": [], "warps": [{"stable_id": "warp_00004", "at": [2, 1], "to": {"region_id": "route"}}]}"#,
    );
    let fs = MarkWarp.validate(&files, &warp_plan([2, 1], Some("region_00009")));
    assert_eq!(fs.len(), 1);
    assert_eq!(fs[0].code, "rpg.warp.duplicate_tile");
    assert_eq!(fs[0].location.stable_id.as_deref(), Some("warp_00004"));
    assert_eq!(compact(&fs[0].evidence), r#"{"at":[2,1],"existing_warp":"warp_00004"}"#);
}

#[test]
fn creating_a_region_writes_its_three_files() {
    let plan = CreateRegionPlan { id: "route".into(), width: 3, height: 1, fill: "water".into(), spawn: [0, 0] };
    let mut tx = Transaction::new(Vec::new(), 0);
    let out = CreateRegion.apply(&mut tx, plan).unwrap();
    assert_eq!(out.stable_id, "region_00001");
    assert_eq!(out.path, "regions/region_00001/region.json");
    let terrain = tx.read(&RelPath::new("regions/region_00001/layers/terrain.json".into())).unwrap();
    assert_eq!(
        compact(&terrain),
        r##"{"height":1,"kind":"terrain","legend":{"#":"wall","-":"path",".":"grass",":":"floor","~":"water"},"rows":["~~~"],"width":3}"##
    );
    let collision = tx.read(&RelPath::new("regions/region_00001/layers/collision.json".into())).unwrap();
    assert_eq!(compact(&collision), r####"{"height":1,"kind":"collision","overrides":{},"rows":["###"],"width":3}"####);
    let bad = CreateRegionPlan { id: "x".into(), width: 1, height: 1, fill: "lava".into(), spawn: [0, 0] };
    match CreateRegion.apply(&mut Transaction::new(Vec::new(), 0), bad) {
        Err(OpError::Apply(m)) => assert_eq!(m, "plan carries unknown terrain \"lava\""),
        other => panic!("unexpected {other:?}"),
    }
}

#[test]
fn a_taken_region_handle_is_refused() {
    let files = town_files();
    let plan = CreateRegionPlan { id: "town".into(), width: 3, height: 1, fill: "grass".into(), spawn: [0, 0] };
    let fs = CreateRegion.validate(&files, &plan);
    assert_eq!(fs.len(), 1);
    assert_eq!(fs[0].code, "rpg.region.duplicate_id");
    assert_eq!(fs[0].location.path.as_ref().map(|p| p.as_str()), Some("regions/region_00001/region.json"));
}

#[test]
fn diffs_predict_the_next_id_and_skip_unchanged_files() {
    let files = town_files();
    let d = PlaceNpc.diff(&files, 4, &npc_plan("smith", [0, 1])).unwrap();
    assert_eq!(d.changes.len(), 2);
    assert_eq!(d.changes[0].path.as_str(), "entities/npc/ent_00005.json");
    assert!(d.changes[0].before.is_none());
    let plan = CreateRegionPlan { id: "route".into(), width: 2, height: 2, fill: "grass".into(), spawn: [0, 0] };
    let d = CreateRegion.diff(&files, 1, &plan).unwrap();
    assert_eq!(d.changes.len(), 3);
    assert_eq!(d.changes[0].path.as_str(), "regions/region_00002/region.json");
    let same = diff_of(&files, vec![(RelPath::new("entities/npc/ent_00002.json".into()), files[0].1.duplicate())]);
    assert!(same.changes.is_empty());
    let d = MarkWarp.diff(&files, 0, &warp_plan([1, 0], None)).unwrap();
    assert_eq!(d.changes.len(), 1);
    assert!(d.changes[0].before.is_some());
}

#[test]
fn the_query_reads_the_text_map_and_placements() {
    let files = town_files();
    let out = QueryRegion.query(&files, QueryRegionRequest { region: "town".into() }).unwrap();
    assert_eq!(out.id, "town");
    assert_eq!(out.stable_id, "region_00001");
    assert_eq!((out.width, out.height), (3, 2));
    assert_eq!(out.rows, vec!["..#".to_string(), "...".to_string()]);
    assert_eq!(out.collision_rows, vec!["..#".to_string(), "...".to_string()]);
    assert_eq!(compact(&out.legend), r##"{"#":"wall","-":"path",".":"grass",":":"floor","~":"water"}"##);
    assert_eq!(out.placements.len(), 1);
    assert_eq!(out.placements[0].id, "elder");
    assert_eq!(out.placements[0].at, [1, 1]);
    assert_eq!(out.placements[0].facing, "up");
    match QueryRegion.query(&files, QueryRegionRequest { region: "nowhere".into() }) {
        Err(OpError::InvalidRequest(m)) => assert_eq!(m, "rpg.region.not_found: no region with id \"nowhere\""),
        other => panic!("unexpected {other:?}"),
    }
}

#[test]
fn findings_are_built_with_the_shared_id_formula() {
    let a = make_finding("x.code", Severity::Info, false, None, None, json(r#"{"k": 1}"#), Vec::new());
    let b = make_finding("x.code", Severity::Info, false, None, None, json(r#"{"k": 1}"#), Vec::new());
    assert_eq!(a.finding_id, b.finding_id);
    assert_eq!(a.finding_id.len(), "finding_".len() + 16);
    let _ = IdKind::Ent;
}
