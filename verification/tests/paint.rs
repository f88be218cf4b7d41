use serde_json::Value;
use systole::collision::apply_collision_override;
use systole::ir::RelPath;
use systole::json::Json;
use systole::op::OpError;
use systole::ops::{PaintArea, PaintAreaPlan, PaintPath, PaintPathPlan, SetCollision, SetCollisionPlan};
use systole::paint::paint_writes;
use systole::schema::Terrain;
use systole::tx::Transaction;

fn from_serde(v: &Value) -> Json {
    match v {
        Value::Null => Json::Null,
        Value::Bool(b) => Json::Bool(*b),
        Value::Number(n) => match n.as_u64() {
            Some(u) => Json::UInt(u),
            None => Json::NegInt(n.as_i64().unwrap()),
        },
        Value::String(s) => Json::Str(s.clone()),
        Value::Array(items) => Json::Array(items.iter().map(from_serde).collect()),
        Value::Object(map) => Json::object(map.iter().map(|(k, v)| (k.clone(), from_serde(v))).collect()),
    }
}

fn json(text: &str) -> Json {
    from_serde(&serde_json::from_str::<Value>(text).unwrap())
}

fn compact(j: &Json) -> String {
    String::from_utf8(systole::json::format_line(j)).unwrap().trim_end().to_string()
}

fn layers() -> Vec<(RelPath, Json)> {
    vec![
        (
            RelPath::new("regions/region_00001/layers/collision.json".into()),
            json(r##"{"kind": "collision", "overrides": {"0,0": true}, "rows": ["#...", "...."]}"##),
        ),
        (
            RelPath::new("regions/region_00001/layers/terrain.json".into()),
            json(r#"{"kind": "terrain", "rows": ["....", "...."]}"#),
        ),
    ]
}

#[test]
fn overrides_record_every_tile_and_set_the_rows() {
    let mut c = json(r#"{"kind": "collision", "overrides": {}, "rows": ["....", "...."]}"#);
    assert_eq!(apply_collision_override(&mut c, 1, 0, 2, 2, true), Ok(4));
    assert_eq!(
        compact(&c),
        r##"{"kind":"collision","overrides":{"1,0":true,"1,1":true,"2,0":true,"2,1":true},"rows":[".##.",".##."]}"##
    );
    // A repeated request changes nothing.
    assert_eq!(apply_collision_override(&mut c, 1, 0, 2, 2, true), Ok(0));
    let mut bad = json(r#"{"kind": "collision", "rows": []}"#);
    assert_eq!(apply_collision_override(&mut bad, 0, 0, 1, 1, false), Err("collision overrides must be an object".to_string()));
}

#[test]
fn set_collision_stages_the_overridden_file() {
    let mut tx = Transaction::new(layers(), 0);
    let plan = SetCollisionPlan { region_stable_id: "region_00001".into(), x: 3, y: 1, w: 1, h: 1, solid: true };
    let out = SetCollision.apply(&mut tx, plan).unwrap();
    assert_eq!(out.tiles_changed, 1);
    let c = tx.read(&RelPath::new("regions/region_00001/layers/collision.json".into())).unwrap();
    assert_eq!(compact(&c), r##"{"kind":"collision","overrides":{"0,0":true,"3,1":true},"rows":["#...","...#"]}"##);
    let plan = SetCollisionPlan { region_stable_id: "region_00009".into(), x: 0, y: 0, w: 1, h: 1, solid: true };
    match SetCollision.apply(&mut tx, plan) {
        Err(OpError::Apply(m)) => assert_eq!(m, "region region_00009 lacks regions/region_00009/layers/collision.json"),
        other => panic!("unexpected {other:?}"),
    }
}

#[test]
fn painting_keeps_overrides_and_follows_the_new_glyph_elsewhere() {
    let mut tx = Transaction::new(layers(), 0);
    let plan = PaintAreaPlan { region_stable_id: "region_00001".into(), x: 0, y: 0, w: 2, h: 1, terrain: "water".into() };
    let out = PaintArea.apply(&mut tx, plan).unwrap();
    assert_eq!(out.tiles_changed, 2);
    let t = tx.read(&RelPath::new("regions/region_00001/layers/terrain.json".into())).unwrap();
    assert_eq!(compact(&t), r#"{"kind":"terrain","rows":["~~..","...."]}"#);
    let c = tx.read(&RelPath::new("regions/region_00001/layers/collision.json".into())).unwrap();
    // (0,0) keeps its override (already solid); (1,0) follows the water.
    assert_eq!(compact(&c), r###"{"kind":"collision","overrides":{"0,0":true},"rows":["##..","...."]}"###);
}

#[test]
fn painting_a_path_bends_horizontally_then_vertically() {
    let mut tx = Transaction::new(layers(), 0);
    let plan = PaintPathPlan { region_stable_id: "region_00001".into(), from: [1, 0], to: [3, 1], terrain: "wall".into() };
    let out = PaintPath.apply(&mut tx, plan).unwrap();
    assert_eq!(out.tiles_changed, 4);
    let t = tx.read(&RelPath::new("regions/region_00001/layers/terrain.json".into())).unwrap();
    assert_eq!(compact(&t), r##"{"kind":"terrain","rows":[".###","...#"]}"##);
    let bad = PaintPathPlan { region_stable_id: "region_00001".into(), from: [0, 0], to: [0, 0], terrain: "lava".into() };
    match PaintPath.apply(&mut tx, bad) {
        Err(OpError::Apply(m)) => assert_eq!(m, "plan carries unknown terrain \"lava\""),
        other => panic!("unexpected {other:?}"),
    }
}

#[test]
fn paint_diffs_list_only_changed_files() {
    let files = layers();
    let plan = PaintAreaPlan { region_stable_id: "region_00001".into(), x: 0, y: 1, w: 1, h: 1, terrain: "grass".into() };
    let d = PaintArea.diff(&files, &plan).unwrap();
    assert!(d.changes.is_empty());
    let plan = PaintPathPlan { region_stable_id: "region_00001".into(), from: [0, 1], to: [1, 1], terrain: "floor".into() };
    let d = PaintPath.diff(&files, &plan).unwrap();
    assert_eq!(d.changes.len(), 1);
    assert_eq!(d.changes[0].path.as_str(), "regions/region_00001/layers/terrain.json");
    let plan = SetCollisionPlan { region_stable_id: "region_00001".into(), x: 0, y: 0, w: 1, h: 1, solid: true };
    let d = SetCollision.diff(&files, &plan).unwrap();
    assert!(d.changes.is_empty());
}

#[test]
fn paint_writes_need_both_layers() {
    let r = paint_writes(None, Some(Json::Null), "region_00002", &vec![(0, 0)], Terrain::Wall);
    assert_eq!(r.err(), Some("region region_00002 lacks regions/region_00002/layers/terrain.json".to_string()));
    let r = paint_writes(Some(Json::Null), None, "region_00002", &vec![(0, 0)], Terrain::Wall);
    assert_eq!(r.err(), Some("region region_00002 lacks regions/region_00002/layers/collision.json".to_string()));
}
