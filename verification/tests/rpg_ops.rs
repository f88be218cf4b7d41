use serde_json::Value;
use systole::commit::post_files;
use systole::finding::Finding;
use systole::ir::RelPath;
use systole::json::{format_value, Json};
use systole::op::{FileChange, OpError};
use systole::ops::{
    CreateRegion, CreateRegionRequest, MarkWarp, MarkWarpRequest, PaintArea, PaintAreaRequest, PaintPath, PaintPathRequest,
    PlaceNpc, PlaceNpcRequest, QueryRegion, QueryRegionRequest, RegionIndex, SetCollision, SetCollisionRequest, WarpTarget,
};
use systole::schema::{collision_path, npc_path, region_path, terrain_path, Facing};
use systole::tx::Transaction;

fn to_value(j: &Json) -> Value {
    match j {
        Json::Null => Value::Null,
        Json::Bool(b) => Value::Bool(*b),
        Json::UInt(u) => Value::from(*u),
        Json::NegInt(i) => Value::from(*i),
        Json::Str(s) => Value::String(s.clone()),
        Json::Array(items) => Value::Array(items.iter().map(to_value).collect()),
        Json::Object(members) => {
            let mut map = serde_json::Map::new();
            for (k, v) in members {
                map.insert(k.clone(), to_value(v));
            }
            Value::Object(map)
        }
    }
}

fn from_value(v: &Value) -> Json {
    match v {
        Value::Null => Json::Null,
        Value::Bool(b) => Json::Bool(*b),
        Value::Number(n) => match n.as_u64() {
            Some(u) => Json::UInt(u),
            None => Json::NegInt(n.as_i64().unwrap()),
        },
        Value::String(s) => Json::Str(s.clone()),
        Value::Array(items) => Json::Array(items.iter().map(from_value).collect()),
        Value::Object(map) => Json::object(map.iter().map(|(k, v)| (k.clone(), from_value(v))).collect()),
    }
}

fn parsed(text: &str) -> Value {
    serde_json::from_str(text).unwrap()
}

fn obj(pairs: Vec<(&str, Value)>) -> Value {
    let mut map = serde_json::Map::new();
    for (k, v) in pairs {
        map.insert(k.to_string(), v);
    }
    Value::Object(map)
}

/// An in-memory project: its IR files in path order and the id counter.
struct Proj {
    files: Vec<(RelPath, Json)>,
    counter: u64,
}

impl Proj {
    fn new() -> Proj {
        Proj { files: Vec::new(), counter: 0 }
    }

    fn file(&self, path: &RelPath) -> Value {
        let found = self.files.iter().find(|(p, _)| p.as_str() == path.as_str()).expect("the file exists");
        to_value(&found.1)
    }

    fn snapshot(&self) -> Value {
        Value::Array(self.files.iter().map(|(p, v)| Value::Array(vec![Value::from(p.as_str()), to_value(v)])).collect())
    }
}

enum Req {
    Create(CreateRegionRequest),
    PaintArea(PaintAreaRequest),
    PaintPath(PaintPathRequest),
    SetCollision(SetCollisionRequest),
    PlaceNpc(PlaceNpcRequest),
    MarkWarp(MarkWarpRequest),
}

struct Step {
    output: Value,
    findings: Vec<Finding>,
    staged: Vec<FileChange>,
    inverse: Json,
}

fn copy(c: &FileChange) -> FileChange {
    FileChange { path: c.path.duplicate(), before: c.before.as_ref().map(Json::duplicate), after: c.after.as_ref().map(Json::duplicate) }
}

fn files_copy(p: &Proj) -> Vec<(RelPath, Json)> {
    p.files.iter().map(|(k, v)| (k.duplicate(), v.duplicate())).collect()
}

/// One request through validation, materialization, diff, the operation's
/// findings and apply; the staged writes land in the project.
fn run(p: &mut Proj, r: Req) -> Result<Step, OpError> {
    let index = RegionIndex::from_files(&p.files);
    let mut tx = Transaction::new(files_copy(p), p.counter);
    let (findings, output) = match r {
        Req::Create(r) => {
            CreateRegion.validate_request(&r)?;
            let plan = CreateRegion.materialize(r)?;
            CreateRegion.diff(&p.files, p.counter, &plan)?;
            let findings = CreateRegion.validate(&p.files, &plan);
            if findings.iter().any(|f| f.blocking) {
                return Ok(Step { output: Value::Null, findings, staged: vec![], inverse: Json::Null });
            }
            let o = CreateRegion.apply(&mut tx, plan)?;
            (findings, obj(vec![("stable_id", Value::from(o.stable_id)), ("path", Value::from(o.path))]))
        }
        Req::PaintArea(r) => {
            PaintArea.validate_request(&r)?;
            let plan = PaintArea.materialize(&index, r)?;
            PaintArea.diff(&p.files, &plan)?;
            let o = PaintArea.apply(&mut tx, plan)?;
            (vec![], obj(vec![("tiles_changed", Value::from(o.tiles_changed))]))
        }
        Req::PaintPath(r) => {
            PaintPath.validate_request(&r)?;
            let plan = PaintPath.materialize(&index, r)?;
            PaintPath.diff(&p.files, &plan)?;
            let o = PaintPath.apply(&mut tx, plan)?;
            (vec![], obj(vec![("tiles_changed", Value::from(o.tiles_changed))]))
        }
        Req::SetCollision(r) => {
            SetCollision.validate_request(&r)?;
            let plan = SetCollision.materialize(&index, r)?;
            SetCollision.diff(&p.files, &plan)?;
            let o = SetCollision.apply(&mut tx, plan)?;
            (vec![], obj(vec![("tiles_changed", Value::from(o.tiles_changed))]))
        }
        Req::PlaceNpc(r) => {
            PlaceNpc.validate_request(&r)?;
            let plan = PlaceNpc.materialize(&index, r)?;
            PlaceNpc.diff(&p.files, p.counter, &plan)?;
            let findings = PlaceNpc.validate(&p.files, &plan);
            if findings.iter().any(|f| f.blocking) {
                return Ok(Step { output: Value::Null, findings, staged: vec![], inverse: Json::Null });
            }
            let o = PlaceNpc.apply(&mut tx, plan)?;
            (findings, obj(vec![("stable_id", Value::from(o.stable_id)), ("path", Value::from(o.path))]))
        }
        Req::MarkWarp(r) => {
            MarkWarp.validate_request(&r)?;
            let plan = MarkWarp.materialize(&index, r)?;
            MarkWarp.diff(&p.files, p.counter, &plan)?;
            let findings = MarkWarp.validate(&p.files, &plan);
            if findings.iter().any(|f| f.blocking) {
                return Ok(Step { output: Value::Null, findings, staged: vec![], inverse: Json::Null });
            }
            let o = MarkWarp.apply(&mut tx, plan)?;
            (findings, obj(vec![("stable_id", Value::from(o.stable_id))]))
        }
    };
    let staged: Vec<FileChange> = tx.staged().iter().map(copy).collect();
    let inverse = tx.inverse();
    p.files = post_files(&p.files, &staged).into_iter().map(|(k, v)| (RelPath::new(k), v)).collect();
    p.counter = tx.stable_id_counter();
    Ok(Step { output, findings, staged, inverse })
}

fn create(id: &str, width: u32, height: u32) -> Req {
    Req::Create(CreateRegionRequest { id: id.to_string(), width, height, fill: None, spawn: None })
}

fn area(x: u32, y: u32, w: u32, h: u32, terrain: &str) -> Req {
    Req::PaintArea(PaintAreaRequest { region: "town".to_string(), x, y, w, h, terrain: terrain.to_string() })
}

fn collision(x: u32, y: u32, w: u32, h: u32, solid: bool) -> Req {
    Req::SetCollision(SetCollisionRequest { region: "town".to_string(), x, y, w, h, solid })
}

fn npc(id: &str, at: [u32; 2], facing: Facing) -> PlaceNpcRequest {
    PlaceNpcRequest {
        region: "town".to_string(),
        id: id.to_string(),
        at,
        facing,
        human_name: None,
        tags: vec![],
        intent: String::new(),
        constraints: vec![],
    }
}

fn warp(at: [u32; 2], to: &str, to_at: Option<[u32; 2]>) -> Req {
    Req::MarkWarp(MarkWarpRequest { region: "town".to_string(), at, to: WarpTarget { region: to.to_string(), at: to_at } })
}

fn rows(v: &Value) -> Vec<String> {
    v["rows"].as_array().unwrap().iter().map(|r| r.as_str().unwrap().to_string()).collect()
}

#[test]
fn paint_path_l_shape() {
    let mut p = Proj::new();
    run(&mut p, create("town", 8, 8)).unwrap();
    let out = run(
        &mut p,
        Req::PaintPath(PaintPathRequest { region: "town".to_string(), from: [1, 1], to: [3, 4], terrain: None }),
    )
    .unwrap();
    assert_eq!(out.output["tiles_changed"], Value::from(6u64));
    let expected = ["........", ".---....", "...-....", "...-....", "...-....", "........", "........", "........"];
    assert_eq!(rows(&p.file(&terrain_path("region_00001"))), expected, "L-shape: horizontal then vertical");
}

#[test]
fn set_collision_override_survives_paint() {
    let mut p = Proj::new();
    run(&mut p, create("town", 8, 8)).unwrap();
    let out = run(&mut p, collision(2, 2, 1, 2, true)).unwrap();
    assert_eq!(out.output["tiles_changed"], Value::from(2u64));
    run(&mut p, area(2, 2, 1, 2, "path")).unwrap();
    run(&mut p, area(5, 5, 1, 1, "wall")).unwrap();
    run(&mut p, collision(5, 5, 1, 1, false)).unwrap();
    run(&mut p, area(5, 5, 1, 1, "water")).unwrap();
    let c = p.file(&collision_path("region_00001"));
    let expected = ["........", "........", "..#.....", "..#.....", "........", "........", "........", "........"];
    assert_eq!(rows(&c), expected, "overrides survive paints in both directions");
    let overrides = c["overrides"].as_object().unwrap();
    assert_eq!(overrides.get("2,2"), Some(&Value::Bool(true)));
    assert_eq!(overrides.get("2,3"), Some(&Value::Bool(true)));
    assert_eq!(overrides.get("5,5"), Some(&Value::Bool(false)));
}

#[test]
fn mark_warp_unresolved_target_is_non_blocking() {
    let mut p = Proj::new();
    run(&mut p, create("town", 16, 16)).unwrap();
    let out = run(&mut p, warp([15, 8], "route_1", None)).unwrap();
    let finding = out.findings.iter().find(|f| f.code == "rpg.warp.dangling_target").expect("dangling-target finding fires");
    assert!(!finding.blocking, "dangling warp target must be non-blocking");
    assert_eq!(finding.suggested_fixes.len(), 1, "one kernel fix");
    let fix = &finding.suggested_fixes[0];
    assert_eq!(fix.op_id, "rpg.create_region");
    assert_eq!(fix.op_version, 1);
    assert_eq!(to_value(&fix.input)["id"], Value::from("route_1"));
    let region = p.file(&region_path("region_00001"));
    let warps = region["warps"].as_array().unwrap();
    assert_eq!(warps.len(), 1);
    assert_eq!(warps[0]["stable_id"], Value::from("warp_00002"));
    assert_eq!(warps[0]["at"], parsed("[15, 8]"));
    assert_eq!(warps[0]["to"]["region_stable_id"], Value::Null);
    assert_eq!(warps[0]["to"]["region_id"], Value::from("route_1"));
    assert_eq!(warps[0]["to"]["at"], Value::Null);
    assert_eq!(out.output["stable_id"], Value::from("warp_00002"));
}

#[test]
fn mark_warp_refuses_a_destination_outside_the_target_region() {
    let mut p = Proj::new();
    run(&mut p, create("town", 16, 16)).unwrap();
    run(&mut p, create("route_1", 4, 4)).unwrap();
    let refused = run(&mut p, warp([15, 8], "route_1", Some([9, 9])));
    match refused {
        Err(OpError::InvalidRequest(m)) => {
            assert_eq!(m, "spatial.point_out_of_bounds: point (9,9) is outside region \"route_1\" bounds 4x4")
        }
        _ => panic!("expected an invalid-request refusal"),
    }
}

#[test]
fn place_npc_metadata_mandatory() {
    let mut p = Proj::new();
    run(&mut p, create("town", 8, 8)).unwrap();
    let mut req = npc("elder", [3, 3], Facing::Left);
    req.tags = vec!["quest".to_string()];
    req.intent = "greets travellers".to_string();
    req.constraints = vec!["stays put".to_string()];
    let out = run(&mut p, Req::PlaceNpc(req)).unwrap();
    assert_eq!(out.output["stable_id"], Value::from("ent_00002"));
    assert_eq!(out.output["path"], Value::from("entities/npc/ent_00002.json"));
    let entity = p.file(&npc_path("ent_00002"));
    let object = entity.as_object().unwrap();
    for field in ["id", "stable_id", "kind", "tags", "intent", "constraints", "owner_module", "human_name", "facing"] {
        assert!(object.contains_key(field), "entity lacks field {field}");
    }
    assert_eq!(entity["id"], Value::from("elder"));
    assert_eq!(entity["stable_id"], Value::from("ent_00002"));
    assert_eq!(entity["kind"], Value::from("npc"));
    assert_eq!(entity["owner_module"], Value::from("systole.rpg"));
    assert_eq!(entity["tags"], parsed(r#"["quest"]"#));
    assert_eq!(entity["intent"], Value::from("greets travellers"));
    assert_eq!(entity["constraints"], parsed(r#"["stays put"]"#));
    assert_eq!(entity["human_name"], Value::Null);
    assert_eq!(entity["facing"], Value::from("left"));
    assert!(object.get("at").is_none() && object.get("x").is_none() && object.get("y").is_none());
    let region = p.file(&region_path("region_00001"));
    assert_eq!(region["placements"], parsed(r#"[{ "stable_id": "ent_00002", "at": [3, 3], "facing": "left" }]"#));
}

#[test]
fn set_collision_reports_malformed_overrides() {
    let mut p = Proj::new();
    run(&mut p, create("town", 8, 8)).unwrap();
    let key = collision_path("region_00001");
    for entry in p.files.iter_mut() {
        if entry.0.as_str() == key.as_str() {
            let mut v = to_value(&entry.1);
            v["overrides"] = Value::from(7u64);
            entry.1 = from_value(&v);
        }
    }
    let refused = run(&mut p, collision(2, 2, 1, 1, true));
    assert!(matches!(refused, Err(OpError::Diff(_))), "expected a structured diff error");
}

fn restore(files: &[(RelPath, Json)], staged: &[FileChange], inverse: &Json) -> Value {
    let mut out: std::collections::BTreeMap<String, Value> =
        files.iter().map(|(p, v)| (p.as_str().to_string(), to_value(v))).collect();
    let inv = to_value(inverse);
    for change in staged {
        match inv.get(change.path.as_str()) {
            Some(Value::Null) => {
                out.remove(change.path.as_str());
            }
            Some(v) => {
                out.insert(change.path.as_str().to_string(), v.clone());
            }
            None => {}
        }
    }
    serde_json::to_value(out).unwrap()
}

#[test]
fn inverse_data() {
    let mut p = Proj::new();
    let requests = vec![
        ("rpg.create_region", create("town", 8, 8)),
        ("rpg.paint_area", area(1, 1, 2, 2, "wall")),
        (
            "rpg.paint_path",
            Req::PaintPath(PaintPathRequest { region: "town".to_string(), from: [0, 0], to: [3, 3], terrain: None }),
        ),
        ("rpg.set_collision", collision(5, 5, 2, 1, true)),
        ("rpg.place_npc", Req::PlaceNpc(npc("elder", [4, 4], Facing::Down))),
        ("rpg.mark_warp", warp([7, 7], "route_1", None)),
    ];
    for (op, req) in requests {
        let before = files_copy(&p);
        let out = run(&mut p, req).expect("apply succeeds");
        assert!(!out.staged.is_empty(), "{op} staged nothing");
        let inv = to_value(&out.inverse);
        for change in &out.staged {
            let recorded = inv.get(change.path.as_str()).unwrap_or_else(|| panic!("{op}: inverse lacks {}", change.path.as_str()));
            let image = change.before.as_ref().map(to_value).unwrap_or(Value::Null);
            assert_eq!(*recorded, image, "{op}: inverse image is not the before-image");
        }
        let restored = restore(&p.files, &out.staged, &out.inverse);
        let pre: std::collections::BTreeMap<String, Value> =
            before.iter().map(|(k, v)| (k.as_str().to_string(), to_value(v))).collect();
        assert_eq!(
            format_value(&from_value(&restored)),
            format_value(&from_value(&serde_json::to_value(pre).unwrap())),
            "{op}: inverse does not restore the pre-state byte-for-byte"
        );
    }
}

#[test]
fn determinism() {
    let run_all = || {
        let mut p = Proj::new();
        let sequence = vec![
            Req::Create(CreateRegionRequest {
                id: "town".to_string(),
                width: 16,
                height: 16,
                fill: Some("grass".to_string()),
                spawn: Some([1, 1]),
            }),
            area(2, 2, 3, 2, "wall"),
            Req::PaintPath(PaintPathRequest { region: "town".to_string(), from: [1, 1], to: [4, 3], terrain: None }),
            collision(6, 6, 2, 2, false),
            Req::PlaceNpc(npc("elder", [3, 3], Facing::Down)),
            warp([15, 8], "route_1", Some([1, 8])),
        ];
        let mut staged = Vec::new();
        let mut outputs = Vec::new();
        for req in sequence {
            let out = run(&mut p, req).unwrap();
            staged.push(Value::Array(
                out.staged
                    .iter()
                    .map(|c| {
                        Value::Array(vec![
                            Value::from(c.path.as_str()),
                            c.before.as_ref().map(to_value).unwrap_or(Value::Null),
                            c.after.as_ref().map(to_value).unwrap_or(Value::Null),
                        ])
                    })
                    .collect(),
            ));
            outputs.push(out.output);
        }
        let q = QueryRegion.query(&p.files, QueryRegionRequest { region: "town".to_string() }).unwrap();
        outputs.push(obj(vec![("rows", Value::from(q.rows)), ("collision_rows", Value::from(q.collision_rows))]));
        (staged, outputs, p.snapshot())
    };
    assert_eq!(run_all(), run_all());
}
