use serde_json::Value;
use systole::finding::Finding;
use systole::integrity::{ReferenceIntegrity, CODE_DUPLICATE_HANDLE, CODE_KIND_MISMATCH, CODE_STABLE_ID_MISMATCH, CODE_UNRESOLVED};
use systole::ir::RelPath;
use systole::json::Json;

fn from_serde(v: &Value) -> Json {
    match v {
        Value::Null => Json::Null,
        Value::Bool(b) => Json::Bool(*b),
        Value::Number(n) => match n.as_u64() {
            Some(u) => Json::UInt(u),
            None => Json::NegInt(n.as_i64().unwrap()),
        },
        Value::String(s) => Json::Str(s.clone()),
        Value::Array(items) => Json::Array(items.iter().map(from_serde).collect()),
        Value::Object(map) => Json::object(map.iter().map(|(k, v)| (k.clone(), from_serde(v))).collect()),
    }
}

fn to_serde(j: &Json) -> Value {
    serde_json::from_slice(&systole::json::format_value(j)).unwrap()
}

/// The files (path, value) in path order, from JSON texts.
fn project(files: Vec<(&str, Value)>) -> Vec<(RelPath, Json)> {
    let mut files: Vec<(String, Value)> = files.into_iter().map(|(p, v)| (p.to_string(), v)).collect();
    files.sort_by(|a, b| a.0.cmp(&b.0));
    files.into_iter().map(|(p, v)| (RelPath::new(p), from_serde(&v))).collect()
}

fn value(text: &str) -> Value {
    serde_json::from_str(text).unwrap()
}

fn town() -> Value {
    value(
        r#"{
        "id": "town", "stable_id": "region_00001", "kind": "region",
        "placements": [{"stable_id": "ent_00002", "at": [5, 5], "facing": "down"}],
        "warps": [{"stable_id": "warp_00003", "at": [15, 8],
                   "to": {"region_id": "route_1", "region_stable_id": "region_00004", "at": null}}]
    }"#,
    )
}

fn clean_files(town: Value) -> Vec<(RelPath, Json)> {
    project(vec![
        ("regions/region_00001/region.json", town),
        ("entities/npc/ent_00002.json", value(r#"{"id": "elder", "stable_id": "ent_00002", "kind": "npc"}"#)),
        (
            "regions/region_00004/region.json",
            value(r#"{"id": "route_1", "stable_id": "region_00004", "kind": "region", "placements": [], "warps": []}"#),
        ),
    ])
}

fn codes(findings: &[Finding]) -> Vec<&str> {
    findings.iter().map(|f| f.code.as_str()).collect()
}

#[test]
fn a_clean_project_yields_no_findings() {
    let findings = ReferenceIntegrity.run(&clean_files(town()));
    assert!(findings.is_empty(), "unexpected: {findings:?}");
}

#[test]
fn an_unresolved_placement_reference_is_a_blocking_finding() {
    let mut t = town();
    t["placements"][0]["stable_id"] = Value::String("ent_09999".to_string());
    let findings = ReferenceIntegrity.run(&clean_files(t));
    assert_eq!(codes(&findings), vec![CODE_UNRESOLVED]);
    assert!(findings[0].blocking);
    let evidence = to_serde(&findings[0].evidence);
    assert_eq!(evidence["pointer"], "/placements/0/stable_id");
    assert_eq!(evidence["value"], "ent_09999");
    assert!(findings[0].suggested_fixes.is_empty());
    assert!(evidence["message"].as_str().is_some_and(|m| m.contains("doctor")));
}

#[test]
fn a_reference_to_the_wrong_kind_is_kind_mismatch() {
    let mut t = town();
    t["warps"][0]["to"]["region_stable_id"] = Value::String("ent_00002".to_string());
    let findings = ReferenceIntegrity.run(&clean_files(t));
    assert_eq!(codes(&findings), vec![CODE_KIND_MISMATCH]);
    let evidence = to_serde(&findings[0].evidence);
    assert_eq!(evidence["expected_kind"], "region");
    assert_eq!(evidence["actual_kind"], "ent");
}

#[test]
fn a_stable_id_that_disagrees_with_its_path_is_a_mismatch() {
    let files = project(vec![
        ("regions/region_00001/region.json", town()),
        ("entities/npc/ent_00002.json", value(r#"{"id": "elder", "stable_id": "ent_00004", "kind": "npc"}"#)),
        (
            "regions/region_00004/region.json",
            value(r#"{"id": "route_1", "stable_id": "region_00004", "kind": "region", "placements": [], "warps": []}"#),
        ),
    ]);
    let findings = ReferenceIntegrity.run(&files);
    // The placement still references ent_00002, which nothing declares
    // now — both findings are truthful (sorted by finding_id).
    let mut got = codes(&findings);
    got.sort_unstable();
    assert_eq!(got, vec![CODE_STABLE_ID_MISMATCH, CODE_UNRESOLVED]);
}

#[test]
fn two_objects_of_one_kind_sharing_a_handle_is_a_duplicate() {
    let files = project(vec![
        ("entities/npc/ent_00001.json", value(r#"{"id": "elder", "stable_id": "ent_00001", "kind": "npc"}"#)),
        ("entities/npc/ent_00002.json", value(r#"{"id": "elder", "stable_id": "ent_00002", "kind": "npc"}"#)),
        ("entities/item/ent_00003.json", value(r#"{"id": "elder", "stable_id": "ent_00003", "kind": "item"}"#)),
    ]);
    let findings = ReferenceIntegrity.run(&files);
    assert_eq!(codes(&findings), vec![CODE_DUPLICATE_HANDLE]);
    let evidence = to_serde(&findings[0].evidence);
    assert_eq!(evidence["id"], "elder");
    assert_eq!(evidence["paths"].as_array().unwrap().len(), 2);
    assert_eq!(evidence["paths"][0], "entities/npc/ent_00001.json");
}

#[test]
fn a_null_reference_emits_nothing() {
    let mut t = town();
    t["warps"][0]["to"]["region_stable_id"] = Value::Null;
    assert!(ReferenceIntegrity.run(&clean_files(t)).is_empty());
}

#[test]
fn finding_ids_are_deterministic_and_evidence_bound() {
    let mut t = town();
    t["placements"][0]["stable_id"] = Value::String("ent_09999".to_string());
    let a = ReferenceIntegrity.run(&clean_files(t.clone()));
    let b = ReferenceIntegrity.run(&clean_files(t));
    assert_eq!(a[0].finding_id, b[0].finding_id);
    assert!(a[0].finding_id.starts_with("finding_"));
    let mut u = town();
    u["warps"][0]["to"]["region_stable_id"] = Value::String("ent_09999".to_string());
    let c = ReferenceIntegrity.run(&clean_files(u));
    assert_ne!(a[0].finding_id, c[0].finding_id);
}

#[test]
fn findings_come_sorted_by_finding_id() {
    let mut t = town();
    t["placements"][0]["stable_id"] = Value::String("ent_09999".to_string());
    t["warps"][0]["to"]["region_stable_id"] = Value::String("ent_00002".to_string());
    t["extra_stable_id"] = Value::String("flag_00001".to_string());
    let findings = ReferenceIntegrity.run(&clean_files(t));
    assert_eq!(findings.len(), 3);
    let ids: Vec<&str> = findings.iter().map(|f| f.finding_id.as_str()).collect();
    let mut sorted = ids.clone();
    sorted.sort();
    assert_eq!(ids, sorted);
}

#[test]
fn the_validator_names_itself() {
    assert_eq!(ReferenceIntegrity.id(), "core.reference_integrity");
}

#[test]
fn every_integrity_finding_is_a_fixless_blocking_error_at_a_file() {
    let files = project(vec![
        ("regions/region_00001/region.json", town()),
        ("entities/npc/ent_00002.json", value(r#"{"id": "elder", "stable_id": "ent_00004", "kind": "npc"}"#)),
        ("entities/npc/ent_00005.json", value(r#"{"id": "elder", "stable_id": "ent_00005", "kind": "npc"}"#)),
    ]);
    let findings = ReferenceIntegrity.run(&files);
    assert!(findings.len() >= 2);
    for f in &findings {
        assert!(f.blocking);
        assert_eq!(f.severity, systole::finding::Severity::Error);
        assert!(f.suggested_fixes.is_empty());
        assert!(f.location.path.is_some());
        assert_eq!(f.finding_id, systole::finding::finding_id(&f.code, &f.location, &f.evidence));
    }
    for pair in findings.windows(2) {
        assert!(pair[0].finding_id <= pair[1].finding_id);
    }
}
