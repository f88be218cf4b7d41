use systole::json::{format_value, Json};
use systole::revision::{blanked_manifest, bump_revision, digest_of, digest_table, project_hash, verify_integrity};

fn manifest(revision: &str, head: Json) -> Json {
    Json::object(vec![
        ("audit_head".to_string(), head),
        ("project_hash".to_string(), Json::Str("sha256:abc".to_string())),
        ("project_revision".to_string(), Json::Str(revision.to_string())),
        ("stable_id_counter".to_string(), Json::UInt(3)),
    ])
}

#[test]
fn project_hash_excludes_history_dirs_and_blanked_manifest_fields() {
    let a = blanked_manifest(&manifest("rev_00000", Json::Null));
    let head = Json::object(vec![
        ("hash".to_string(), Json::Str("sha256:deadbeef".to_string())),
        ("id".to_string(), Json::Str("aud_00001".to_string())),
    ]);
    let b = blanked_manifest(&manifest("rev_99999", head));
    assert_eq!(format_value(&a), format_value(&b), "revision and audit_head must be blanked before hashing");
    assert!(matches!(a.get("project_hash"), Some(Json::Null)));
    assert!(matches!(a.get("project_revision"), Some(Json::Null)));
    assert!(matches!(a.get("audit_head"), Some(Json::Null)));
    assert!(matches!(a.get("stable_id_counter"), Some(Json::UInt(3))));
}

fn domain() -> Vec<(String, Vec<u8>)> {
    vec![
        ("project.systole.json".to_string(), b"{}\n".to_vec()),
        ("regions/region_00001/region.json".to_string(), b"{\"id\": \"town\"}\n".to_vec()),
        ("systole.lock.json".to_string(), b"{\"lock\": 1}\n".to_vec()),
    ]
}

fn table_of(d: &Vec<(String, Vec<u8>)>) -> Vec<(String, String)> {
    let others: Vec<(String, Vec<u8>)> = d.iter().filter(|(p, _)| p != "project.systole.json").cloned().collect();
    digest_table(&others)
}

#[test]
fn a_project_matching_its_recorded_hash_verifies() {
    let d = domain();
    let hash = project_hash(&d);
    assert!(verify_integrity(&d, &hash, &table_of(&d)).is_ok());
}

#[test]
fn a_changed_file_is_named_with_both_hashes() {
    let d = domain();
    let recorded = project_hash(&d);
    let table = table_of(&d);
    let mut edited = d.clone();
    edited[1].1 = b"{\"id\": \"city\"}\n".to_vec();
    let err = verify_integrity(&edited, &recorded, &table).unwrap_err();
    assert_eq!(err.expected, recorded);
    assert_eq!(err.actual, project_hash(&edited));
    let changed: Vec<&str> = err.changed.iter().map(|p| p.as_str()).collect();
    assert_eq!(changed, vec!["regions/region_00001/region.json"]);
    assert_eq!(err.message(), "project files changed outside a transaction (regions/region_00001/region.json)");
}

#[test]
fn a_deleted_file_and_a_new_file_are_both_named() {
    let d = domain();
    let recorded = project_hash(&d);
    let table = table_of(&d);
    let edited = vec![
        d[0].clone(),
        ("regions/region_00002/region.json".to_string(), b"{}\n".to_vec()),
        d[2].clone(),
    ];
    let err = verify_integrity(&edited, &recorded, &table).unwrap_err();
    let changed: Vec<&str> = err.changed.iter().map(|p| p.as_str()).collect();
    assert_eq!(changed, vec!["regions/region_00002/region.json", "regions/region_00001/region.json"]);
}

#[test]
fn when_no_file_differs_the_manifest_is_named() {
    let d = domain();
    let table = table_of(&d);
    let err = verify_integrity(&d, "sha256:0000", &table).unwrap_err();
    let changed: Vec<&str> = err.changed.iter().map(|p| p.as_str()).collect();
    assert_eq!(changed, vec!["project.systole.json"]);
}

#[test]
fn the_digest_table_records_each_file() {
    let d = domain();
    let table = digest_table(&d);
    assert_eq!(table.len(), 3);
    assert_eq!(table[1].0, "regions/region_00001/region.json");
    assert_eq!(table[1].1, digest_of(b"{\"id\": \"town\"}\n"));
    assert!(table[1].1.starts_with("sha256:"));
    assert_eq!(table[1].1.len(), 7 + 64);
}

#[test]
fn a_revision_bumps_to_the_next_padded_number() {
    assert_eq!(bump_revision("rev_00000").as_deref(), Some("rev_00001"));
    assert_eq!(bump_revision("rev_00041").as_deref(), Some("rev_00042"));
    assert_eq!(bump_revision("rev_99999").as_deref(), Some("rev_100000"));
    assert_eq!(bump_revision("rev_x"), None);
    assert_eq!(bump_revision("revision_1"), None);
    assert_eq!(bump_revision("rev_18446744073709551615"), None);
}
