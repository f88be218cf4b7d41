use systole::commit::CommitError;
use systole::ir::RelPath;
use systole::json::{format_line, format_value, Json};
use systole::op::FileChange;
use systole::prepare::{change_json, prepare_commit, CommitMeta};
use systole::revision::{digest_of, project_hash};

fn text(s: &str) -> Json {
    Json::Str(s.to_string())
}

fn manifest(revision: &str) -> Json {
    Json::object(vec![
        ("audit_head".to_string(), Json::Null),
        ("files".to_string(), Json::object(vec![])),
        ("project_hash".to_string(), text("sha256:before")),
        ("project_revision".to_string(), text(revision)),
        ("stable_id_counter".to_string(), Json::UInt(0)),
    ])
}

fn meta(plan_id: Option<&str>, rollback_of: Option<&str>) -> CommitMeta {
    CommitMeta {
        actor: "cli_local".to_string(),
        op_id: "fixture.put_note".to_string(),
        op_version: 1,
        input: Json::object(vec![("text".to_string(), text("hi"))]),
        plan_id: plan_id.map(str::to_string),
        capability: "project.write".to_string(),
        approval: "allow".to_string(),
        rollback_of: rollback_of.map(str::to_string),
        output: Json::object(vec![("stable_id".to_string(), text("ent_00001"))]),
    }
}

fn note_write() -> FileChange {
    FileChange {
        path: RelPath::new("entities/note/ent_00001.json".to_string()),
        before: None,
        after: Some(Json::object(vec![("text".to_string(), text("hi"))])),
    }
}

fn domain() -> Vec<(String, Vec<u8>)> {
    vec![
        ("entities/note/ent_00001.json".to_string(), b"{\n  \"text\": \"hi\"\n}\n".to_vec()),
        ("systole.lock.json".to_string(), b"{}\n".to_vec()),
    ]
}

fn field<'a>(v: &'a Json, key: &str) -> &'a Json {
    v.get(key).unwrap_or_else(|| panic!("missing {key}"))
}

fn text_of(v: &Json) -> &str {
    v.as_text().expect("a string").as_str()
}

#[test]
fn a_commit_advances_the_revision_and_chains_its_entry() {
    let writes = vec![note_write()];
    let p = prepare_commit(
        &writes,
        &vec![note_write()],
        &manifest("rev_00000"),
        &domain(),
        1,
        0,
        "sha256:genesis",
        "2026-01-01T00:00:00Z",
        meta(Some("plan_abc"), None),
    )
    .unwrap();
    assert!(p.transaction_id.starts_with("tx_"));
    assert_eq!(p.transaction_id.len(), 3 + 16);
    let e = &p.entry;
    assert_eq!(text_of(field(e, "audit_id")), "aud_00001");
    assert_eq!(text_of(field(e, "transaction_id")), p.transaction_id);
    assert_eq!(text_of(field(e, "base_project_revision")), "rev_00000");
    assert_eq!(text_of(field(e, "project_revision")), "rev_00001");
    assert_eq!(text_of(field(e, "pre_project_hash")), "sha256:before");
    assert_eq!(text_of(field(e, "prev_hash")), "sha256:genesis");
    assert_eq!(text_of(field(e, "plan_id")), "plan_abc");
    assert_eq!(text_of(field(e, "hash_alg")), "sha256");
    assert_eq!(text_of(field(e, "timestamp")), "2026-01-01T00:00:00Z");
    assert!(e.get("rollback_of").is_none(), "no rollback_of unless the entry is a rollback");
    assert!(matches!(field(e, "op_version"), Json::UInt(1)));
    match field(e, "changes") {
        Json::Array(items) => {
            assert_eq!(items.len(), 1);
            assert_eq!(format_value(&items[0]), format_value(&change_json(&note_write())));
        }
        _ => panic!("changes is an array"),
    }
    let m = &p.manifest;
    assert_eq!(text_of(field(m, "project_revision")), "rev_00001");
    assert!(matches!(field(m, "stable_id_counter"), Json::UInt(1)));
    assert_eq!(text_of(field(m, "project_hash")), text_of(field(e, "post_project_hash")));
    let head = field(m, "audit_head");
    assert_eq!(text_of(field(head, "id")), "aud_00001");
    assert_eq!(text_of(field(head, "hash")), digest_of(&format_line(e)));
    let table = field(m, "files");
    assert_eq!(text_of(field(table, "systole.lock.json")), digest_of(b"{}\n"));
    assert_eq!(p.files.files.len(), 2);
    assert_eq!(p.files.files[1].path, "project.systole.json");
    assert_eq!(p.files.temp_writes[1].2, format_value(m));
    assert!(p.files.deletes.is_empty());
}

#[test]
fn the_post_hash_covers_the_domain_with_the_blanked_manifest() {
    let p = prepare_commit(
        &vec![note_write()],
        &vec![note_write()],
        &manifest("rev_00003"),
        &domain(),
        7,
        3,
        "sha256:prev",
        "2026-01-01T00:00:00Z",
        meta(None, Some("aud_00003")),
    )
    .unwrap();
    let blanked = systole::revision::blanked_manifest(&p.manifest);
    let d = domain();
    let full = vec![
        d[0].clone(),
        ("project.systole.json".to_string(), format_value(&blanked)),
        d[1].clone(),
    ];
    assert_eq!(text_of(field(&p.manifest, "project_hash")), project_hash(&full));
    assert_eq!(text_of(field(&p.entry, "audit_id")), "aud_00004");
    assert_eq!(text_of(field(&p.entry, "rollback_of")), "aud_00003");
    assert!(matches!(field(&p.entry, "plan_id"), Json::Null));
}

#[test]
fn an_empty_write_set_is_refused() {
    let res = prepare_commit(&vec![], &vec![], &manifest("rev_00000"), &domain(), 0, 0, "h", "t", meta(None, None));
    assert!(matches!(res, Err(CommitError::NoChanges)));
}

#[test]
fn an_escaping_path_is_refused() {
    let bad = FileChange { path: RelPath::new("../outside.json".to_string()), before: None, after: Some(Json::Null) };
    let res = prepare_commit(&vec![bad], &vec![], &manifest("rev_00000"), &domain(), 0, 0, "h", "t", meta(None, None));
    match res {
        Err(CommitError::PathEscapes { path }) => assert_eq!(path, "../outside.json"),
        other => panic!("{other:?}"),
    }
}

#[test]
fn a_malformed_revision_is_refused() {
    let res = prepare_commit(&vec![note_write()], &vec![], &manifest("r7"), &domain(), 0, 0, "h", "t", meta(None, None));
    match res {
        Err(CommitError::BadRevision(r)) => assert_eq!(r, "r7"),
        other => panic!("{other:?}"),
    }
}
