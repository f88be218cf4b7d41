use serde_json::Value;
use systole::chain::GENESIS_PREV_HASH;
use systole::commit::PendingFile;
use systole::doctor::{
    admit_marker, authenticate_marker, file_state, manifest_restore, rejection, resolve, torn_tail,
    FileState,
};
use systole::doctor::{external_edit_rows, rollback_actions, RestoreAction};
use systole::ir::{RelPath, MANIFEST_FILE};
use systole::json::{format_line, Json};
use systole::op::FileChange;
use systole::revision::digest_of;

fn from_serde(v: &Value) -> Json {
    match v {
        Value::Null => Json::Null,
        Value::Bool(b) => Json::Bool(*b),
        Value::Number(n) => match n.as_u64() {
            Some(u) => Json::UInt(u),
            None => Json::NegInt(n.as_i64().unwrap()),
        },
        Value::String(s) => Json::Str(s.clone()),
        Value::Array(items) => Json::Array(items.iter().map(from_serde).collect()),
        Value::Object(map) => Json::object(map.iter().map(|(k, v)| (k.clone(), from_serde(v))).collect()),
    }
}

fn entry(n: usize, prev: &str, plan: Option<&str>) -> Json {
    let plan = match plan {
        Some(p) => format!("\"{p}\""),
        None => "null".to_string(),
    };
    from_serde(
        &serde_json::from_str(&format!(
            r#"{{"audit_id": "aud_{n:05}", "transaction_id": "tx_{n}", "plan_id": {plan},
                "base_project_revision": "rev_base", "project_revision": "rev_post",
                "changes": [], "prev_hash": "{prev}"}}"#
        ))
        .unwrap(),
    )
}

fn staged(path: &str, temp: &str, post: &[u8]) -> PendingFile {
    PendingFile {
        path: path.to_string(),
        temp_path: Some(temp.to_string()),
        expected_post_hash: Some(digest_of(post)),
    }
}

#[test]
fn file_state_distinguishes_in_place_staged_and_incomplete() {
    let f = staged("entities/a.json", "entities/.a.json.tx_1.tmp", b"post");
    assert_eq!(file_state(&f, Some(b"post".to_vec()), None, true), FileState::InPlace);
    assert_eq!(file_state(&f, Some(b"pre".to_vec()), Some(b"post".to_vec()), true), FileState::Staged);
    assert_eq!(file_state(&f, Some(b"pre".to_vec()), Some(b"partial".to_vec()), true), FileState::Incomplete);
    assert_eq!(file_state(&f, None, None, false), FileState::Incomplete);
}

#[test]
fn a_deletion_is_in_place_once_the_target_is_gone() {
    let f = PendingFile { path: "entities/a.json".into(), temp_path: None, expected_post_hash: None };
    assert_eq!(file_state(&f, None, None, false), FileState::InPlace);
    assert_eq!(file_state(&f, Some(b"x".to_vec()), None, true), FileState::Incomplete);
}

#[test]
fn torn_tail_truncates_a_prefix_of_the_claimed_line() {
    let line = b"{\"audit_id\":\"aud_00002\"}\n".to_vec();
    let mut log = b"{\"a\":1}\n".to_vec();
    assert_eq!(torn_tail(&log, &line), Ok(None));
    log.extend_from_slice(b"{\"audit_id\":\"au");
    assert_eq!(torn_tail(&log, &line), Ok(Some(8)));
    let mut forged = b"{\"a\":1}\n".to_vec();
    forged.extend_from_slice(b"{\"audit_id\":\"x");
    assert_eq!(torn_tail(&forged, &line), Err(()));
    assert_eq!(torn_tail(&Vec::new(), &line), Ok(None));
    // A fragment with no newline before it starts at byte 0.
    assert_eq!(torn_tail(&b"{\"audit".to_vec(), &line), Ok(Some(0)));
}

#[test]
fn a_fresh_marker_authenticates_as_not_yet_appended() {
    let e = entry(1, GENESIS_PREV_HASH, None);
    assert_eq!(authenticate_marker("tx_1", &None, &e, &Vec::new(), &None, "rev_base"), Ok(false));
    assert_eq!(authenticate_marker("tx_1", &None, &e, &Vec::new(), &None, "rev_post"), Ok(false));
    assert_eq!(
        authenticate_marker("tx_1", &None, &e, &Vec::new(), &None, "rev_other"),
        Err("manifest revision matches neither the entry's base nor post revision".to_string())
    );
}

#[test]
fn an_appended_entry_must_match_the_tail_byte_for_byte() {
    let e = entry(1, GENESIS_PREV_HASH, None);
    let lines = vec![format_line(&e)];
    assert_eq!(authenticate_marker("tx_1", &None, &e, &lines, &Some(Ok(e.duplicate())), "rev_post"), Ok(true));
    let other = entry(1, "sha256:forged", None);
    assert_eq!(
        authenticate_marker("tx_1", &None, &other, &lines, &Some(Ok(e.duplicate())), "rev_post"),
        Err("appended entry differs from the marker's claim".to_string())
    );
}

#[test]
fn marker_claims_are_checked_against_the_chain() {
    let e1 = entry(1, GENESIS_PREV_HASH, None);
    let l1 = format_line(&e1);
    let lines = vec![l1.clone()];
    let last = Some(Ok(e1.duplicate()));
    let e2 = entry(2, &digest_of(&l1), Some("plan_7"));
    assert_eq!(authenticate_marker("tx_2", &Some("plan_7".into()), &e2, &lines, &last, "rev_base"), Ok(false));
    assert_eq!(
        authenticate_marker("tx_9", &Some("plan_7".into()), &e2, &lines, &last, "rev_base"),
        Err("marker/entry transaction_id mismatch".to_string())
    );
    assert_eq!(
        authenticate_marker("tx_2", &None, &e2, &lines, &last, "rev_base"),
        Err("marker/entry plan_id mismatch".to_string())
    );
    let e3 = entry(3, &digest_of(&l1), None);
    assert_eq!(
        authenticate_marker("tx_3", &None, &e3, &lines, &last, "rev_base"),
        Err("entry aud_00003 is not the chain's next id".to_string())
    );
    let bad_prev = entry(2, GENESIS_PREV_HASH, None);
    assert_eq!(
        authenticate_marker("tx_2", &None, &bad_prev, &lines, &last, "rev_base"),
        Err("entry prev_hash does not match the log tail".to_string())
    );
    assert_eq!(
        authenticate_marker("tx_2", &None, &e2, &lines, &Some(Err("eof".into())), "rev_base"),
        Err("marker/entry plan_id mismatch".to_string())
    );
    let e2_no_plan = entry(2, &digest_of(&l1), None);
    assert_eq!(
        authenticate_marker("tx_2", &None, &e2_no_plan, &lines, &Some(Err("eof".into())), "rev_base"),
        Err("log tail is unparseable — cannot authenticate: eof".to_string())
    );
}

#[test]
fn resolution_completes_rolls_back_or_refuses() {
    let done = vec![FileState::InPlace, FileState::Staged];
    assert_eq!(resolve("tx_1", "aud_00001", &done, false), Ok(true));
    assert_eq!(resolve("tx_1", "aud_00001", &done, true), Ok(true));
    let partial = vec![FileState::Staged, FileState::Incomplete];
    assert_eq!(resolve("tx_1", "aud_00001", &partial, false), Ok(false));
    assert_eq!(
        resolve("tx_1", "aud_00001", &partial, true),
        Err("tx_1: entry aud_00001 is already appended but not every post-state file is on disk — refusing to roll back a recorded transaction".to_string())
    );
    assert_eq!(resolve("tx_1", "aud_00001", &Vec::new(), false), Ok(true));
}

#[test]
fn manifest_rollback_rewrites_only_when_needed() {
    let pre = Some(b"{}\n".to_vec());
    assert_eq!(manifest_restore(&pre, &Some(b"{}\n".to_vec()), true), Ok(false));
    assert_eq!(manifest_restore(&pre, &Some(b"{\"x\":1}\n".to_vec()), true), Ok(true));
    assert_eq!(manifest_restore(&pre, &None, false), Ok(true));
    assert_eq!(manifest_restore(&None, &None, true), Err(()));
    assert_eq!(manifest_restore(&None, &None, false), Ok(false));
}

#[test]
fn markers_are_admitted_only_inside_the_project_under_their_own_name() {
    let ok = vec![staged("entities/a.json", "entities/.a.json.tx_1.tmp", b"x")];
    assert_eq!(admit_marker("tx_1", "tx_1", &ok), Ok(()));
    let escaping = vec![staged("../etc/passwd", "entities/.tmp", b"x")];
    assert_eq!(
        admit_marker("tx_1", "tx_1", &escaping),
        Err("tx_1.json: records a file target outside the project root".to_string())
    );
    let bad_temp = vec![staged("entities/a.json", "/tmp/a", b"x")];
    assert!(admit_marker("tx_1", "tx_1", &bad_temp).is_err());
    assert_eq!(
        admit_marker("tx_1", "../tx_1", &ok),
        Err("tx_1.json: marker claims transaction_id \"../tx_1\"".to_string())
    );
    assert_eq!(rejection("tx_1", "why"), "tx_1: why");
}

#[test]
fn absorbed_edits_record_recorded_and_observed_digests() {
    let changed = vec![
        RelPath::new("entities/note/ent_00001.json".to_string()),
        RelPath::new("entities/note/ent_00002.json".to_string()),
        RelPath::new("entities/note/ent_00003.json".to_string()),
    ];
    let recorded = vec![
        ("entities/note/ent_00001.json".to_string(), "sha256:old1".to_string()),
        ("entities/note/ent_00002.json".to_string(), "sha256:old2".to_string()),
    ];
    let observed = vec![Some(b"edited\n".to_vec()), None, Some(b"new\n".to_vec())];
    let rows = external_edit_rows(&changed, &recorded, &observed);
    assert_eq!(rows.len(), 3);
    assert_eq!(rows[0].path.as_str(), "entities/note/ent_00001.json");
    assert_eq!(rows[0].before.as_ref().map(format_line), Some(format_line(&Json::Str("sha256:old1".to_string()))));
    assert_eq!(rows[0].after.as_ref().map(format_line), Some(format_line(&Json::Str(digest_of(b"edited\n")))));
    assert_eq!(rows[1].before.as_ref().map(format_line), Some(format_line(&Json::Str("sha256:old2".to_string()))));
    assert_eq!(rows[1].after.as_ref().map(format_line), Some(format_line(&Json::Null)));
    assert_eq!(rows[2].before.as_ref().map(format_line), Some(format_line(&Json::Null)));
    assert_eq!(rows[2].after.as_ref().map(format_line), Some(format_line(&Json::Str(digest_of(b"new\n")))));
}

#[test]
fn rolling_back_restores_only_landed_renames() {
    let file = |p: &str, temp: bool| PendingFile {
        path: p.to_string(),
        temp_path: if temp { Some(format!("{p}.tmp")) } else { None },
        expected_post_hash: None,
    };
    let files = vec![
        file("entities/note/ent_00001.json", true),
        file("entities/note/ent_00002.json", true),
        file("entities/note/ent_00003.json", false),
        file(MANIFEST_FILE, true),
    ];
    let states = vec![FileState::InPlace, FileState::InPlace, FileState::InPlace, FileState::InPlace];
    let changes = vec![
        FileChange {
            path: RelPath::new("entities/note/ent_00001.json".to_string()),
            before: Some(Json::Str("old".to_string())),
            after: Some(Json::Str("new".to_string())),
        },
        FileChange { path: RelPath::new("entities/note/ent_00002.json".to_string()), before: None, after: Some(Json::Null) },
        FileChange {
            path: RelPath::new("entities/note/ent_00003.json".to_string()),
            before: Some(Json::Str("gone".to_string())),
            after: None,
        },
    ];
    let actions = rollback_actions(&files, &states, &changes);
    assert_eq!(actions.len(), 4);
    assert!(matches!(&actions[0], RestoreAction::Write(Json::Str(s)) if s == "old"));
    assert!(matches!(&actions[1], RestoreAction::Remove));
    assert!(matches!(&actions[2], RestoreAction::Write(Json::Str(s)) if s == "gone"));
    assert!(matches!(&actions[3], RestoreAction::Keep));

    let states = vec![FileState::Staged, FileState::Incomplete, FileState::InPlace, FileState::InPlace];
    let actions = rollback_actions(&files, &states, &changes);
    assert!(matches!(&actions[0], RestoreAction::Keep));
    assert!(matches!(&actions[1], RestoreAction::Keep));
    assert!(matches!(&actions[2], RestoreAction::Write(_)));
}
