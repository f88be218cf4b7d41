use serde_json::Value;
use systole::chain::{verify_chain, ChainBreak, GENESIS_PREV_HASH};
use systole::ir::AuditHead;
use systole::json::{format_line, Json};
use systole::revision::digest_of;

fn from_serde(v: &Value) -> Json {
    match v {
        Value::Null => Json::Null,
        Value::Bool(b) => Json::Bool(*b),
        Value::Number(n) => match n.as_u64() {
            Some(u) => Json::UInt(u),
            None => Json::NegInt(n.as_i64().unwrap()),
        },
        Value::String(s) => Json::Str(s.clone()),
        Value::Array(items) => Json::Array(items.iter().map(from_serde).collect()),
        Value::Object(map) => Json::object(map.iter().map(|(k, v)| (k.clone(), from_serde(v))).collect()),
    }
}

/// An entry numbered `n` chained to `prev`, as its serialized value.
fn fake_entry(n: usize, prev: &str) -> Value {
    serde_json::from_str(&format!(
        r#"{{"audit_id": "aud_{n:05}", "transaction_id": "tx_{n}", "timestamp": "1970-01-01T00:00:00Z",
            "actor": "cli_local", "op_id": "fixture.put_note", "op_version": 1, "input_hash": "sha256:x",
            "plan_id": null, "capability": "project.write", "approval": "policy",
            "base_project_revision": "rev_0000{b}", "project_revision": "rev_0000{n}",
            "pre_project_hash": "sha256:a", "post_project_hash": "sha256:b",
            "changes": [{{"path": "entities/note/ent_0000{n}.json", "before": null, "after": {{"text": "hi"}}}}],
            "output": {{"stable_id": "ent_0000{n}"}}, "hash_alg": "sha256", "prev_hash": "{prev}"}}"#,
        b = n - 1
    ))
    .unwrap()
}

fn line_of(v: &Value) -> Vec<u8> {
    format_line(&from_serde(v))
}

fn verify(lines: &[Vec<u8>], head: Option<&AuditHead>) -> Result<(), ChainBreak> {
    let entries: Vec<Result<Json, String>> = lines
        .iter()
        .map(|l| serde_json::from_slice::<Value>(l).map(|v| from_serde(&v)).map_err(|e| e.to_string()))
        .collect();
    verify_chain(&lines.to_vec(), &entries, head)
}

#[test]
fn audit_chain_verifies_and_a_tampered_middle_entry_breaks_it() {
    let e1 = fake_entry(1, GENESIS_PREV_HASH);
    let l1 = line_of(&e1);
    let e2 = fake_entry(2, &digest_of(&l1));
    let l2 = line_of(&e2);
    let e3 = fake_entry(3, &digest_of(&l2));
    let l3 = line_of(&e3);

    let head = AuditHead { id: "aud_00003".into(), hash: digest_of(&l3) };
    verify(&[l1.clone(), l2.clone(), l3.clone()], Some(&head)).expect("clean chain verifies");

    // Tamper with the middle entry, keeping the line canonical: the successor's
    // prev_hash then disagrees — the first bad entry is aud_00003 at index 2.
    let mut tampered = e2.clone();
    tampered["output"] = serde_json::from_str(r#"{"stable_id": "ent_99999"}"#).unwrap();
    let l2t = line_of(&tampered);
    let brk = verify(&[l1.clone(), l2t, l3.clone()], Some(&head)).expect_err("tampered chain must break");
    assert_eq!(brk.index, 2, "the first entry that fails verification is the successor");
    assert_eq!(brk.audit_id.as_deref(), Some("aud_00003"));
    assert!(brk.reason.contains("prev_hash"), "{}", brk.reason);

    // A tampered audit_id breaks at the tampered entry itself.
    let mut tampered_id = e2.clone();
    tampered_id["audit_id"] = Value::String("aud_00007".into());
    let l2i = line_of(&tampered_id);
    let brk2 = verify(&[l1.clone(), l2i, l3.clone()], Some(&head)).expect_err("id tamper must break");
    assert_eq!(brk2.index, 1);
    assert_eq!(brk2.reason, "audit_id out of sequence: expected aud_00002");
}

#[test]
fn the_head_must_name_the_last_line() {
    let e1 = fake_entry(1, GENESIS_PREV_HASH);
    let l1 = line_of(&e1);
    assert!(verify(&[], None).is_ok(), "an empty log with a null head verifies");
    let brk = verify(&[l1.clone()], None).unwrap_err();
    assert_eq!(brk.reason, "entries exist but audit_head is null");
    let stale = AuditHead { id: "aud_00001".into(), hash: "sha256:stale".into() };
    let brk = verify(&[l1.clone()], Some(&stale)).unwrap_err();
    assert_eq!(brk.index, 0);
    assert!(brk.reason.starts_with("audit_head aud_00001 / sha256:stale does not match last entry aud_00001 / sha256:"));
    let brk = verify(&[], Some(&stale)).unwrap_err();
    assert_eq!(brk.reason, "audit_head is set but the log is empty");
    assert_eq!(brk.message(), "audit chain broken at aud_00001: audit_head is set but the log is empty");
}

#[test]
fn unparseable_and_non_canonical_lines_break_the_chain() {
    let e1 = fake_entry(1, GENESIS_PREV_HASH);
    let pretty = serde_json::to_vec_pretty(&e1).unwrap();
    let brk = verify(&[pretty], None).unwrap_err();
    assert_eq!(brk.reason, "entry is not in canonical line form");
    let brk = verify(&[b"{not json".to_vec()], None).unwrap_err();
    assert!(brk.reason.starts_with("unparseable entry: "));
    assert_eq!(brk.audit_id, None);
    assert!(brk.message().starts_with("audit chain broken at line 1: unparseable entry"));
}

#[test]
fn an_out_of_project_target_breaks_the_chain() {
    let mut e1 = fake_entry(1, GENESIS_PREV_HASH);
    e1["changes"][0]["path"] = Value::String("../outside.json".into());
    let brk = verify(&[line_of(&e1)], None).unwrap_err();
    assert_eq!(brk.reason, "entry records an out-of-project target");
}
