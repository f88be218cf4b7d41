use serde_json::Value;
use systole::json::Json;
use systole::rollback::{rollback_changes, RollbackRefusal};

fn from_serde(v: &Value) -> Json {
    match v {
        Value::Null => Json::Null,
        Value::Bool(b) => Json::Bool(*b),
        Value::Number(n) => match n.as_u64() {
            Some(u) => Json::UInt(u),
            None => Json::NegInt(n.as_i64().unwrap()),
        },
        Value::String(s) => Json::Str(s.clone()),
        Value::Array(items) => Json::Array(items.iter().map(from_serde).collect()),
        Value::Object(map) => Json::object(map.iter().map(|(k, v)| (k.clone(), from_serde(v))).collect()),
    }
}

fn entry(op: &str, path: &str) -> Json {
    from_serde(
        &serde_json::from_str::<Value>(&format!(
            r#"{{"audit_id": "aud_00002", "op_id": "{op}",
                "changes": [{{"path": "{path}", "before": null, "after": {{"text": "hi"}}}},
                            {{"path": "entities/b.json", "before": {{"n": 1}}, "after": null}}]}}"#
        ))
        .unwrap(),
    )
}

fn text(j: &Option<Json>) -> Option<String> {
    j.as_ref().map(|v| String::from_utf8(systole::json::format_line(v)).unwrap())
}

#[test]
fn rollback_swaps_each_recorded_image() {
    let e = entry("fixture.put_note", "entities/a.json");
    let cs = rollback_changes("aud_00002", &Some("aud_00002".into()), 2, &Some(e)).unwrap();
    assert_eq!(cs.len(), 2);
    assert_eq!(cs[0].path.as_str(), "entities/a.json");
    assert_eq!(text(&cs[0].before).as_deref(), Some("{\"text\":\"hi\"}"));
    assert!(cs[0].after.is_none());
    assert!(cs[1].before.is_none());
    assert_eq!(text(&cs[1].after).as_deref(), Some("{\"n\":1}"));
}

#[test]
fn only_the_head_rolls_back() {
    let e = entry("fixture.put_note", "entities/a.json");
    match rollback_changes("aud_00001", &Some("aud_00002".into()), 2, &Some(e)) {
        Err(RollbackRefusal::NotHead { requested, head }) => {
            assert_eq!(requested, "aud_00001");
            assert_eq!(head.as_deref(), Some("aud_00002"));
        },
        other => panic!("unexpected {other:?}"),
    }
    assert!(matches!(
        rollback_changes("aud_00001", &None, 0, &None),
        Err(RollbackRefusal::NotHead { head: None, .. })
    ));
}

#[test]
fn the_head_entry_must_be_the_one_requested() {
    assert!(matches!(
        rollback_changes("aud_00002", &Some("aud_00002".into()), 0, &None),
        Err(RollbackRefusal::Io(m)) if m == "audit log is empty"
    ));
    let e = entry("fixture.put_note", "entities/a.json");
    assert!(matches!(
        rollback_changes("aud_00003", &Some("aud_00003".into()), 2, &Some(e)),
        Err(RollbackRefusal::Io(m)) if m == "head entry is aud_00002, not aud_00003"
    ));
}

#[test]
fn an_absorbed_edit_is_not_reversible() {
    let e = entry("core.external_edit", "entities/a.json");
    match rollback_changes("aud_00002", &Some("aud_00002".into()), 2, &Some(e)) {
        Err(RollbackRefusal::NotReversible { audit_id, reason }) => {
            assert_eq!(audit_id, "aud_00002");
            assert_eq!(reason, "external_edit");
        },
        other => panic!("unexpected {other:?}"),
    }
}

#[test]
fn an_escaping_target_breaks_the_chain() {
    let e = entry("fixture.put_note", "../outside.json");
    match rollback_changes("aud_00002", &Some("aud_00002".into()), 2, &Some(e)) {
        Err(RollbackRefusal::Chain(b)) => {
            assert_eq!(b.index, 1);
            assert_eq!(b.audit_id.as_deref(), Some("aud_00002"));
            assert_eq!(b.reason, "head entry records an out-of-project target");
        },
        other => panic!("unexpected {other:?}"),
    }
}

#[test]
fn only_the_head_entry_can_be_rolled_back() {
    assert!(systole::rollback::check_rollback_head("aud_00002", &Some("aud_00002".to_string())).is_ok());
    match systole::rollback::check_rollback_head("aud_00001", &Some("aud_00002".to_string())) {
        Err(RollbackRefusal::NotHead { requested, head }) => {
            assert_eq!(requested, "aud_00001");
            assert_eq!(head, Some("aud_00002".to_string()));
        }
        other => panic!("unexpected: {other:?}"),
    }
    match systole::rollback::check_rollback_head("aud_00001", &None) {
        Err(RollbackRefusal::NotHead { head: None, .. }) => {}
        other => panic!("unexpected: {other:?}"),
    }
}
