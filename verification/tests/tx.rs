use serde_json::Value;
use systole::ids::IdKind;
use systole::ir::RelPath;
use systole::json::{format_line, Json};
use systole::tx::Transaction;

fn parse(text: &str) -> Json {
    fn from_serde(v: &Value) -> Json {
        match v {
            Value::Null => Json::Null,
            Value::Bool(b) => Json::Bool(*b),
            Value::Number(n) => match n.as_u64() {
                Some(u) => Json::UInt(u),
                None => Json::NegInt(n.as_i64().unwrap()),
            },
            Value::String(s) => Json::Str(s.clone()),
            Value::Array(items) => Json::Array(items.iter().map(from_serde).collect()),
            Value::Object(map) => Json::object(map.iter().map(|(k, v)| (k.clone(), from_serde(v))).collect()),
        }
    }
    from_serde(&serde_json::from_str::<Value>(text).unwrap())
}

fn line(v: Option<Json>) -> Option<String> {
    v.map(|j| String::from_utf8(format_line(&j)).unwrap())
}

#[test]
fn transaction_records_before_images_as_inverse_data() {
    let existing = RelPath::new("regions/region_00001/region.json".to_string());
    let doomed = RelPath::new("entities/npc/ent_00001.json".to_string());
    let mut tx = Transaction::new(
        vec![
            (doomed.clone(), parse(r#"{"id": "npc-1"}"#)),
            (existing.clone(), parse(r#"{"id": "town"}"#)),
        ],
        0,
    );
    tx.write(existing.clone(), parse(r#"{"id": "town", "size": 16}"#));
    let fresh = RelPath::new("regions/region_00002/region.json".to_string());
    tx.write(fresh.clone(), parse(r#"{"id": "route"}"#));
    tx.delete(doomed.clone());

    let inverse = tx.inverse();
    assert_eq!(line(inverse.get(existing.as_str()).map(|j| j.duplicate())).as_deref(), Some(r#"{"id":"town"}"#));
    assert_eq!(line(inverse.get(fresh.as_str()).map(|j| j.duplicate())).as_deref(), Some("null"), "a creation's before-image is null");
    assert_eq!(line(inverse.get(doomed.as_str()).map(|j| j.duplicate())).as_deref(), Some(r#"{"id":"npc-1"}"#));

    // Staged-over-project view: reads see the staged state.
    assert_eq!(line(tx.read(&existing)).as_deref(), Some(r#"{"id":"town","size":16}"#));
    assert_eq!(line(tx.read(&fresh)).as_deref(), Some(r#"{"id":"route"}"#));
    assert_eq!(line(tx.read(&doomed)), None, "deleted path reads back None");

    let staged = tx.staged();
    assert_eq!(staged.len(), 3, "two writes and one delete");
    let ex = staged.iter().find(|c| c.path == existing).unwrap();
    assert_eq!(line(ex.before.as_ref().map(|j| j.duplicate())).as_deref(), Some(r#"{"id":"town"}"#));
    assert_eq!(line(ex.after.as_ref().map(|j| j.duplicate())).as_deref(), Some(r#"{"id":"town","size":16}"#));
    let dl = staged.iter().find(|c| c.path == doomed).unwrap();
    assert_eq!(line(dl.before.as_ref().map(|j| j.duplicate())).as_deref(), Some(r#"{"id":"npc-1"}"#));
    assert!(dl.after.is_none(), "a delete stages after = None");

    // Id allocations inside a transaction start from the project counter.
    let id = tx.alloc_id(IdKind::Ent);
    assert_eq!(id.to_string(), "ent_00001");
    assert_eq!(tx.stable_id_counter(), 1);
}

#[test]
fn rewriting_a_path_keeps_its_first_before_image() {
    let path = RelPath::new("entities/npc/ent_00001.json".to_string());
    let mut tx = Transaction::new(vec![(path.clone(), parse(r#"{"v": 1}"#))], 5);
    tx.write(path.clone(), parse(r#"{"v": 2}"#));
    tx.write(path.clone(), parse(r#"{"v": 3}"#));
    tx.delete(path.clone());
    tx.write(path.clone(), parse(r#"{"v": 4}"#));
    assert_eq!(tx.staged().len(), 1);
    assert_eq!(line(tx.read(&path)).as_deref(), Some(r#"{"v":4}"#));
    assert_eq!(line(tx.inverse().get(path.as_str()).map(|j| j.duplicate())).as_deref(), Some(r#"{"v":1}"#));
    assert_eq!(tx.alloc_id(IdKind::Region).to_string(), "region_00006");
}

#[test]
fn untouched_paths_read_the_loaded_project() {
    let a = RelPath::new("a.json".to_string());
    let b = RelPath::new("b.json".to_string());
    let mut tx = Transaction::new(vec![(a.clone(), Json::UInt(1)), (a.clone(), Json::UInt(2))], 0);
    assert_eq!(line(tx.read(&a)).as_deref(), Some("2"), "a later entry for a path replaces an earlier one");
    assert_eq!(line(tx.read(&b)), None);
    tx.write(b.clone(), Json::Bool(true));
    assert_eq!(line(tx.read(&a)).as_deref(), Some("2"));
    assert_eq!(String::from_utf8(format_line(&tx.inverse())).unwrap(), r#"{"b.json":null}"#);
}
