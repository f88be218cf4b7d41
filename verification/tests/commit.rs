use systole::commit::{check_changes, commit_files, is_project_relative, marker_path, post_files, temp_path_for, CommitError};
use systole::ir::RelPath;
use systole::json::{format_line, format_value, Json};
use systole::op::FileChange;
use systole::revision::digest_of;

fn change(path: &str, after: Option<Json>) -> FileChange {
    FileChange { path: RelPath::new(path.to_string()), before: None, after }
}

#[test]
fn recorded_paths_must_stay_inside_the_project() {
    assert!(is_project_relative("regions/region_00001/region.json"));
    assert!(is_project_relative("a/./b"));
    assert!(!is_project_relative(""));
    assert!(!is_project_relative("/etc/passwd"));
    assert!(!is_project_relative("../x.json"));
    assert!(!is_project_relative("a/../../x.json"));
    assert!(!is_project_relative("./a.json"));
}

#[test]
fn markers_and_temps_are_named_from_the_transaction() {
    assert_eq!(marker_path("tx_0123").as_str(), "audit/pending/tx_0123.json");
    assert_eq!(temp_path_for("entities/npc/ent_00001.json", "tx_1"), "entities/npc/.ent_00001.json.systmp-tx_1");
    assert_eq!(temp_path_for("project.systole.json", "tx_1"), ".project.systole.json.systmp-tx_1");
}

#[test]
fn empty_or_escaping_write_sets_are_refused() {
    assert_eq!(check_changes(&vec![], &vec![]), Err(CommitError::NoChanges));
    let ok = vec![change("a.json", Some(Json::Null))];
    assert_eq!(check_changes(&ok, &vec![]), Ok(()));
    let bad = vec![change("../a.json", Some(Json::Null))];
    assert_eq!(check_changes(&ok, &bad), Err(CommitError::PathEscapes { path: "../a.json".into() }));
}

#[test]
fn the_post_state_applies_writes_in_order() {
    let files = vec![(RelPath::new("a.json".to_string()), Json::UInt(1)), (RelPath::new("b.json".to_string()), Json::UInt(2))];
    let writes = vec![change("c.json", Some(Json::UInt(3))), change("a.json", None), change("b.json", Some(Json::UInt(4)))];
    let post = Json::Object(post_files(&files, &writes));
    assert_eq!(String::from_utf8(format_line(&post)).unwrap(), r#"{"b.json":4,"c.json":3}"#);
}

#[test]
fn the_marker_lists_every_write_then_the_manifest() {
    let writes = vec![change("a/b.json", Some(Json::UInt(3))), change("c.json", None)];
    let files = commit_files(&writes, "tx_9", b"{}\n".to_vec());
    assert_eq!(files.files.len(), 3);
    assert_eq!(files.files[0].temp_path.as_deref(), Some("a/.b.json.systmp-tx_9"));
    assert_eq!(files.files[0].expected_post_hash, Some(digest_of(&format_value(&Json::UInt(3)))));
    assert_eq!(files.files[1].temp_path, None);
    assert_eq!(files.files[2].path, "project.systole.json");
    assert_eq!(files.files[2].expected_post_hash, Some(digest_of(b"{}\n")));
    assert_eq!(files.deletes, vec!["c.json".to_string()]);
    assert_eq!(files.temp_writes.len(), 2);
    assert_eq!(files.temp_writes[0].2, b"3\n".to_vec());
}
