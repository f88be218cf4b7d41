use systole::fixture::{note_path, note_value, GetNote, GetNoteRequest, PutNote, PutNotePlan};
use systole::ir::RelPath;
use systole::json::format_line;
use systole::op::OpError;
use systole::tx::Transaction;

#[test]
fn put_note_allocates_an_entity_and_stages_its_file() {
    let mut tx = Transaction::new(Vec::new(), 4);
    let out = PutNote.apply(&mut tx, PutNotePlan { text: "hello".into() }).unwrap();
    assert_eq!(out.stable_id, "ent_00005");
    let path = note_path("ent_00005");
    assert_eq!(path.as_str(), "entities/note/ent_00005.json");
    let stored = tx.read(&path).unwrap();
    assert_eq!(
        String::from_utf8(format_line(&stored)).unwrap(),
        r#"{"constraints":[],"id":"note.ent_00005","intent":"","kind":"note","owner_module":"fixture","stable_id":"ent_00005","tags":[],"text":"hello"}"#
    );
}

#[test]
fn an_empty_note_is_a_blocking_finding() {
    assert!(PutNote.validate(&PutNotePlan { text: "x".into() }).is_empty());
    let findings = PutNote.validate(&PutNotePlan { text: String::new() });
    assert_eq!(findings.len(), 1);
    assert_eq!(findings[0].code, "fixture.note.empty");
    assert!(findings[0].blocking);
}

#[test]
fn get_note_reads_the_stored_note_or_refuses() {
    let files = vec![(RelPath::new("entities/note/ent_00001.json".to_string()), note_value("ent_00001", "hi"))];
    let note = GetNote.query(&files, GetNoteRequest { stable_id: "ent_00001".into() }).unwrap();
    assert!(String::from_utf8(format_line(&note)).unwrap().contains(r#""text":"hi""#));
    match GetNote.query(&files, GetNoteRequest { stable_id: "ent_00002".into() }) {
        Err(OpError::InvalidRequest(m)) => assert_eq!(m, "no note ent_00002"),
        other => panic!("expected a refusal, got {other:?}"),
    }
}
