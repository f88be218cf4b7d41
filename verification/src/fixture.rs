//! The fixture operations that prove the engine lifecycle end to end:
//! `fixture.put_note` writes a note entity, `fixture.get_note` reads it,
//! and `fixture.forbidden` exists to prove the deny path.

use vstd::prelude::*;

use crate::finding::{Finding, Location, Severity};
use crate::ids::{IdKind, StableId, render};
use crate::ir::RelPath;
use crate::json::{Json, JsonView, field_of, lemma_view_members_len, lookup, view_members};
use crate::edits::file_value;
use crate::op::{Diff, FileChange, OpError};
use crate::regions::file_at;
use crate::integrity::files_view;
use crate::text::{push_str, string_of};
use crate::tx::{Transaction, opt_view};

verus! {

/// `entities/note/<stable id>.json`.
pub open spec fn note_path_text(stable_id: Seq<char>) -> Seq<char> {
    "entities/note/"@ + stable_id + ".json"@
}

pub fn note_path(stable_id: &str) -> (res: RelPath)
    ensures
        res@ == note_path_text(stable_id@),
{
    let mut out: Vec<char> = Vec::new();
    push_str(&mut out, "entities/note/");
    push_str(&mut out, stable_id);
    push_str(&mut out, ".json");
    RelPath::from_chars(&out)
}

/// A note entity: its handle `note.<stable id>`, kind, owner, and text.
pub open spec fn note_value_of(stable_id: Seq<char>, text: Seq<char>) -> JsonView {
    JsonView::Object(seq![
        ("constraints"@, JsonView::Array(Seq::empty())),
        ("id"@, JsonView::Str("note."@ + stable_id)),
        ("intent"@, JsonView::Str(Seq::empty())),
        ("kind"@, JsonView::Str("note"@)),
        ("owner_module"@, JsonView::Str("fixture"@)),
        ("stable_id"@, JsonView::Str(stable_id)),
        ("tags"@, JsonView::Array(Seq::empty())),
        ("text"@, JsonView::Str(text)),
    ])
}

pub fn note_value(stable_id: &str, text: &str) -> (res: Json)
    ensures
        res@ == note_value_of(stable_id@, text@),
{
    let mut handle: Vec<char> = Vec::new();
    push_str(&mut handle, "note.");
    push_str(&mut handle, stable_id);
    let members = vec![
        ("constraints".to_string(), Json::Array(Vec::new())),
        ("id".to_string(), Json::Str(string_of(&handle))),
        ("intent".to_string(), Json::Str(String::new())),
        ("kind".to_string(), Json::Str("note".to_string())),
        ("owner_module".to_string(), Json::Str("fixture".to_string())),
        ("stable_id".to_string(), Json::Str(stable_id.to_string())),
        ("tags".to_string(), Json::Array(Vec::new())),
        ("text".to_string(), Json::Str(text.to_string())),
    ];
    proof {
        lemma_view_members_len(members@);
        assert(crate::json::view_items(Seq::<Json>::empty()) =~= Seq::<JsonView>::empty());
    }
    assert(view_members(members@) =~= seq![
        ("constraints"@, JsonView::Array(Seq::empty())),
        ("id"@, JsonView::Str("note."@ + stable_id@)),
        ("intent"@, JsonView::Str(Seq::empty())),
        ("kind"@, JsonView::Str("note"@)),
        ("owner_module"@, JsonView::Str("fixture"@)),
        ("stable_id"@, JsonView::Str(stable_id@)),
        ("tags"@, JsonView::Array(Seq::empty())),
        ("text"@, JsonView::Str(text@)),
    ]);
    Json::Object(members)
}

#[derive(Debug)]
pub struct PutNoteRequest {
    /// The note body.
    pub text: String,
}

#[derive(Debug)]
pub struct PutNotePlan {
    pub text: String,
}

#[derive(Debug)]
pub struct PutNoteOutput {
    pub stable_id: String,
}

/// `fixture.put_note` v1: write, `project.write`.
#[derive(Debug)]
pub struct PutNote;

impl PutNote {
    pub fn validate_request(&self, req: &PutNoteRequest) -> (res: Result<(), OpError>)
        ensures
            res is Ok,
    {
        Ok(())
    }

    pub fn materialize(&self, req: PutNoteRequest) -> (res: Result<PutNotePlan, OpError>)
        ensures
            res matches Ok(plan) && plan.text@ == req.text@,
    {
        Ok(PutNotePlan { text: req.text })
    }

    /// Findings on a plan: an empty note is refused by a blocking error.
    pub fn validate(&self, plan: &PutNotePlan) -> (res: Vec<Finding>)
        ensures
            plan.text@.len() > 0 ==> res@.len() == 0,
            plan.text@.len() == 0 ==> res@.len() == 1 && res@[0].finding_id@ == "fixture.note.empty"@
                && res@[0].code@ == "fixture.note.empty"@ && res@[0].severity == Severity::Error
                && res@[0].location.stable_id is None && res@[0].location.path is None
                && res@[0].evidence@ == JsonView::Object(seq![("reason"@, JsonView::Str("text is empty"@))])
                && res@[0].suggested_fixes@.len() == 0 && res@[0].blocking,
    {
        if plan.text.as_str().unicode_len() > 0 {
            return Vec::new();
        }
        let members = vec![("reason".to_string(), Json::Str("text is empty".to_string()))];
        proof { lemma_view_members_len(members@); }
        assert(view_members(members@) =~= seq![("reason"@, JsonView::Str("text is empty"@))]);
        vec![Finding {
            finding_id: "fixture.note.empty".to_string(),
            code: "fixture.note.empty".to_string(),
            severity: Severity::Error,
            location: Location { stable_id: None, path: None },
            evidence: Json::Object(members),
            suggested_fixes: Vec::new(),
            blocking: true,
        }]
    }

    /// The note file the plan would write: the next entity id after
    /// `counter`, before-image as `files` holds it.
    pub fn diff(&self, files: &Vec<(RelPath, Json)>, counter: u64, plan: &PutNotePlan) -> (res: Diff)
        requires
            counter < u64::MAX,
        ensures
            res.changes@.len() == 1,
            res.changes@[0].path@ == note_path_text(render(StableId { kind: IdKind::Ent, n: (counter + 1) as u64 })),
            opt_view(res.changes@[0].before) == file_at(
                files_view(files@),
                note_path_text(render(StableId { kind: IdKind::Ent, n: (counter + 1) as u64 })),
            ),
            opt_view(res.changes@[0].after) == Some(
                note_value_of(render(StableId { kind: IdKind::Ent, n: (counter + 1) as u64 }), plan.text@),
            ),
    {
        let stable_id = StableId::new(IdKind::Ent, counter + 1).to_string();
        let path = note_path(stable_id.as_str());
        let before = match file_value(files, &path) {
            Some(v) => Some(v.duplicate()),
            None => None,
        };
        let after = note_value(stable_id.as_str(), plan.text.as_str());
        Diff { changes: vec![FileChange { path, before, after: Some(after) }] }
    }

    /// Allocates the note's entity id and stages its file.
    pub fn apply(&self, tx: &mut Transaction, plan: PutNotePlan) -> (res: Result<PutNoteOutput, OpError>)
        requires
            old(tx).wf(),
            old(tx).counter() < u64::MAX,
        ensures
            final(tx).wf(),
            final(tx).counter() == old(tx).counter() + 1,
            res matches Ok(out) && (out.stable_id@ == render(StableId { kind: IdKind::Ent, n: final(tx).counter() })
                && final(tx).read_view(note_path_text(out.stable_id@)) == Some(note_value_of(out.stable_id@, plan.text@))),
            forall|q: Seq<char>| q != note_path_text(render(StableId { kind: IdKind::Ent, n: final(tx).counter() }))
                ==> #[trigger] final(tx).read_view(q) == old(tx).read_view(q),
    {
        let id = tx.alloc_id(IdKind::Ent);
        let stable_id = id.to_string();
        let path = note_path(stable_id.as_str());
        let value = note_value(stable_id.as_str(), plan.text.as_str());
        let ghost mid = *tx;
        tx.write(path, value);
        proof {
            assert forall|q: Seq<char>| q != note_path_text(stable_id@) implies #[trigger] tx.read_view(q) == old(tx).read_view(q) by {
                assert(mid.read_view(q) == old(tx).read_view(q));
            }
        }
        Ok(PutNoteOutput { stable_id })
    }
}

#[derive(Debug)]
pub struct ForbiddenRequest {}

#[derive(Debug)]
pub struct ForbiddenPlan {}

#[derive(Debug)]
pub struct ForbiddenOutput {}

/// `fixture.forbidden` v1: write, `network.call` — never materializes under
/// the `cli_local` policy; it exists to prove the deny path.
#[derive(Debug)]
pub struct Forbidden;

impl Forbidden {
    pub fn materialize(&self, req: ForbiddenRequest) -> (res: Result<ForbiddenPlan, OpError>)
        ensures
            res is Ok,
    {
        Ok(ForbiddenPlan {})
    }

    pub fn apply(&self, plan: ForbiddenPlan) -> (res: Result<ForbiddenOutput, OpError>)
        ensures
            res is Ok,
    {
        Ok(ForbiddenOutput {})
    }
}

#[derive(Debug)]
pub struct GetNoteRequest {
    /// The note's stable id, e.g. `ent_00001`.
    pub stable_id: String,
}

/// `fixture.get_note` v1: read, `project.read`.
#[derive(Debug)]
pub struct GetNote;

pub open spec fn no_note_text(stable_id: Seq<char>) -> Seq<char> {
    "no note "@ + stable_id
}

impl GetNote {
    /// The stored note with the requested stable id, from the project's files
    /// (path, value) in path order.
    pub fn query(&self, files: &Vec<(RelPath, Json)>, req: GetNoteRequest) -> (res: Result<Json, OpError>)
        ensures
            match res {
                Ok(v) => exists|i: int| 0 <= i < files@.len() && (#[trigger] files@[i]).0@ == note_path_text(req.stable_id@)
                    && files@[i].1@ == v@
                    && forall|j: int| 0 <= j < i ==> (#[trigger] files@[j]).0@ != note_path_text(req.stable_id@),
                Err(e) => (forall|i: int| 0 <= i < files@.len() ==> (#[trigger] files@[i]).0@ != note_path_text(req.stable_id@))
                    && (e matches OpError::InvalidRequest(m) && m@ == no_note_text(req.stable_id@)),
            },
    {
        let path = note_path(req.stable_id.as_str());
        let mut i: usize = 0;
        while i < files.len()
            invariant
                i <= files@.len(),
                path@ == note_path_text(req.stable_id@),
                forall|j: int| 0 <= j < i ==> (#[trigger] files@[j]).0@ != path@,
            decreases files@.len() - i,
        {
            if files[i].0.same(&path) {
                return Ok(files[i].1.duplicate());
            }
            i = i + 1;
        }
        let mut m: Vec<char> = Vec::new();
        push_str(&mut m, "no note ");
        push_str(&mut m, req.stable_id.as_str());
        Err(OpError::InvalidRequest(string_of(&m)))
    }
}

} // verus!
