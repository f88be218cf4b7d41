//! Structured validation findings: stable ids, severity, location by stable
//! id and path, evidence, suggested fixes, and a blocking flag.

use vstd::prelude::*;

use crate::ir::RelPath;
use crate::json::{Json, JsonView, canonical_text, format_value};
use crate::op::PlanRequest;
use crate::revision::{sha256_of, short_hex};
use crate::text::{hex_of, push_str, string_of};
use vstd::utf8::encode_utf8;

verus! {

#[derive(Clone, Copy, PartialEq, Eq, Debug, Structural)]
pub enum Severity {
    Info,
    Warning,
    Error,
}

/// Where a finding points: the referenced stable id and/or IR file path.
#[derive(Clone, Debug, PartialEq)]
pub struct Location {
    pub stable_id: Option<String>,
    pub path: Option<RelPath>,
}

/// A finding as values.
pub struct FindingView {
    pub finding_id: Seq<char>,
    pub code: Seq<char>,
    pub severity: Severity,
    pub stable_id: Option<Seq<char>>,
    pub path: Option<Seq<char>>,
    pub evidence: JsonView,
    pub fix_count: nat,
    pub blocking: bool,
}

#[derive(Debug)]
pub struct Finding {
    pub finding_id: String,
    pub code: String,
    pub severity: Severity,
    pub location: Location,
    pub evidence: Json,
    pub suggested_fixes: Vec<PlanRequest>,
    pub blocking: bool,
}

pub open spec fn finding_view(f: Finding) -> FindingView {
    FindingView {
        finding_id: f.finding_id@,
        code: f.code@,
        severity: f.severity,
        stable_id: location_stable_id(f.location),
        path: location_path(f.location),
        evidence: f.evidence@,
        fix_count: f.suggested_fixes@.len(),
        blocking: f.blocking,
    }
}

/// A string, or `null` when there is none.
pub open spec fn text_or_null(s: Option<Seq<char>>) -> JsonView {
    match s {
        Some(t) => JsonView::Str(t),
        None => JsonView::Null,
    }
}

pub open spec fn location_stable_id(l: Location) -> Option<Seq<char>> {
    match l.stable_id {
        Some(s) => Some(s@),
        None => None,
    }
}

pub open spec fn location_path(l: Location) -> Option<Seq<char>> {
    match l.path {
        Some(p) => Some(p@),
        None => None,
    }
}

/// A location (stable id, path) as a JSON object:
/// `{"path": .., "stable_id": ..}`.
pub open spec fn location_value(stable_id: Option<Seq<char>>, path: Option<Seq<char>>) -> JsonView {
    JsonView::Object(seq![
        ("path"@, text_or_null(path)),
        ("stable_id"@, text_or_null(stable_id)),
    ])
}

/// What a finding id digests: `{"code", "evidence", "location"}`.
pub open spec fn finding_basis(
    code: Seq<char>,
    stable_id: Option<Seq<char>>,
    path: Option<Seq<char>>,
    evidence: JsonView,
) -> JsonView {
    JsonView::Object(seq![
        ("code"@, JsonView::Str(code)),
        ("evidence"@, evidence),
        ("location"@, location_value(stable_id, path)),
    ])
}

/// `finding_` plus the first 16 hex digits of sha256 over the canonical
/// bytes of the finding's basis.
#[verifier::opaque]
pub open spec fn finding_id_text(
    code: Seq<char>,
    stable_id: Option<Seq<char>>,
    path: Option<Seq<char>>,
    evidence: JsonView,
) -> Seq<char> {
    "finding_"@ + hex_of(sha256_of(encode_utf8(canonical_text(finding_basis(code, stable_id, path, evidence))))).subrange(0, 16)
}

fn text_json(s: &Option<String>) -> (res: Json)
    ensures
        res@ == text_or_null(match s {
            Some(t) => Some(t@),
            None => None,
        }),
{
    match s {
        Some(t) => Json::Str(t.clone()),
        None => Json::Null,
    }
}

/// The location as the JSON object a finding id digests.
pub fn location_json(l: &Location) -> (res: Json)
    ensures
        res@ == location_value(location_stable_id(*l), location_path(*l)),
{
    let path = match &l.path {
        Some(p) => Json::Str(p.as_str().to_string()),
        None => Json::Null,
    };
    let sid = text_json(&l.stable_id);
    let members = vec![("path".to_string(), path), ("stable_id".to_string(), sid)];
    proof {
        crate::json::lemma_view_members_len(members@);
        reveal_strlit("path");
        reveal_strlit("stable_id");
    }
    let res = Json::Object(members);
    assert(crate::json::view_members(members@) =~= seq![
        ("path"@, text_or_null(location_path(*l))),
        ("stable_id"@, text_or_null(location_stable_id(*l))),
    ]);
    res
}

/// The single finding-id formula: deterministic, so the same condition is
/// named the same way by every run.
pub fn finding_id(code: &str, location: &Location, evidence: &Json) -> (res: String)
    ensures
        res@ == finding_id_text(code@, location_stable_id(*location), location_path(*location), evidence@),
{
    let members = vec![
        ("code".to_string(), Json::Str(code.to_string())),
        ("evidence".to_string(), evidence.duplicate()),
        ("location".to_string(), location_json(location)),
    ];
    proof {
        crate::json::lemma_view_members_len(members@);
        reveal_strlit("code");
        reveal_strlit("evidence");
        reveal_strlit("location");
        assert(crate::json::view_members(members@) =~= seq![
            ("code"@, JsonView::Str(code@)),
            ("evidence"@, evidence@),
            ("location"@, location_value(location_stable_id(*location), location_path(*location))),
        ]);
    }
    let basis = Json::Object(members);
    assert(basis@ == finding_basis(code@, location_stable_id(*location), location_path(*location), evidence@));
    let bytes = format_value(&basis);
    proof { reveal(finding_id_text); }
    let short = short_hex(bytes.as_slice());
    let mut out: Vec<char> = Vec::new();
    push_str(&mut out, "finding_");
    let mut i: usize = 0;
    let ghost head = out@;
    while i < 16
        invariant
            i <= 16,
            short@.len() == 16,
            out@ == head + short@.subrange(0, i as int),
        decreases 16 - i,
    {
        out.push(short[i]);
        i = i + 1;
        assert(out@ =~= head + short@.subrange(0, i as int));
    }
    assert(short@.subrange(0, 16) =~= short@);
    string_of(&out)
}

} // verus!
