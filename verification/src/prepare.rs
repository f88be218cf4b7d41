//! Planning a commit without touching the disk: the refusals, the next
//! revision, the post-state digest table and project hash, the audit entry
//! chained to the log, the manifest's new head, and the marker's file list.
//! The caller writes what this returns.

use vstd::prelude::*;

use crate::audit::{audit_id_text, input_hash, next_audit_id, transaction_id, transaction_id_text};
use crate::commit::{
    check_changes, commit_files, delete_entries, first_escape, marker_entry, pending_view, temp_entries, temp_path_text,
    temps_view, writes_view, CommitError, CommitFiles,
};
use crate::edits::{set_key, with_key};
use crate::finding::text_or_null;
use crate::ir::MANIFEST_FILE;
use crate::json::{Json, JsonView, canonical_text, compact, format_line, format_value, key_less, text_field, view_items, view_members};
use crate::op::FileChange;
use crate::revision::{
    blanked, blanked_manifest, bump_revision, digest_of, digest_text, hash_stream, next_revision, project_hash,
};
use crate::text::{chars_of, string_of};
use crate::tx::opt_view;
use vstd::utf8::encode_utf8;

verus! {

/// What the audit entry records beyond the changes.
#[derive(Debug)]
pub struct CommitMeta {
    pub actor: String,
    pub op_id: String,
    pub op_version: u32,
    pub input: Json,
    pub plan_id: Option<String>,
    pub capability: String,
    pub approval: String,
    pub rollback_of: Option<String>,
    pub output: Json,
}

/// A commit planned and not yet written: its transaction id, the audit
/// entry, the post-state manifest, and the marker's files and temps.
#[derive(Debug)]
pub struct PreparedCommit {
    pub transaction_id: String,
    pub entry: Json,
    pub manifest: Json,
    pub files: CommitFiles,
}

pub open spec fn opt_text(s: Option<String>) -> Option<Seq<char>> {
    match s {
        Some(t) => Some(t@),
        None => None,
    }
}

/// An image as the entry records it: `null` for no file.
pub open spec fn image_value(v: Option<JsonView>) -> JsonView {
    match v {
        Some(x) => x,
        None => JsonView::Null,
    }
}

/// A change as the entry records it.
pub open spec fn change_value_of(c: FileChange) -> JsonView {
    JsonView::Object(seq![
        ("after"@, image_value(opt_view(c.after))),
        ("before"@, image_value(opt_view(c.before))),
        ("path"@, JsonView::Str(c.path@)),
    ])
}

/// The hash domain as values: paths beside canonical bytes.
pub open spec fn domain_of(d: Seq<(String, Vec<u8>)>) -> Seq<(Seq<char>, Seq<u8>)> {
    Seq::new(d.len(), |i: int| (d[i].0@, d[i].1@))
}

/// The digest table over a domain: each path beside the digest of its
/// bytes, in domain order.
pub open spec fn table_value(d: Seq<(Seq<char>, Seq<u8>)>) -> JsonView {
    JsonView::Object(Seq::new(d.len(), |i: int| (d[i].0, JsonView::Str(digest_text(d[i].1)))))
}

/// Where the manifest's entry goes in a domain in path order: before the
/// first path that sorts after it.
pub open spec fn manifest_slot(d: Seq<(Seq<char>, Seq<u8>)>) -> nat
    decreases d.len(),
{
    if d.len() == 0 {
        0
    } else if key_less(MANIFEST_FILE@, d[0].0) {
        0
    } else {
        1 + manifest_slot(d.drop_first())
    }
}

/// The bytes the project hash digests for a domain.
pub open spec fn stream_of(d: Seq<(Seq<char>, Seq<u8>)>) -> Seq<u8> {
    hash_stream(Seq::new(d.len(), |i: int| (encode_utf8(d[i].0), d[i].1)))
}

/// The manifest members with the counter and the digest table recorded.
pub open spec fn counted(ms: Seq<(Seq<char>, JsonView)>, counter: u64, table: JsonView) -> Seq<(Seq<char>, JsonView)> {
    with_key(with_key(ms, "stable_id_counter"@, JsonView::UInt(counter)), "files"@, table)
}

/// The post-state project hash: over the domain with the blanked manifest's
/// canonical bytes in their place.
#[verifier::opaque]
pub open spec fn post_hash_of(ms: Seq<(Seq<char>, JsonView)>, counter: u64, d: Seq<(Seq<char>, Seq<u8>)>) -> Seq<char> {
    let bytes = encode_utf8(canonical_text(blanked(JsonView::Object(counted(ms, counter, table_value(d))))));
    digest_text(stream_of(d.insert(manifest_slot(d) as int, (MANIFEST_FILE@, bytes))))
}

/// The audit entry's members, in key order.
#[verifier::opaque]
pub open spec fn entry_members(
    m: CommitMeta,
    audit_id: Seq<char>,
    tx: Seq<char>,
    timestamp: Seq<char>,
    revisions: (Seq<char>, Seq<char>),
    hashes: (Seq<char>, Seq<char>),
    changes: Seq<FileChange>,
    prev_hash: Seq<char>,
) -> Seq<(Seq<char>, JsonView)> {
    seq![
        ("actor"@, JsonView::Str(m.actor@)),
        ("approval"@, JsonView::Str(m.approval@)),
        ("audit_id"@, JsonView::Str(audit_id)),
        ("base_project_revision"@, JsonView::Str(revisions.0)),
        ("capability"@, JsonView::Str(m.capability@)),
        ("changes"@, JsonView::Array(Seq::new(changes.len(), |i: int| change_value_of(changes[i])))),
        ("hash_alg"@, JsonView::Str("sha256"@)),
        ("input_hash"@, JsonView::Str(digest_text(encode_utf8(canonical_text(m.input@))))),
        ("op_id"@, JsonView::Str(m.op_id@)),
        ("op_version"@, JsonView::UInt(m.op_version as u64)),
        ("output"@, m.output@),
        ("plan_id"@, text_or_null(opt_text(m.plan_id))),
        ("post_project_hash"@, JsonView::Str(hashes.1)),
        ("pre_project_hash"@, JsonView::Str(hashes.0)),
        ("prev_hash"@, JsonView::Str(prev_hash)),
        ("project_revision"@, JsonView::Str(revisions.1)),
    ] + match m.rollback_of {
        Some(r) => seq![("rollback_of"@, JsonView::Str(r@))],
        None => Seq::empty(),
    } + seq![("timestamp"@, JsonView::Str(timestamp)), ("transaction_id"@, JsonView::Str(tx))]
}

/// The manifest's new audit head: the entry's id and the digest of its
/// line.
pub open spec fn head_value(audit_id: Seq<char>, entry: JsonView) -> JsonView {
    JsonView::Object(seq![
        ("hash"@, JsonView::Str(digest_text(encode_utf8(compact(entry))))),
        ("id"@, JsonView::Str(audit_id)),
    ])
}

/// The post-state manifest members.
#[verifier::opaque]
pub open spec fn final_members(
    ms: Seq<(Seq<char>, JsonView)>,
    counter: u64,
    table: JsonView,
    revision: Seq<char>,
    hash: Seq<char>,
    head: JsonView,
) -> Seq<(Seq<char>, JsonView)> {
    with_key(
        with_key(with_key(counted(ms, counter, table), "project_revision"@, JsonView::Str(revision)), "project_hash"@, JsonView::Str(hash)),
        "audit_head"@,
        head,
    )
}

fn text_json(s: &str) -> (res: Json)
    ensures
        res@ == JsonView::Str(s@),
{
    Json::Str(string_of(&chars_of(s)))
}

fn image_json(v: &Option<Json>) -> (res: Json)
    ensures
        res@ == image_value(opt_view(*v)),
{
    match v {
        Some(x) => x.duplicate(),
        None => Json::Null,
    }
}

/// A change as the entry records it.
pub fn change_json(c: &FileChange) -> (res: Json)
    ensures
        res@ == change_value_of(*c),
{
    let members = vec![
        (string_of(&chars_of("after")), image_json(&c.after)),
        (string_of(&chars_of("before")), image_json(&c.before)),
        (string_of(&chars_of("path")), text_json(c.path.as_str())),
    ];
    proof { crate::json::lemma_view_members_len(members@); }
    assert(view_members(members@) =~= seq![
        ("after"@, image_value(opt_view(c.after))),
        ("before"@, image_value(opt_view(c.before))),
        ("path"@, JsonView::Str(c.path@)),
    ]);
    Json::Object(members)
}

fn changes_json(cs: &Vec<FileChange>) -> (res: Json)
    ensures
        res@ == JsonView::Array(Seq::new(cs@.len(), |i: int| change_value_of(cs@[i]))),
{
    let mut items: Vec<Json> = Vec::new();
    let mut i: usize = 0;
    while i < cs.len()
        invariant
            i <= cs@.len(),
            view_items(items@) == Seq::new(i as nat, |j: int| change_value_of(cs@[j])),
        decreases cs@.len() - i,
    {
        let ghost before = items@;
        items.push(change_json(&cs[i]));
        assert(items@.drop_last() =~= before);
        i = i + 1;
        assert(view_items(items@) =~= Seq::new(i as nat, |j: int| change_value_of(cs@[j])));
    }
    Json::Array(items)
}

fn table_json(d: &Vec<(String, Vec<u8>)>) -> (res: Json)
    ensures
        res@ == table_value(domain_of(d@)),
{
    let mut members: Vec<(String, Json)> = Vec::new();
    let mut i: usize = 0;
    while i < d.len()
        invariant
            i <= d@.len(),
            members@.len() == i,
            forall|k: int| 0 <= k < i ==> (#[trigger] members@[k]).0@ == d@[k].0@ && members@[k].1@ == JsonView::Str(
                digest_text(d@[k].1@),
            ),
        decreases d@.len() - i,
    {
        let name = string_of(&chars_of(d[i].0.as_str()));
        let dig = digest_of(d[i].1.as_slice());
        members.push((name, Json::Str(dig)));
        i = i + 1;
    }
    proof { crate::json::lemma_view_members_len(members@); }
    assert(view_members(members@) =~= Seq::new(
        domain_of(d@).len(),
        |j: int| (domain_of(d@)[j].0, JsonView::Str(digest_text(domain_of(d@)[j].1))),
    ));
    Json::Object(members)
}

proof fn lemma_manifest_slot(d: Seq<(Seq<char>, Seq<u8>)>, j: int)
    requires
        0 <= j <= d.len(),
        forall|k: int| 0 <= k < j ==> !key_less(MANIFEST_FILE@, (#[trigger] d[k]).0),
        j < d.len() ==> key_less(MANIFEST_FILE@, d[j].0),
    ensures
        manifest_slot(d) == j,
    decreases j,
{
    if j > 0 {
        let t = d.drop_first();
        assert forall|k: int| 0 <= k < j - 1 implies !key_less(MANIFEST_FILE@, (#[trigger] t[k]).0) by {
            assert(t[k] == d[k + 1]);
        }
        if j - 1 < t.len() {
            assert(t[j - 1] == d[j]);
        }
        assert(!key_less(MANIFEST_FILE@, d[0].0));
        lemma_manifest_slot(t, j - 1);
    }
}

/// The domain with the manifest's bytes in their sorted place.
fn with_manifest(d: &Vec<(String, Vec<u8>)>, bytes: Vec<u8>) -> (res: Vec<(String, Vec<u8>)>)
    ensures
        domain_of(res@) == domain_of(d@).insert(manifest_slot(domain_of(d@)) as int, (MANIFEST_FILE@, bytes@)),
{
    let ghost dv = domain_of(d@);
    let mut j: usize = 0;
    while j < d.len()
        invariant
            j <= d@.len(),
            dv == domain_of(d@),
            forall|k: int| 0 <= k < j ==> !key_less(MANIFEST_FILE@, (#[trigger] dv[k]).0),
        ensures
            j <= d@.len(),
            forall|k: int| 0 <= k < j ==> !key_less(MANIFEST_FILE@, (#[trigger] dv[k]).0),
            j < d@.len() ==> key_less(MANIFEST_FILE@, dv[j as int].0),
        decreases d@.len() - j,
    {
        match crate::json::compare_keys(MANIFEST_FILE, d[j].0.as_str()) {
            crate::json::KeyOrder::Less => {
                assert(dv[j as int].0 == d@[j as int].0@);
                break;
            },
            _ => {},
        }
        assert(dv[j as int].0 == d@[j as int].0@);
        j = j + 1;
    }
    proof { lemma_manifest_slot(dv, j as int); }
    let mut out: Vec<(String, Vec<u8>)> = Vec::new();
    let mut i: usize = 0;
    while i < d.len()
        invariant
            i <= d@.len(),
            j <= d@.len(),
            dv == domain_of(d@),
            domain_of(out@) == (if i <= j { dv.subrange(0, i as int) } else {
                dv.subrange(0, j as int).push((MANIFEST_FILE@, bytes@)) + dv.subrange(j as int, i as int)
            }),
            i > j ==> out@.len() == i + 1,
            i <= j ==> out@.len() == i,
        decreases d@.len() - i,
    {
        let ghost before = domain_of(out@);
        if i == j {
            out.push((string_of(&chars_of(MANIFEST_FILE)), bytes.clone()));
            assert(domain_of(out@) =~= before.push((MANIFEST_FILE@, bytes@)));
        }
        let ghost mid = domain_of(out@);
        let mut copy: Vec<u8> = Vec::new();
        crate::revision::extend_bytes(&mut copy, d[i].1.as_slice());
        out.push((string_of(&chars_of(d[i].0.as_str())), copy));
        assert(domain_of(out@) =~= mid.push(dv[i as int]));
        i = i + 1;
        proof {
            if i <= j {
                assert(domain_of(out@) =~= dv.subrange(0, i as int));
            } else {
                assert(domain_of(out@) =~= dv.subrange(0, j as int).push((MANIFEST_FILE@, bytes@)) + dv.subrange(j as int, i as int));
            }
        }
    }
    if j == d.len() {
        let ghost before = domain_of(out@);
        out.push((string_of(&chars_of(MANIFEST_FILE)), bytes));
        assert(domain_of(out@) =~= before.push((MANIFEST_FILE@, bytes@)));
        assert(dv.subrange(0, j as int) =~= dv);
        assert(domain_of(out@) =~= dv.insert(j as int, (MANIFEST_FILE@, bytes@)));
    } else {
        assert(domain_of(out@) =~= dv.insert(j as int, (MANIFEST_FILE@, bytes@)));
    }
    out
}

fn members_of(v: &Json) -> (res: Vec<(String, Json)>)
    requires
        v@ is Object,
    ensures
        v@ == JsonView::Object(view_members(res@)),
{
    match v {
        Json::Object(ms) => {
            let mut out: Vec<(String, Json)> = Vec::new();
            let mut i: usize = 0;
            while i < ms.len()
                invariant
                    i <= ms@.len(),
                    view_members(out@) == view_members(ms@.take(i as int)),
                decreases ms@.len() - i,
            {
                let ghost before = out@;
                out.push((string_of(&chars_of(ms[i].0.as_str())), ms[i].1.duplicate()));
                proof {
                    assert(out@.drop_last() =~= before);
                    assert(ms@.take(i + 1).drop_last() =~= ms@.take(i as int));
                }
                i = i + 1;
            }
            assert(ms@.take(ms@.len() as int) =~= ms@);
            out
        },
        _ => Vec::new(),
    }
}

/// The post-state project hash for manifest members `members`.
fn hashed(members: &Vec<(String, Json)>, domain: &Vec<(String, Vec<u8>)>) -> (hash: String)
    ensures
        hash@ == digest_text(stream_of(domain_of(domain@).insert(
            manifest_slot(domain_of(domain@)) as int,
            (MANIFEST_FILE@, encode_utf8(canonical_text(blanked(JsonView::Object(view_members(members@)))))),
        ))),
{
    let mut snapshot: Vec<(String, Json)> = Vec::new();
    let mut k: usize = 0;
    while k < members.len()
        invariant
            k <= members@.len(),
            view_members(snapshot@) == view_members(members@.take(k as int)),
        decreases members@.len() - k,
    {
        let ghost before = snapshot@;
        snapshot.push((string_of(&chars_of(members[k].0.as_str())), members[k].1.duplicate()));
        proof {
            assert(snapshot@.drop_last() =~= before);
            assert(members@.take(k + 1).drop_last() =~= members@.take(k as int));
        }
        k = k + 1;
    }
    assert(members@.take(members@.len() as int) =~= members@);
    let blank = blanked_manifest(&Json::Object(snapshot));
    let bytes = format_value(&blank);
    let full = with_manifest(domain, bytes);
    let hash = project_hash(&full);
    proof {
        let d2 = domain_of(full@);
        assert(crate::revision::entry_bytes(full@) =~= Seq::new(d2.len(), |i: int| (encode_utf8(d2[i].0), d2[i].1)));
    }
    hash
}

/// The audit entry.
#[verifier::rlimit(30)]
fn entry_json(
    meta: &CommitMeta,
    audit_id: &str,
    tx: &str,
    timestamp: &str,
    base_revision: &str,
    revision: &str,
    pre_hash: &str,
    hash: &str,
    entry_changes: &Vec<FileChange>,
    prev_hash: &str,
) -> (res: Json)
    ensures
        res@ == JsonView::Object(entry_members(
            *meta,
            audit_id@,
            tx@,
            timestamp@,
            (base_revision@, revision@),
            (pre_hash@, hash@),
            entry_changes@,
            prev_hash@,
        )),
{
    let changes = changes_json(entry_changes);
    let digest = input_hash(&meta.input);
    let plan_json = match &meta.plan_id {
        Some(p) => text_json(p.as_str()),
        None => Json::Null,
    };
    let mut entry_ms: Vec<(String, Json)> = vec![
        (string_of(&chars_of("actor")), text_json(meta.actor.as_str())),
        (string_of(&chars_of("approval")), text_json(meta.approval.as_str())),
        (string_of(&chars_of("audit_id")), text_json(audit_id)),
        (string_of(&chars_of("base_project_revision")), text_json(base_revision)),
        (string_of(&chars_of("capability")), text_json(meta.capability.as_str())),
        (string_of(&chars_of("changes")), changes),
        (string_of(&chars_of("hash_alg")), text_json("sha256")),
        (string_of(&chars_of("input_hash")), Json::Str(digest)),
        (string_of(&chars_of("op_id")), text_json(meta.op_id.as_str())),
        (string_of(&chars_of("op_version")), Json::UInt(meta.op_version as u64)),
        (string_of(&chars_of("output")), meta.output.duplicate()),
        (string_of(&chars_of("plan_id")), plan_json),
        (string_of(&chars_of("post_project_hash")), text_json(hash)),
        (string_of(&chars_of("pre_project_hash")), text_json(pre_hash)),
        (string_of(&chars_of("prev_hash")), text_json(prev_hash)),
        (string_of(&chars_of("project_revision")), text_json(revision)),
    ];
    proof { crate::json::lemma_view_members_len(entry_ms@); }
    let ghost head = view_members(entry_ms@);
    match &meta.rollback_of {
        Some(r) => {
            entry_ms.push((string_of(&chars_of("rollback_of")), text_json(r.as_str())));
        },
        None => {},
    }
    entry_ms.push((string_of(&chars_of("timestamp")), text_json(timestamp)));
    entry_ms.push((string_of(&chars_of("transaction_id")), text_json(tx)));
    proof {
        reveal(entry_members);
        crate::json::lemma_view_members_len(entry_ms@);
        assert(view_members(entry_ms@) =~= entry_members(
            *meta,
            audit_id@,
            tx@,
            timestamp@,
            (base_revision@, revision@),
            (pre_hash@, hash@),
            entry_changes@,
            prev_hash@,
        ));
    }
    Json::Object(entry_ms)
}

/// What a prepared commit holds: the transaction id the next audit id and
/// the plan derive; the entry; the post-state manifest with the revision
/// advanced, the counter, the digest table over `domain`, the post-state
/// hash and the new head; and the marker's files, the manifest last.
#[verifier::opaque]
pub open spec fn prepared(
    p: PreparedCommit,
    writes: Seq<FileChange>,
    entry_changes: Seq<FileChange>,
    manifest: JsonView,
    domain: Seq<(String, Vec<u8>)>,
    new_counter: u64,
    entry_count: usize,
    prev_hash: Seq<char>,
    timestamp: Seq<char>,
    meta: CommitMeta,
) -> bool {
            let ms = manifest->Object_0;
            let table = table_value(domain_of(domain));
            let revision = next_revision(text_field(manifest, "project_revision"@))->0;
            let hash = post_hash_of(ms, new_counter, domain_of(domain));
            let audit_id = audit_id_text(entry_count as nat);
            let tx = transaction_id_text(audit_id, opt_text(meta.plan_id));
            &&& p.transaction_id@ == tx
            &&& p.entry@ == JsonView::Object(entry_members(
                meta,
                audit_id,
                tx,
                timestamp,
                (text_field(manifest, "project_revision"@), revision),
                (text_field(manifest, "project_hash"@), hash),
                entry_changes,
                prev_hash,
            ))
            &&& p.manifest@ == JsonView::Object(final_members(ms, new_counter, table, revision, hash, head_value(audit_id, p.entry@)))
            &&& p.files.files@.len() == writes.len() + 1
            &&& forall|i: int| 0 <= i < writes.len() ==> pending_view(#[trigger] p.files.files@[i]) == marker_entry(
                writes[i].path@,
                opt_view(writes[i].after),
                tx,
            )
            &&& pending_view(p.files.files@[writes.len() as int]) == (MANIFEST_FILE@, Some(temp_path_text(MANIFEST_FILE@, tx)), Some(
                digest_text(encode_utf8(canonical_text(p.manifest@))),
            ))
            &&& temps_view(p.files.temp_writes@) == temp_entries(writes_view(writes), tx).push(
                (temp_path_text(MANIFEST_FILE@, tx), MANIFEST_FILE@, encode_utf8(canonical_text(p.manifest@))),
            )
            &&& p.files.deletes@.len() == delete_entries(writes_view(writes)).len()
            &&& forall|i: int| 0 <= i < p.files.deletes@.len() ==> (#[trigger] p.files.deletes@[i])@ == delete_entries(writes_view(writes))[i]
        }

/// Plans a commit of `writes` (the entry records `entry_changes`) over a
/// project whose manifest is `manifest`: `domain` is the post-state hash
/// domain but for the manifest (the lock and every IR file, canonical
/// bytes, in path order), `new_counter` the id counter after the commit,
/// `entry_count` and `prev_hash` the verified log's length and the hash its
/// next entry must name, `timestamp` the entry's time.
fn text_member(v: &Json, key: &str) -> (res: String)
    ensures
        res@ == text_field(v@, key@),
{
    match v.get(key) {
        Some(Json::Str(s)) => string_of(&chars_of(s.as_str())),
        _ => String::new(),
    }
}

#[verifier::rlimit(40)]
fn assemble(
    writes: &Vec<FileChange>,
    entry_changes: &Vec<FileChange>,
    manifest: &Json,
    domain: &Vec<(String, Vec<u8>)>,
    new_counter: u64,
    entry_count: usize,
    prev_hash: &str,
    timestamp: &str,
    meta: CommitMeta,
    base_revision: String,
    pre_hash: String,
    revision: String,
) -> (p: PreparedCommit)
    requires
        manifest@ is Object,
        entry_count < usize::MAX,
        base_revision@ == text_field(manifest@, "project_revision"@),
        pre_hash@ == text_field(manifest@, "project_hash"@),
        next_revision(base_revision@) == Some(revision@),
    ensures
        prepared(p, writes@, entry_changes@, manifest@, domain@, new_counter, entry_count, prev_hash@, timestamp@, meta),
{
    reveal(prepared);
    let ghost ms = manifest@->Object_0;
    let mut members = members_of(manifest);
    let table = table_json(domain);
    set_key(&mut members, "stable_id_counter", Json::UInt(new_counter));
    set_key(&mut members, "files", table);
    assert(view_members(members@) == counted(ms, new_counter, table_value(domain_of(domain@))));
    let hash = hashed(&members, domain);
    assert(hash@ == post_hash_of(ms, new_counter, domain_of(domain@))) by {
        reveal(post_hash_of);
    }
    let audit_id = next_audit_id(entry_count);
    let plan_ref: Option<&str> = match &meta.plan_id {
        Some(p) => Some(p.as_str()),
        None => None,
    };
    let tx = transaction_id(audit_id.as_str(), plan_ref);
    assert(tx@ == transaction_id_text(audit_id@, opt_text(meta.plan_id)));
    let entry = entry_json(&meta, audit_id.as_str(), tx.as_str(), timestamp, base_revision.as_str(), revision.as_str(),
        pre_hash.as_str(), hash.as_str(), entry_changes, prev_hash);
    let line = format_line(&entry);
    let head_hash = digest_of(line.as_slice());
    let head_ms = vec![
        (string_of(&chars_of("hash")), Json::Str(head_hash)),
        (string_of(&chars_of("id")), text_json(audit_id.as_str())),
    ];
    proof { crate::json::lemma_view_members_len(head_ms@); }
    assert(view_members(head_ms@) =~= seq![
        ("hash"@, JsonView::Str(digest_text(encode_utf8(compact(entry@))))),
        ("id"@, JsonView::Str(audit_id@)),
    ]);
    let head = Json::Object(head_ms);
    assert(head@ == head_value(audit_id@, entry@));
    set_key(&mut members, "project_revision", text_json(revision.as_str()));
    set_key(&mut members, "project_hash", text_json(hash.as_str()));
    set_key(&mut members, "audit_head", head);
    assert(view_members(members@) == final_members(ms, new_counter, table_value(domain_of(domain@)), revision@, hash@, head_value(audit_id@, entry@))) by {
        reveal(final_members);
    }
    let post = Json::Object(members);
    let post_bytes = format_value(&post);
    let files = commit_files(writes, tx.as_str(), post_bytes);
    PreparedCommit { transaction_id: tx, entry, manifest: post, files }
}

pub fn prepare_commit(
    writes: &Vec<FileChange>,
    entry_changes: &Vec<FileChange>,
    manifest: &Json,
    domain: &Vec<(String, Vec<u8>)>,
    new_counter: u64,
    entry_count: usize,
    prev_hash: &str,
    timestamp: &str,
    meta: CommitMeta,
) -> (res: Result<PreparedCommit, CommitError>)
    requires
        manifest@ is Object,
        entry_count < usize::MAX,
    ensures
        writes@.len() == 0 ==> res matches Err(CommitError::NoChanges),
        writes@.len() > 0 && first_escape(writes@ + entry_changes@) is Some ==> (res matches Err(
            CommitError::PathEscapes { path },
        ) && path@ == (writes@ + entry_changes@)[first_escape(writes@ + entry_changes@)->0].path@),
        writes@.len() > 0 && first_escape(writes@ + entry_changes@) is None && next_revision(
            text_field(manifest@, "project_revision"@),
        ) is None ==> (res matches Err(CommitError::BadRevision(r)) && r@ == text_field(manifest@, "project_revision"@)),
        writes@.len() > 0 && first_escape(writes@ + entry_changes@) is None && next_revision(
            text_field(manifest@, "project_revision"@),
        ) is Some ==> res is Ok,
        res matches Ok(p) ==> prepared(p, writes@, entry_changes@, manifest@, domain@, new_counter, entry_count, prev_hash@, timestamp@, meta),
{
    match check_changes(writes, entry_changes) {
        Ok(()) => {},
        Err(e) => return Err(e),
    }
    let base_revision = text_member(manifest, "project_revision");
    let pre_hash = text_member(manifest, "project_hash");
    let revision = match bump_revision(base_revision.as_str()) {
        Some(r) => r,
        None => return Err(CommitError::BadRevision(base_revision)),
    };
    Ok(assemble(writes, entry_changes, manifest, domain, new_counter, entry_count, prev_hash, timestamp, meta, base_revision, pre_hash, revision))
}

} // verus!
