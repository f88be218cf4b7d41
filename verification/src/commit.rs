//! The naming side of the two-phase commit: where a pending marker lives,
//! where a target's temp file sits, and which recorded paths may be written
//! at all (only paths that stay inside the project root).

use vstd::prelude::*;

use crate::chain::ChainBreak;
use crate::ir::{MANIFEST_FILE, RelPath};
use crate::json::{
    Json, JsonView, assigned, canonical_text, format_value, insert_member, keys_sorted, lemma_view_members_len,
    lookup, remove_member, view_members,
};
use crate::op::FileChange;
use crate::reference::{lemma_split_nonempty, split_chars, split_on};
use crate::revision::{digest_of, digest_text};
use crate::text::{chars_equal, chars_of, decimal, push_decimal, push_str, string_of, sub_chars};
use crate::tx::opt_view;
use vstd::utf8::encode_utf8;

verus! {

pub const PENDING_DIR: &'static str = "audit/pending";
pub const LOG_FILE: &'static str = "audit/audit.jsonl";

/// A recorded path stays inside the project: non-empty, relative, no `..`
/// step, and not starting at `.` — every component of it is an ordinary
/// name (empty and non-leading `.` segments are no components at all).
pub open spec fn is_inside(path: Seq<char>) -> bool {
    let segs = split_on(path, '/');
    &&& path.len() > 0
    &&& path[0] != '/'
    &&& segs[0] != "."@
    &&& forall|i: int| 0 <= i < segs.len() ==> #[trigger] segs[i] != ".."@
}

/// Whether a recorded path stays inside the project root — the one gateway
/// every write path funnels through.
pub fn is_project_relative(path: &str) -> (res: bool)
    ensures
        res == is_inside(path@),
{
    let p = chars_of(path);
    if p.len() == 0 || p[0] == '/' {
        return false;
    }
    let segs = split_chars(&p, '/');
    proof { lemma_split_nonempty(p@, '/'); }
    let dot = chars_of(".");
    let dotdot = chars_of("..");
    assert(segs@[0]@ == split_on(p@, '/')[0]);
    if chars_equal(&segs[0], &dot) {
        return false;
    }
    let mut i: usize = 0;
    while i < segs.len()
        invariant
            i <= segs@.len(),
            p@ == path@,
            p@.len() > 0,
            p@[0] != '/',
            split_on(p@, '/')[0] != "."@,
            segs@.len() == split_on(p@, '/').len(),
            forall|k: int| 0 <= k < segs@.len() ==> #[trigger] segs@[k]@ == split_on(p@, '/')[k],
            dotdot@ == ".."@,
            forall|k: int| 0 <= k < i ==> #[trigger] split_on(p@, '/')[k] != ".."@,
        decreases segs@.len() - i,
    {
        if chars_equal(&segs[i], &dotdot) {
            assert(segs@[i as int]@ == split_on(p@, '/')[i as int]);
            return false;
        }
        assert(segs@[i as int]@ == split_on(p@, '/')[i as int]);
        i = i + 1;
    }
    true
}

pub open spec fn marker_path_text(transaction_id: Seq<char>) -> Seq<char> {
    "audit/pending/"@ + transaction_id + ".json"@
}

/// `audit/pending/<transaction_id>.json`, project-relative.
pub fn marker_path(transaction_id: &str) -> (res: RelPath)
    ensures
        res@ == marker_path_text(transaction_id@),
{
    let mut out: Vec<char> = Vec::new();
    push_str(&mut out, "audit/pending/");
    push_str(&mut out, transaction_id);
    push_str(&mut out, ".json");
    RelPath::from_chars(&out)
}

/// The index of the last `'/'` in `s`.
pub open spec fn last_slash(s: Seq<char>) -> Option<int>
    decreases s.len(),
{
    if s.len() == 0 {
        None
    } else if s.last() == '/' {
        Some(s.len() - 1)
    } else {
        last_slash(s.drop_last())
    }
}

proof fn lemma_last_slash(s: Seq<char>)
    ensures
        match last_slash(s) {
            Some(i) => 0 <= i < s.len() && s[i] == '/' && forall|j: int| i < j < s.len() ==> s[j] != '/',
            None => forall|j: int| 0 <= j < s.len() ==> s[j] != '/',
        },
    decreases s.len(),
{
    if s.len() > 0 && s.last() != '/' {
        lemma_last_slash(s.drop_last());
        assert forall|j: int| 0 <= j < s.len() - 1 implies s.drop_last()[j] == s[j] by {}
    }
}

/// The sibling temp path for a target: `<dir>/.<name>.systmp-<tx>` — a
/// dotfile, never `*.json`, so the loader and the hash never see it.
pub open spec fn temp_path_text(target: Seq<char>, transaction_id: Seq<char>) -> Seq<char> {
    match last_slash(target) {
        Some(i) => target.subrange(0, i) + "/."@ + target.subrange(i + 1, target.len() as int)
            + ".systmp-"@ + transaction_id,
        None => "."@ + target + ".systmp-"@ + transaction_id,
    }
}

pub fn temp_path_for(target: &str, transaction_id: &str) -> (res: String)
    ensures
        res@ == temp_path_text(target@, transaction_id@),
{
    let t = chars_of(target);
    proof { lemma_last_slash(t@); }
    let mut i: usize = t.len();
    while i > 0
        invariant
            i <= t@.len(),
            t@ == target@,
            forall|j: int| i <= j < t@.len() ==> t@[j] != '/',
        ensures
            i <= t@.len(),
            forall|j: int| i <= j < t@.len() ==> t@[j] != '/',
            i == 0 || t@[i - 1] == '/',
        decreases i,
    {
        if t[i - 1] == '/' {
            break;
        }
        i = i - 1;
    }
    let mut out: Vec<char> = Vec::new();
    if i == 0 {
        proof {
            match last_slash(t@) {
                Some(k) => { assert(t@[k] == '/'); },
                None => {},
            }
        }
        push_str(&mut out, ".");
        push_str(&mut out, target);
    } else {
        let at = i - 1;
        proof {
            match last_slash(t@) {
                Some(k) => {
                    if k < at { assert(t@[at as int] == '/'); }
                    if k > at { assert(t@[k] != '/'); }
                },
                None => { assert(t@[at as int] == '/'); },
            }
        }
        let dir = sub_chars(&t, 0, at);
        let name = sub_chars(&t, at + 1, t.len());
        out.append(&mut dir.clone());
        push_str(&mut out, "/.");
        out.append(&mut name.clone());
    }
    push_str(&mut out, ".systmp-");
    push_str(&mut out, transaction_id);
    string_of(&out)
}


/// How a pending transaction was resolved.
#[derive(Clone, Debug, PartialEq)]
pub enum Recovery {
    /// All files were in place or staged; the audit entry was appended once.
    Completed { transaction_id: String },
    /// The transaction was incomplete; temps were removed and renamed files
    /// restored to their before-images.
    RolledBack { transaction_id: String },
}

/// One target of a pending transaction: its project-relative path, the temp
/// file holding its post-state bytes, and the digest those bytes must hash
/// to. A deletion has neither.
#[derive(Clone, Debug, PartialEq)]
pub struct PendingFile {
    pub path: String,
    pub temp_path: Option<String>,
    pub expected_post_hash: Option<String>,
}

pub open spec fn pending_view(f: PendingFile) -> (Seq<char>, Option<Seq<char>>, Option<Seq<char>>) {
    (f.path@, match f.temp_path {
        Some(t) => Some(t@),
        None => None,
    }, match f.expected_post_hash {
        Some(h) => Some(h@),
        None => None,
    })
}

/// Why a commit could not be planned or run.
#[derive(Clone, Debug, PartialEq)]
pub enum CommitError {
    Io { path: String, source: String },
    BadRevision(String),
    PendingMarkers { count: usize },
    PathEscapes { path: String },
    NoChanges,
    Chain(ChainBreak),
}

/// Why the project's write lock could not be taken.
#[derive(Clone, Debug, PartialEq)]
pub enum LockError {
    Held { pid: u32 },
    Io(String),
}

pub open spec fn lock_error_text(e: LockError) -> Seq<char> {
    match e {
        LockError::Held { pid } => "project is locked by pid "@ + decimal(pid as nat),
        LockError::Io(m) => "io error on the write lock: "@ + m@,
    }
}

impl LockError {
    pub fn message(&self) -> (res: String)
        ensures
            res@ == lock_error_text(*self),
    {
        let mut out: Vec<char> = Vec::new();
        match self {
            LockError::Held { pid } => {
                push_str(&mut out, "project is locked by pid ");
                push_decimal(&mut out, *pid as u64, 0);
            },
            LockError::Io(m) => {
                push_str(&mut out, "io error on the write lock: ");
                push_str(&mut out, m.as_str());
            },
        }
        string_of(&out)
    }
}

pub open spec fn change_paths_inside(cs: Seq<FileChange>) -> bool {
    forall|i: int| 0 <= i < cs.len() ==> is_inside((#[trigger] cs[i]).path@)
}

/// The first change (writes first, then the recorded changes) whose path
/// leaves the project.
pub open spec fn first_escape(cs: Seq<FileChange>) -> Option<int> {
    if change_paths_inside(cs) {
        None
    } else {
        Some(choose|i: int| 0 <= i < cs.len() && !is_inside((#[trigger] cs[i]).path@)
            && forall|j: int| 0 <= j < i ==> is_inside((#[trigger] cs[j]).path@))
    }
}

/// The refusals a commit checks before anything is written: an empty write
/// set, or any staged or recorded path that would leave the project.
pub fn check_changes(writes: &Vec<FileChange>, entry_changes: &Vec<FileChange>) -> (res: Result<(), CommitError>)
    ensures
        writes@.len() == 0 ==> res matches Err(CommitError::NoChanges),
        writes@.len() > 0 ==> match first_escape(writes@ + entry_changes@) {
            None => res is Ok,
            Some(i) => res matches Err(CommitError::PathEscapes { path }) && path@ == (writes@ + entry_changes@)[i].path@,
        },
{
    if writes.len() == 0 {
        return Err(CommitError::NoChanges);
    }
    let ghost all = writes@ + entry_changes@;
    let mut i: usize = 0;
    while i < writes.len()
        invariant
            i <= writes@.len(),
            writes@.len() > 0,
            all == writes@ + entry_changes@,
            forall|j: int| 0 <= j < i ==> is_inside((#[trigger] all[j]).path@),
        decreases writes@.len() - i,
    {
        if !is_project_relative(writes[i].path.as_str()) {
            proof {
                assert(all[i as int] == writes@[i as int]);
                assert(!change_paths_inside(all));
                let k = choose|k: int| 0 <= k < all.len() && !is_inside((#[trigger] all[k]).path@)
                    && forall|j: int| 0 <= j < k ==> is_inside((#[trigger] all[j]).path@);
                if k < i { assert(is_inside(all[k].path@)); }
                if k > i { assert(is_inside(all[i as int].path@)); }
            }
            return Err(CommitError::PathEscapes { path: writes[i].path.as_str().to_string() });
        }
        assert(all[i as int] == writes@[i as int]);
        i = i + 1;
    }
    let mut k: usize = 0;
    while k < entry_changes.len()
        invariant
            k <= entry_changes@.len(),
            writes@.len() > 0,
            all == writes@ + entry_changes@,
            forall|j: int| 0 <= j < writes@.len() + k ==> is_inside((#[trigger] all[j]).path@),
        decreases entry_changes@.len() - k,
    {
        let ghost at = writes@.len() + k;
        assert(all[at] == entry_changes@[k as int]);
        if !is_project_relative(entry_changes[k].path.as_str()) {
            proof {
                assert(!change_paths_inside(all));
                let q = choose|q: int| 0 <= q < all.len() && !is_inside((#[trigger] all[q]).path@)
                    && forall|j: int| 0 <= j < q ==> is_inside((#[trigger] all[j]).path@);
                if q < at { assert(is_inside(all[q].path@)); }
                if q > at { assert(is_inside(all[at].path@)); }
            }
            return Err(CommitError::PathEscapes { path: entry_changes[k].path.as_str().to_string() });
        }
        k = k + 1;
    }
    assert(change_paths_inside(all));
    Ok(())
}


/// The writes as values: each target path and its after-image (`None` for
/// a deletion).
pub open spec fn writes_view(ws: Seq<FileChange>) -> Seq<(Seq<char>, Option<JsonView>)> {
    Seq::new(ws.len(), |i: int| (ws[i].path@, opt_view(ws[i].after)))
}

/// The post-state value at `k`: the last write to `k`, else the project's.
pub open spec fn applied(base: Seq<(Seq<char>, JsonView)>, ws: Seq<(Seq<char>, Option<JsonView>)>, k: Seq<char>) -> Option<JsonView>
    decreases ws.len(),
{
    if ws.len() == 0 {
        assigned(base, k)
    } else if ws.last().0 == k {
        ws.last().1
    } else {
        applied(base, ws.drop_last(), k)
    }
}

/// The post-state files: the project's files (path, value) with every
/// write applied in order, in path order.
pub fn post_files(files: &Vec<(RelPath, Json)>, writes: &Vec<FileChange>) -> (res: Vec<(String, Json)>)
    ensures
        keys_sorted(view_members(res@)),
        forall|k: Seq<char>| #[trigger] lookup(view_members(res@), k) == applied(
            Seq::new(files@.len(), |i: int| (files@[i].0@, files@[i].1@)),
            writes_view(writes@),
            k,
        ),
{
    let ghost base = Seq::new(files@.len(), |i: int| (files@[i].0@, files@[i].1@));
    let mut settings: Vec<(String, Json)> = Vec::new();
    let mut i: usize = 0;
    while i < files.len()
        invariant
            i <= files@.len(),
            settings@.len() == i,
            forall|j: int| 0 <= j < i ==> (#[trigger] settings@[j]).0@ == files@[j].0@ && settings@[j].1@ == files@[j].1@,
        decreases files@.len() - i,
    {
        settings.push((files[i].0.as_str().to_string(), files[i].1.duplicate()));
        i = i + 1;
    }
    proof {
        lemma_view_members_len(settings@);
        assert(view_members(settings@) =~= base);
    }
    let object = Json::object(settings);
    let mut members = match object {
        Json::Object(m) => m,
        _ => Vec::new(),
    };
    let ghost wv = writes_view(writes@);
    let mut k: usize = 0;
    assert(wv.subrange(0, 0).len() == 0);
    while k < writes.len()
        invariant
            k <= writes@.len(),
            wv == writes_view(writes@),
            keys_sorted(view_members(members@)),
            forall|q: Seq<char>| #[trigger] lookup(view_members(members@), q) == applied(base, wv.subrange(0, k as int), q),
        decreases writes@.len() - k,
    {
        let ghost pre = wv.subrange(0, k as int);
        let ghost post = wv.subrange(0, k + 1);
        assert(post.drop_last() =~= pre);
        assert(post.last() == wv[k as int]);
        let path = writes[k].path.as_str();
        match &writes[k].after {
            Some(v) => {
                insert_member(&mut members, path.to_string(), v.duplicate());
            },
            None => {
                remove_member(&mut members, path);
            },
        }
        k = k + 1;
        assert forall|q: Seq<char>| #[trigger] lookup(view_members(members@), q) == applied(base, wv.subrange(0, k as int), q) by {
            assert(applied(base, post, q) == if post.last().0 == q { post.last().1 } else { applied(base, pre, q) });
        }
    }
    assert(wv.subrange(0, wv.len() as int) =~= wv);
    members
}

/// The marker record of one write: a temp file and expected digest for an
/// after-image, neither for a deletion.
pub open spec fn marker_entry(path: Seq<char>, after: Option<JsonView>, transaction_id: Seq<char>) -> (Seq<char>, Option<Seq<char>>, Option<Seq<char>>) {
    match after {
        Some(v) => (path, Some(temp_path_text(path, transaction_id)), Some(digest_text(encode_utf8(canonical_text(v))))),
        None => (path, None, None),
    }
}

/// The temp files the writes produce: (temp path, target path, bytes).
pub open spec fn temp_entries(ws: Seq<(Seq<char>, Option<JsonView>)>, transaction_id: Seq<char>) -> Seq<(Seq<char>, Seq<char>, Seq<u8>)>
    decreases ws.len(),
{
    if ws.len() == 0 {
        Seq::empty()
    } else {
        temp_entries(ws.drop_last(), transaction_id) + match ws.last().1 {
            Some(v) => seq![(temp_path_text(ws.last().0, transaction_id), ws.last().0, encode_utf8(canonical_text(v)))],
            None => Seq::empty(),
        }
    }
}

/// The targets the writes delete.
pub open spec fn delete_entries(ws: Seq<(Seq<char>, Option<JsonView>)>) -> Seq<Seq<char>>
    decreases ws.len(),
{
    if ws.len() == 0 {
        Seq::empty()
    } else {
        delete_entries(ws.drop_last()) + match ws.last().1 {
            Some(_) => Seq::empty(),
            None => seq![ws.last().0],
        }
    }
}

/// What a prepared commit puts on disk beside its marker: the marker's file
/// list (every staged write, then the manifest last), the temp files
/// (temp path, target, canonical bytes), and the deleted targets.
#[derive(Clone, Debug, PartialEq)]
pub struct CommitFiles {
    pub files: Vec<PendingFile>,
    pub temp_writes: Vec<(String, String, Vec<u8>)>,
    pub deletes: Vec<String>,
}

pub open spec fn temps_view(t: Seq<(String, String, Vec<u8>)>) -> Seq<(Seq<char>, Seq<char>, Seq<u8>)> {
    Seq::new(t.len(), |i: int| (t[i].0@, t[i].1@, t[i].2@))
}

/// The marker file list and temp files for `writes` under transaction
/// `transaction_id`, the manifest (whose new bytes are `manifest_bytes`)
/// last.
pub fn commit_files(writes: &Vec<FileChange>, transaction_id: &str, manifest_bytes: Vec<u8>) -> (res: CommitFiles)
    ensures
        res.files@.len() == writes@.len() + 1,
        forall|i: int| 0 <= i < writes@.len() ==> pending_view(#[trigger] res.files@[i]) == marker_entry(
            writes@[i].path@,
            opt_view(writes@[i].after),
            transaction_id@,
        ),
        pending_view(res.files@[writes@.len() as int]) == (MANIFEST_FILE@, Some(temp_path_text(MANIFEST_FILE@, transaction_id@)), Some(digest_text(manifest_bytes@))),
        temps_view(res.temp_writes@) == temp_entries(writes_view(writes@), transaction_id@).push(
            (temp_path_text(MANIFEST_FILE@, transaction_id@), MANIFEST_FILE@, manifest_bytes@),
        ),
        res.deletes@.len() == delete_entries(writes_view(writes@)).len(),
        forall|i: int| 0 <= i < res.deletes@.len() ==> (#[trigger] res.deletes@[i])@ == delete_entries(writes_view(writes@))[i],
{
    let ghost wv = writes_view(writes@);
    let mut files: Vec<PendingFile> = Vec::new();
    let mut temps: Vec<(String, String, Vec<u8>)> = Vec::new();
    let mut deletes: Vec<String> = Vec::new();
    let mut i: usize = 0;
    while i < writes.len()
        invariant
            i <= writes@.len(),
            wv == writes_view(writes@),
            files@.len() == i,
            forall|j: int| 0 <= j < i ==> pending_view(#[trigger] files@[j]) == marker_entry(writes@[j].path@, opt_view(writes@[j].after), transaction_id@),
            temps_view(temps@) == temp_entries(wv.subrange(0, i as int), transaction_id@),
            deletes@.len() == delete_entries(wv.subrange(0, i as int)).len(),
            forall|j: int| 0 <= j < deletes@.len() ==> (#[trigger] deletes@[j])@ == delete_entries(wv.subrange(0, i as int))[j],
        decreases writes@.len() - i,
    {
        let ghost pre = wv.subrange(0, i as int);
        let ghost post = wv.subrange(0, i + 1);
        assert(post.drop_last() =~= pre);
        assert(post.last() == wv[i as int]);
        let ghost t0 = temps_view(temps@);
        let path = writes[i].path.as_str();
        match &writes[i].after {
            Some(v) => {
                let bytes = format_value(v);
                let temp = temp_path_for(path, transaction_id);
                let digest = digest_of(bytes.as_slice());
                files.push(PendingFile { path: path.to_string(), temp_path: Some(temp.clone()), expected_post_hash: Some(digest) });
                temps.push((temp, path.to_string(), bytes));
                assert(temps_view(temps@) =~= t0.push(temps_view(temps@).last()));
                assert(temps_view(temps@) =~= temp_entries(post, transaction_id@));
                assert(delete_entries(post) =~= delete_entries(pre));
            },
            None => {
                files.push(PendingFile { path: path.to_string(), temp_path: None, expected_post_hash: None });
                deletes.push(path.to_string());
                assert(temps_view(temps@) =~= temp_entries(post, transaction_id@));
                assert(delete_entries(post) =~= delete_entries(pre).push(wv[i as int].0));
            },
        }
        i = i + 1;
    }
    assert(wv.subrange(0, wv.len() as int) =~= wv);
    let ghost t1 = temps_view(temps@);
    let temp = temp_path_for(MANIFEST_FILE, transaction_id);
    let digest = digest_of(manifest_bytes.as_slice());
    files.push(PendingFile { path: MANIFEST_FILE.to_string(), temp_path: Some(temp.clone()), expected_post_hash: Some(digest) });
    temps.push((temp, MANIFEST_FILE.to_string(), manifest_bytes));
    assert(temps_view(temps@) =~= t1.push(temps_view(temps@).last()));
    CommitFiles { files, temp_writes: temps, deletes }
}

} // verus!
