//! Resolving an interrupted commit: the decisions `project doctor` makes
//! about a pending marker. Where each of its files stands, whether the
//! marker's claims agree with the verified log tail and the manifest, how a
//! torn final log line is repaired, and whether the transaction completes or
//! rolls back. The reads, renames and writes are the caller's.

use vstd::prelude::*;

use crate::audit::audit_id_text;
use crate::chain::expected_prev;
use crate::commit::{PendingFile, is_inside, is_project_relative, pending_view};
use crate::ops::{debug_str, debug_text};
use crate::json::{Json, JsonView, compact, field_of, format_line, text_field};
use crate::ir::RelPath;
use crate::op::FileChange;
use crate::revision::{digest_of, digest_text, lookup_digest, recorded_digest, table_view};
use crate::tx::{change_view, changes_view};
use crate::text::{bytes_equal, chars_equal, chars_of, push_str, string_of};
use vstd::utf8::encode_utf8;

verus! {

/// Where one marker file stands relative to its post-state.
#[derive(Clone, Copy, Debug, PartialEq, Eq, Structural)]
pub enum FileState {
    /// The target already carries the post-state bytes (a deletion: the
    /// target is gone).
    InPlace,
    /// The temp file exists and carries the post-state bytes.
    Staged,
    /// Neither: the transaction is incomplete.
    Incomplete,
}

pub open spec fn bytes_digest(b: Option<Vec<u8>>) -> Option<Seq<char>> {
    match b {
        Some(v) => Some(digest_text(v@)),
        None => None,
    }
}

/// The state of `file` given the target's bytes and the temp's bytes (each
/// `None` when unreadable) and whether the target exists.
pub open spec fn state_of(
    file: (Seq<char>, Option<Seq<char>>, Option<Seq<char>>),
    target: Option<Seq<char>>,
    temp: Option<Seq<char>>,
    target_exists: bool,
) -> FileState {
    match file.1 {
        Some(_) => {
            let expected = match file.2 {
                Some(h) => h,
                None => Seq::empty(),
            };
            if target == Some(expected) {
                FileState::InPlace
            } else if temp == Some(expected) {
                FileState::Staged
            } else {
                FileState::Incomplete
            }
        },
        None => if target_exists { FileState::Incomplete } else { FileState::InPlace },
    }
}

fn same_text(a: &str, b: &str) -> (res: bool)
    ensures
        res == (a@ == b@),
{
    crate::text::chars_equal(&crate::text::chars_of(a), &crate::text::chars_of(b))
}

/// Where `file` stands: `target_bytes` and `temp_bytes` are what reading the
/// target and the temp gave (`None` when unreadable); `target_exists` says
/// whether the target is there at all.
pub fn file_state(file: &PendingFile, target_bytes: Option<Vec<u8>>, temp_bytes: Option<Vec<u8>>, target_exists: bool) -> (res: FileState)
    ensures
        res == state_of(pending_view(*file), bytes_digest(target_bytes), bytes_digest(temp_bytes), target_exists),
{
    match &file.temp_path {
        Some(_) => {
            let expected = match &file.expected_post_hash {
                Some(h) => h.clone(),
                None => String::new(),
            };
            match &target_bytes {
                Some(b) => {
                    if same_text(digest_of(b.as_slice()).as_str(), expected.as_str()) {
                        return FileState::InPlace;
                    }
                },
                None => {},
            }
            match &temp_bytes {
                Some(b) => {
                    if same_text(digest_of(b.as_slice()).as_str(), expected.as_str()) {
                        return FileState::Staged;
                    }
                },
                None => {},
            }
            FileState::Incomplete
        },
        None => if target_exists { FileState::Incomplete } else { FileState::InPlace },
    }
}

/// The start of the log's final line: just after its last newline.
pub open spec fn line_start(log: Seq<u8>) -> int
    decreases log.len(),
{
    if log.len() == 0 {
        0
    } else if log.last() == 10u8 {
        log.len() as int
    } else {
        line_start(log.drop_last())
    }
}

proof fn lemma_line_start(log: Seq<u8>)
    ensures
        0 <= line_start(log) <= log.len(),
        line_start(log) > 0 ==> log[line_start(log) - 1] == 10u8,
        forall|j: int| line_start(log) <= j < log.len() ==> log[j] != 10u8,
    decreases log.len(),
{
    if log.len() > 0 && log.last() != 10u8 {
        lemma_line_start(log.drop_last());
        assert forall|j: int| line_start(log) <= j < log.len() - 1 implies log[j] != 10u8 by {
            assert(log.drop_last()[j] == log[j]);
        }
    }
}

/// What repairing a torn final audit line does: nothing when the log is
/// empty or ends with a newline (`Ok(None)`); truncation to the start of the
/// final line when that fragment is a prefix of the entry's canonical line
/// (`Ok(Some(start))`); a refusal otherwise.
pub open spec fn torn_tail_repair(log: Seq<u8>, expected_line: Seq<u8>) -> Result<Option<int>, ()> {
    if log.len() == 0 || log.last() == 10u8 {
        Ok(None)
    } else {
        let start = line_start(log);
        let fragment = log.subrange(start, log.len() as int);
        if fragment.len() <= expected_line.len() && expected_line.subrange(0, fragment.len() as int) == fragment {
            Ok(Some(start))
        } else {
            Err(())
        }
    }
}

/// Decides the repair of a torn final audit line against the canonical line
/// of the entry the marker claims.
pub fn torn_tail(log: &Vec<u8>, expected_line: &Vec<u8>) -> (res: Result<Option<usize>, ()>)
    ensures
        match res {
            Ok(None) => torn_tail_repair(log@, expected_line@) == Ok::<Option<int>, ()>(None),
            Ok(Some(n)) => torn_tail_repair(log@, expected_line@) == Ok::<Option<int>, ()>(Some(n as int)),
            Err(()) => torn_tail_repair(log@, expected_line@) is Err,
        },
{
    let n = log.len();
    if n == 0 || log[n - 1] == 10u8 {
        return Ok(None);
    }
    proof { lemma_line_start(log@); }
    let mut start: usize = n;
    while start > 0 && log[start - 1] != 10u8
        invariant
            start <= n,
            n == log@.len(),
            forall|j: int| start <= j < n ==> log@[j] != 10u8,
        decreases start,
    {
        start = start - 1;
    }
    proof {
        let s = line_start(log@);
        if s < start {
            assert(log@[start - 1] == 10u8);
        }
        if s > start {
            assert(log@[s - 1] == 10u8);
        }
        assert(s == start);
    }
    let len = n - start;
    if len > expected_line.len() {
        assert(log@.subrange(start as int, n as int).len() == len);
        assert(torn_tail_repair(log@, expected_line@) is Err);
        return Err(());
    }
    let mut k: usize = 0;
    while k < len
        invariant
            k <= len,
            len == n - start,
            n == log@.len(),
            start <= n,
            len <= expected_line@.len(),
            start == line_start(log@),
            n > 0,
            log@[n - 1] != 10u8,
            forall|j: int| 0 <= j < k ==> expected_line@[j] == log@[start + j],
        decreases len - k,
    {
        if expected_line[k] != log[start + k] {
            proof {
                assert(log@.subrange(start as int, n as int)[k as int] == log@[start + k]);
                assert(expected_line@.subrange(0, len as int)[k as int] == expected_line@[k as int]);
            }
            return Err(());
        }
        k = k + 1;
    }
    assert(expected_line@.subrange(0, len as int) =~= log@.subrange(start as int, n as int));
    Ok(Some(start))
}

/// A string field that may be `null`.
pub open spec fn opt_text_field(v: JsonView, key: Seq<char>) -> Option<Seq<char>> {
    match field_of(v, key) {
        Some(JsonView::Str(s)) => Some(s),
        _ => None,
    }
}

/// The checks on an entry that is not yet appended: it takes the chain's
/// next id, names the log tail's hash, and the manifest carries its base or
/// post revision.
pub open spec fn next_entry_check(entry: JsonView, lines: Seq<Seq<u8>>, manifest_revision: Seq<char>) -> Result<bool, Seq<char>> {
    let id = text_field(entry, "audit_id"@);
    if id != audit_id_text(lines.len()) {
        Err("entry "@ + id + " is not the chain's next id"@)
    } else if text_field(entry, "prev_hash"@) != expected_prev(lines, lines.len() as int) {
        Err("entry prev_hash does not match the log tail"@)
    } else if manifest_revision != text_field(entry, "base_project_revision"@)
        && manifest_revision != text_field(entry, "project_revision"@) {
        Err("manifest revision matches neither the entry's base nor post revision"@)
    } else {
        Ok(false)
    }
}

/// Whether the parsed log tail is the entry with audit id `id`.
pub open spec fn tail_matches(last: Option<Result<JsonView, Seq<char>>>, id: Seq<char>) -> bool {
    match last {
        Some(Ok(t)) => text_field(t, "audit_id"@) == id,
        _ => false,
    }
}

/// The parsed log tail (meaningful where it parsed).
pub open spec fn tail_of(last: Option<Result<JsonView, Seq<char>>>) -> JsonView {
    match last {
        Some(Ok(t)) => t,
        _ => JsonView::Null,
    }
}

/// The outcome of authenticating a marker against the verified log and the
/// manifest: whether its entry is already appended, or why it is refused.
/// `entry` is the marker's claimed entry, `last` the parsed log tail (or the
/// parser's complaint), `lines` the log's lines, `manifest_revision` the
/// on-disk manifest's revision.
pub open spec fn authentication(
    marker_tx: Seq<char>,
    marker_plan: Option<Seq<char>>,
    entry: JsonView,
    lines: Seq<Seq<u8>>,
    last: Option<Result<JsonView, Seq<char>>>,
    manifest_revision: Seq<char>,
) -> Result<bool, Seq<char>> {
    let id = text_field(entry, "audit_id"@);
    if text_field(entry, "transaction_id"@) != marker_tx {
        Err("marker/entry transaction_id mismatch"@)
    } else if opt_text_field(entry, "plan_id"@) != marker_plan {
        Err("marker/entry plan_id mismatch"@)
    } else {
        match last {
            Some(Err(e)) => Err("log tail is unparseable — cannot authenticate: "@ + e),
            _ => {
                if tail_matches(last, id) {
                    if encode_utf8(compact(tail_of(last))) != encode_utf8(compact(entry)) {
                        Err("appended entry differs from the marker's claim"@)
                    } else {
                        Ok(true)
                    }
                } else {
                    next_entry_check(entry, lines, manifest_revision)
                }
            },
        }
    }
}

fn field_text(v: &Json, key: &str) -> (res: String)
    ensures
        res@ == text_field(v@, key@),
{
    match v.get(key) {
        Some(f) => match f.as_text() {
            Some(s) => s.clone(),
            None => String::new(),
        },
        None => String::new(),
    }
}

fn opt_field_text(v: &Json, key: &str) -> (res: Option<String>)
    ensures
        match res {
            Some(s) => opt_text_field(v@, key@) == Some(s@),
            None => opt_text_field(v@, key@) is None,
        },
{
    match v.get(key) {
        Some(f) => match f.as_text() {
            Some(s) => Some(s.clone()),
            None => None,
        },
        None => None,
    }
}

fn reason(text: Vec<char>) -> (res: Result<bool, String>)
    ensures
        res matches Err(m) && m@ == text@,
{
    Err(string_of(&text))
}

/// Authenticates a marker's claims before anything it says is executed: the
/// marker and its entry agree on the transaction and plan; the entry is
/// either already the log tail (byte for byte) or the chain's next entry
/// naming the tail's hash; and the manifest carries the entry's base or
/// post revision.
#[verifier::rlimit(30)]
pub fn authenticate_marker(
    marker_tx: &str,
    marker_plan: &Option<String>,
    entry: &Json,
    lines: &Vec<Vec<u8>>,
    last: &Option<Result<Json, String>>,
    manifest_revision: &str,
) -> (res: Result<bool, String>)
    requires
        lines@.len() < usize::MAX,
    ensures
        match res {
            Ok(b) => authentication(marker_tx@, match marker_plan {
                Some(p) => Some(p@),
                None => None,
            }, entry@, crate::chain::lines_view(lines@), match last {
                Some(Ok(t)) => Some(Ok(t@)),
                Some(Err(e)) => Some(Err(e@)),
                None => None,
            }, manifest_revision@) == Ok::<bool, Seq<char>>(b),
            Err(m) => authentication(marker_tx@, match marker_plan {
                Some(p) => Some(p@),
                None => None,
            }, entry@, crate::chain::lines_view(lines@), match last {
                Some(Ok(t)) => Some(Ok(t@)),
                Some(Err(e)) => Some(Err(e@)),
                None => None,
            }, manifest_revision@) == Err::<bool, Seq<char>>(m@),
        },
{
    let id = field_text(entry, "audit_id");
    let tx = field_text(entry, "transaction_id");
    if !same_text(tx.as_str(), marker_tx) {
        let mut m: Vec<char> = Vec::new();
        push_str(&mut m, "marker/entry transaction_id mismatch");
        return reason(m);
    }
    let plan = opt_field_text(entry, "plan_id");
    let plans_agree = match (&plan, marker_plan) {
        (Some(a), Some(b)) => same_text(a.as_str(), b.as_str()),
        (None, None) => true,
        _ => false,
    };
    if !plans_agree {
        let mut m: Vec<char> = Vec::new();
        push_str(&mut m, "marker/entry plan_id mismatch");
        return reason(m);
    }
    let mut tail_is_entry = false;
    match last {
        Some(Err(e)) => {
            let mut m: Vec<char> = Vec::new();
            push_str(&mut m, "log tail is unparseable — cannot authenticate: ");
            push_str(&mut m, e.as_str());
            return reason(m);
        },
        Some(Ok(t)) => {
            let tail_id = field_text(t, "audit_id");
            if same_text(tail_id.as_str(), id.as_str()) {
                tail_is_entry = true;
                let a = format_line(t);
                let b = format_line(entry);
                if !bytes_equal(a.as_slice(), b.as_slice()) {
                    let mut m: Vec<char> = Vec::new();
                    push_str(&mut m, "appended entry differs from the marker's claim");
                    return reason(m);
                }
                return Ok(true);
            }
        },
        None => {},
    }
    check_next_entry(entry, lines, manifest_revision)
}

#[verifier::rlimit(30)]
fn check_next_entry(entry: &Json, lines: &Vec<Vec<u8>>, manifest_revision: &str) -> (res: Result<bool, String>)
    requires
        lines@.len() < usize::MAX,
    ensures
        match res {
            Ok(b) => next_entry_check(entry@, crate::chain::lines_view(lines@), manifest_revision@) == Ok::<bool, Seq<char>>(b),
            Err(m) => next_entry_check(entry@, crate::chain::lines_view(lines@), manifest_revision@) == Err::<bool, Seq<char>>(m@),
        },
{
    let id = field_text(entry, "audit_id");
    let count = lines.len();
    let next = crate::audit::next_audit_id(count);
    if !same_text(id.as_str(), next.as_str()) {
        let mut m: Vec<char> = Vec::new();
        push_str(&mut m, "entry ");
        push_str(&mut m, id.as_str());
        push_str(&mut m, " is not the chain's next id");
        return reason(m);
    }
    let tail_hash = crate::chain::prev_hash_at(lines, count);
    let prev = field_text(entry, "prev_hash");
    if !same_text(prev.as_str(), tail_hash.as_str()) {
        let mut m: Vec<char> = Vec::new();
        push_str(&mut m, "entry prev_hash does not match the log tail");
        return reason(m);
    }
    let base = field_text(entry, "base_project_revision");
    let post = field_text(entry, "project_revision");
    if !same_text(manifest_revision, base.as_str()) && !same_text(manifest_revision, post.as_str()) {
        let mut m: Vec<char> = Vec::new();
        push_str(&mut m, "manifest revision matches neither the entry's base nor post revision");
        return reason(m);
    }
    Ok(false)
}

/// The text a rejected marker is reported with: its transaction id, then
/// the reason.
pub open spec fn rejection_text(transaction_id: Seq<char>, reason: Seq<char>) -> Seq<char> {
    transaction_id + ": "@ + reason
}

/// Prefixes a rejection reason with the marker's transaction id.
pub fn rejection(transaction_id: &str, reason: &str) -> (res: String)
    ensures
        res@ == rejection_text(transaction_id@, reason@),
{
    let mut m: Vec<char> = Vec::new();
    push_str(&mut m, transaction_id);
    push_str(&mut m, ": ");
    push_str(&mut m, reason);
    proof { reveal_strlit(": "); }
    string_of(&m)
}

/// Whether every file of a marker can complete: each is in place or staged.
pub open spec fn completable(states: Seq<FileState>) -> bool {
    forall|i: int| 0 <= i < states.len() ==> #[trigger] states[i] != FileState::Incomplete
}

/// The decision on an authenticated marker: complete it (`Ok(true)`) when
/// every file is in place or staged; otherwise roll it back (`Ok(false)`),
/// unless its entry is already appended, which a rollback must never undo.
pub open spec fn resolution(transaction_id: Seq<char>, audit_id: Seq<char>, states: Seq<FileState>, appended: bool) -> Result<bool, Seq<char>> {
    if completable(states) {
        Ok(true)
    } else if appended {
        Err(rejection_text(transaction_id, "entry "@ + audit_id
            + " is already appended but not every post-state file is on disk — refusing to roll back a recorded transaction"@))
    } else {
        Ok(false)
    }
}

/// Decides whether a pending transaction completes or rolls back, given the
/// state of each of its files and whether its entry is already appended.
pub fn resolve(transaction_id: &str, audit_id: &str, states: &Vec<FileState>, appended: bool) -> (res: Result<bool, String>)
    ensures
        match res {
            Ok(b) => resolution(transaction_id@, audit_id@, states@, appended) == Ok::<bool, Seq<char>>(b),
            Err(m) => resolution(transaction_id@, audit_id@, states@, appended) == Err::<bool, Seq<char>>(m@),
        },
{
    let mut i: usize = 0;
    while i < states.len()
        invariant
            i <= states@.len(),
            forall|j: int| 0 <= j < i ==> #[trigger] states@[j] != FileState::Incomplete,
        decreases states@.len() - i,
    {
        if states[i] == FileState::Incomplete {
            if appended {
                let mut r: Vec<char> = Vec::new();
                push_str(&mut r, "entry ");
                push_str(&mut r, audit_id);
                push_str(&mut r, " is already appended but not every post-state file is on disk — refusing to roll back a recorded transaction");
                let text = string_of(&r);
                return Err(rejection(transaction_id, text.as_str()));
            }
            return Ok(false);
        }
        i = i + 1;
    }
    Ok(true)
}

/// What a rollback does with the manifest, whose pre-state image travels in
/// the marker: `Ok(true)` rewrites it from that image when the on-disk
/// bytes differ; `Ok(false)` leaves it; and with no image recorded while
/// the manifest's rename already landed, the marker is refused.
pub open spec fn manifest_rollback(pre: Option<Seq<u8>>, current: Option<Seq<u8>>, manifest_in_place: bool) -> Result<bool, ()> {
    match pre {
        Some(p) => Ok(current != Some(p)),
        None => if manifest_in_place { Err(()) } else { Ok(false) },
    }
}

/// Decides [`manifest_rollback`] from the recorded pre-state bytes, the
/// on-disk bytes (`None` when unreadable), and whether the manifest's
/// post-state is in place.
pub fn manifest_restore(pre: &Option<Vec<u8>>, current: &Option<Vec<u8>>, manifest_in_place: bool) -> (res: Result<bool, ()>)
    ensures
        res == manifest_rollback(opt_bytes(*pre), opt_bytes(*current), manifest_in_place),
{
    match pre {
        Some(p) => match current {
            Some(c) => Ok(!bytes_equal(c.as_slice(), p.as_slice())),
            None => Ok(true),
        },
        None => if manifest_in_place { Err(()) } else { Ok(false) },
    }
}

pub open spec fn opt_bytes(b: Option<Vec<u8>>) -> Option<Seq<u8>> {
    match b {
        Some(v) => Some(v@),
        None => None,
    }
}

/// Every recorded target of a marker stays inside the project: its path and
/// its temp path, where it has one.
pub open spec fn targets_inside(files: Seq<PendingFile>) -> bool {
    forall|i: int| 0 <= i < files.len() ==> #[trigger] file_inside(files[i])
}

/// One recorded target stays inside the project, temp path included.
pub open spec fn file_inside(f: PendingFile) -> bool {
    &&& is_inside(f.path@)
    &&& match f.temp_path {
        Some(t) => is_inside(t@),
        None => true,
    }
}

/// Whether a marker read from `audit/pending/<stem>.json` may be acted on:
/// every target stays inside the project, and the id it claims is the file's
/// stem (a forged id could aim marker writes outside the pending
/// directory).
pub open spec fn marker_admission(stem: Seq<char>, transaction_id: Seq<char>, files: Seq<PendingFile>) -> Result<(), Seq<char>> {
    let name = stem + ".json"@;
    if !targets_inside(files) {
        Err(name + ": records a file target outside the project root"@)
    } else if transaction_id != stem {
        Err(name + ": marker claims transaction_id "@ + debug_text(transaction_id))
    } else {
        Ok(())
    }
}

/// Checks a marker read from the file `<stem>.json` before it is resolved.
pub fn admit_marker(stem: &str, transaction_id: &str, files: &Vec<PendingFile>) -> (res: Result<(), String>)
    ensures
        match res {
            Ok(()) => marker_admission(stem@, transaction_id@, files@) == Ok::<(), Seq<char>>(()),
            Err(m) => marker_admission(stem@, transaction_id@, files@) == Err::<(), Seq<char>>(m@),
        },
{
    let mut name: Vec<char> = Vec::new();
    push_str(&mut name, stem);
    push_str(&mut name, ".json");
    let mut i: usize = 0;
    while i < files.len()
        invariant
            i <= files@.len(),
            name@ == stem@ + ".json"@,
            forall|j: int| 0 <= j < i ==> #[trigger] file_inside(files@[j]),
        decreases files@.len() - i,
    {
        let f = &files[i];
        let temp_ok = match &f.temp_path {
            Some(t) => is_project_relative(t.as_str()),
            None => true,
        };
        assert(f == files@[i as int]);
        if !is_project_relative(f.path.as_str()) || !temp_ok {
            push_str(&mut name, ": records a file target outside the project root");
            assert(!file_inside(files@[i as int]));
            return Err(string_of(&name));
        }
        i = i + 1;
    }
    if !same_text(transaction_id, stem) {
        push_str(&mut name, ": marker claims transaction_id ");
        let d = debug_str(transaction_id);
        push_str(&mut name, d.as_str());
        assert(targets_inside(files@));
        return Err(string_of(&name));
    }
    Ok(())
}

/// One row of the digest diff an absorbed hand edit records for `path`:
/// before, the digest the manifest recorded (null when it recorded none);
/// after, the digest of the bytes observed now (null when the file is gone).
pub open spec fn edit_row(
    table: Seq<(Seq<char>, Seq<char>)>,
    path: Seq<char>,
    observed: Option<Seq<u8>>,
) -> (Seq<char>, Option<JsonView>, Option<JsonView>) {
    (
        path,
        Some(match recorded_digest(table, path) {
            Some(d) => JsonView::Str(d),
            None => JsonView::Null,
        }),
        Some(match observed {
            Some(b) => JsonView::Str(digest_text(b)),
            None => JsonView::Null,
        }),
    )
}

pub open spec fn observed_view(o: Option<Vec<u8>>) -> Option<Seq<u8>> {
    match o {
        Some(b) => Some(b@),
        None => None,
    }
}

/// The digest rows an external-edit entry records: one per changed path,
/// in order, from the manifest's recorded digests and the bytes observed now
/// at each path (`observed[i]` for `changed[i]`).
pub fn external_edit_rows(
    changed: &Vec<RelPath>,
    recorded: &Vec<(String, String)>,
    observed: &Vec<Option<Vec<u8>>>,
) -> (res: Vec<FileChange>)
    requires
        observed@.len() == changed@.len(),
    ensures
        res@.len() == changed@.len(),
        forall|i: int| 0 <= i < changed@.len() ==> #[trigger] change_view(res@[i]) == edit_row(
            table_view(recorded@),
            changed@[i]@,
            observed_view(observed@[i]),
        ),
{
    let mut rows: Vec<FileChange> = Vec::new();
    let mut i: usize = 0;
    while i < changed.len()
        invariant
            i <= changed@.len(),
            observed@.len() == changed@.len(),
            rows@.len() == i,
            forall|j: int| 0 <= j < i ==> #[trigger] change_view(rows@[j]) == edit_row(
                table_view(recorded@),
                changed@[j]@,
                observed_view(observed@[j]),
            ),
        decreases changed@.len() - i,
    {
        let path = &changed[i];
        let before = match lookup_digest(recorded, path.as_str()) {
            Some(k) => Json::Str(recorded[k].1.clone()),
            None => Json::Null,
        };
        let after = match &observed[i] {
            Some(bytes) => Json::Str(digest_of(bytes.as_slice())),
            None => Json::Null,
        };
        rows.push(FileChange { path: path.duplicate(), before: Some(before), after: Some(after) });
        i = i + 1;
    }
    rows
}

/// What rolling back does to one marker file's target.
#[derive(Debug)]
pub enum RestoreAction {
    /// Leave the target as it is.
    Keep,
    /// Write these canonical contents back.
    Write(Json),
    /// Remove the target: it did not exist before.
    Remove,
}

pub enum RestoreView {
    Keep,
    Write(JsonView),
    Remove,
}

pub open spec fn restore_view(a: RestoreAction) -> RestoreView {
    match a {
        RestoreAction::Keep => RestoreView::Keep,
        RestoreAction::Write(j) => RestoreView::Write(j@),
        RestoreAction::Remove => RestoreView::Remove,
    }
}

/// The before-image of the first change the entry records at `path`.
pub open spec fn first_before(changes: Seq<(Seq<char>, Option<JsonView>, Option<JsonView>)>, path: Seq<char>) -> Option<Option<JsonView>>
    decreases changes.len(),
{
    if changes.len() == 0 {
        None
    } else if changes[0].0 == path {
        Some(changes[0].1)
    } else {
        first_before(changes.drop_first(), path)
    }
}

/// Rolling back restores a file only where its rename landed: the
/// before-image the entry records for its path is written back, or the
/// target removed when there was none; a path the entry does not record is
/// left alone.
pub open spec fn restore_for(
    changes: Seq<(Seq<char>, Option<JsonView>, Option<JsonView>)>,
    path: Seq<char>,
    state: FileState,
) -> RestoreView {
    if state != FileState::InPlace {
        RestoreView::Keep
    } else {
        match first_before(changes, path) {
            None => RestoreView::Keep,
            Some(Some(b)) => RestoreView::Write(b),
            Some(None) => RestoreView::Remove,
        }
    }
}

fn first_before_exec(changes: &Vec<FileChange>, path: &str) -> (res: Option<usize>)
    ensures
        first_before(changes_view(changes@), path@) == match res {
            Some(k) => Some(changes_view(changes@)[k as int].1),
            None => None,
        },
        res matches Some(k) ==> k < changes@.len(),
{
    let ghost cs = changes_view(changes@);
    let p = chars_of(path);
    let mut k: usize = 0;
    assert(cs.skip(0) =~= cs);
    while k < changes.len()
        invariant
            k <= changes@.len(),
            cs == changes_view(changes@),
            p@ == path@,
            first_before(cs, path@) == first_before(cs.skip(k as int), path@),
        decreases changes@.len() - k,
    {
        let ghost rest = cs.skip(k as int);
        assert(rest[0] == cs[k as int]);
        assert(rest.drop_first() =~= cs.skip(k + 1));
        if chars_equal(&changes[k].path.chars(), &p) {
            return Some(k);
        }
        k = k + 1;
    }
    assert(cs.skip(k as int).len() == 0);
    None
}

/// What rolling back does to each marker file (`states[i]` is where
/// `files[i]` stands), given the changes the marker's entry records.
pub fn rollback_actions(files: &Vec<PendingFile>, states: &Vec<FileState>, changes: &Vec<FileChange>) -> (res: Vec<RestoreAction>)
    requires
        states@.len() == files@.len(),
    ensures
        res@.len() == files@.len(),
        forall|i: int| 0 <= i < files@.len() ==> #[trigger] restore_view(res@[i]) == restore_for(
            changes_view(changes@),
            files@[i].path@,
            states@[i],
        ),
{
    let mut out: Vec<RestoreAction> = Vec::new();
    let mut i: usize = 0;
    while i < files.len()
        invariant
            i <= files@.len(),
            states@.len() == files@.len(),
            out@.len() == i,
            forall|j: int| 0 <= j < i ==> #[trigger] restore_view(out@[j]) == restore_for(
                changes_view(changes@),
                files@[j].path@,
                states@[j],
            ),
        decreases files@.len() - i,
    {
        let action = if states[i] != FileState::InPlace {
            RestoreAction::Keep
        } else {
            match first_before_exec(changes, files[i].path.as_str()) {
                None => RestoreAction::Keep,
                Some(k) => match &changes[k].before {
                    Some(b) => RestoreAction::Write(b.duplicate()),
                    None => RestoreAction::Remove,
                },
            }
        };
        out.push(action);
        i = i + 1;
    }
    out
}

} // verus!
