//! Verifying the audit chain: every line of the log is an entry in canonical
//! compact form, carries the next audit id, names only targets inside the
//! project, and records the previous line's hash (genesis for the first);
//! the manifest's `audit_head` names exactly the last line.

use vstd::prelude::*;

use crate::audit::{audit_id_text, next_audit_id};
use crate::commit::{is_inside, is_project_relative};
use crate::ir::AuditHead;
use crate::json::{
    Json, JsonView, compact, field_of, format_line, lemma_view_items_len, text_field, view_items,
};
use crate::revision::{digest_of, digest_text};
use crate::text::{bytes_equal, decimal, push_decimal, push_str, string_of};
use vstd::utf8::encode_utf8;

verus! {

/// The `prev_hash` of the first entry: `sha256:` over 64 zeros.
pub const GENESIS_PREV_HASH: &'static str = "sha256:0000000000000000000000000000000000000000000000000000000000000000";

pub open spec fn genesis_text() -> Seq<char> {
    "sha256:"@ + Seq::new(64, |i: int| '0')
}

/// The point at which chain verification failed: the 0-based line index,
/// the entry's `audit_id` when it parsed, and the reason.
#[derive(Clone, Debug, PartialEq)]
pub struct ChainBreak {
    pub index: usize,
    pub audit_id: Option<String>,
    pub reason: String,
}

pub open spec fn break_view(b: ChainBreak) -> (int, Option<Seq<char>>, Seq<char>) {
    (b.index as int, match b.audit_id {
        Some(id) => Some(id@),
        None => None,
    }, b.reason@)
}

/// How a break reads: by audit id when the entry parsed, else by line.
pub open spec fn break_message(b: (int, Option<Seq<char>>, Seq<char>)) -> Seq<char> {
    match b.1 {
        Some(id) => "audit chain broken at "@ + id + ": "@ + b.2,
        None => "audit chain broken at line "@ + decimal((b.0 + 1) as nat) + ": "@ + b.2,
    }
}

impl ChainBreak {
    pub fn message(&self) -> (res: String)
        requires
            self.index < usize::MAX,
        ensures
            res@ == break_message(break_view(*self)),
    {
        let mut out: Vec<char> = Vec::new();
        match &self.audit_id {
            Some(id) => {
                push_str(&mut out, "audit chain broken at ");
                push_str(&mut out, id.as_str());
            },
            None => {
                push_str(&mut out, "audit chain broken at line ");
                push_decimal(&mut out, (self.index + 1) as u64, 0);
            },
        }
        push_str(&mut out, ": ");
        push_str(&mut out, self.reason.as_str());
        proof {
            reveal_strlit("audit chain broken at ");
            reveal_strlit("audit chain broken at line ");
            reveal_strlit(": ");
        }
        assert(out@ =~= break_message(break_view(*self)));
        string_of(&out)
    }
}

/// The change records of an entry.
pub open spec fn change_items(v: JsonView) -> Seq<JsonView> {
    match field_of(v, "changes"@) {
        Some(JsonView::Array(items)) => items,
        _ => Seq::empty(),
    }
}

/// Every change the entry records targets a path inside the project.
pub open spec fn targets_inside(v: JsonView) -> bool {
    forall|i: int| 0 <= i < change_items(v).len() ==> is_inside(text_field(#[trigger] change_items(v)[i], "path"@))
}

/// What the entry at line `i` must name as `prev_hash`.
pub open spec fn expected_prev(lines: Seq<Seq<u8>>, i: int) -> Seq<char> {
    if i == 0 {
        genesis_text()
    } else {
        digest_text(lines[i - 1])
    }
}

/// What is wrong with line `i`, if anything: the entry's audit id when it
/// parsed, and the reason. `entries[i]` is the line parsed as an entry (its
/// serialized value), or the parser's complaint.
#[verifier::opaque]
pub open spec fn line_break(
    lines: Seq<Seq<u8>>,
    entries: Seq<Result<JsonView, Seq<char>>>,
    i: int,
) -> Option<(Option<Seq<char>>, Seq<char>)> {
    match entries[i] {
        Err(e) => Some((None, "unparseable entry: "@ + e)),
        Ok(v) => {
            let id = text_field(v, "audit_id"@);
            let prev = text_field(v, "prev_hash"@);
            if encode_utf8(compact(v)) != lines[i] {
                Some((Some(id), "entry is not in canonical line form"@))
            } else if !targets_inside(v) {
                Some((Some(id), "entry records an out-of-project target"@))
            } else if id != audit_id_text(i as nat) {
                Some((Some(id), "audit_id out of sequence: expected "@ + audit_id_text(i as nat)))
            } else if prev != expected_prev(lines, i) {
                Some((Some(id), "prev_hash mismatch: entry records "@ + prev + ", previous line hashes to "@ + expected_prev(lines, i)))
            } else {
                None
            }
        },
    }
}

/// Every line is sound.
pub open spec fn lines_intact(lines: Seq<Seq<u8>>, entries: Seq<Result<JsonView, Seq<char>>>) -> bool {
    forall|i: int| 0 <= i < lines.len() ==> #[trigger] line_break(lines, entries, i) is None
}

/// The first unsound line, if any.
pub open spec fn first_break(lines: Seq<Seq<u8>>, entries: Seq<Result<JsonView, Seq<char>>>) -> Option<int> {
    if lines_intact(lines, entries) {
        None
    } else {
        Some(choose|i: int| 0 <= i < lines.len() && #[trigger] line_break(lines, entries, i) is Some
            && forall|j: int| 0 <= j < i ==> #[trigger] line_break(lines, entries, j) is None)
    }
}

/// What is wrong with the manifest's `audit_head` (id, hash), given sound
/// lines: it must name exactly the last line.
pub open spec fn head_break(
    lines: Seq<Seq<u8>>,
    entries: Seq<Result<JsonView, Seq<char>>>,
    head: Option<(Seq<char>, Seq<char>)>,
) -> Option<(int, Option<Seq<char>>, Seq<char>)> {
    let n = lines.len() as int;
    let last_id = match entries[n - 1] {
        Ok(v) => text_field(v, "audit_id"@),
        Err(_) => Seq::empty(),
    };
    let last_hash = digest_text(lines[n - 1]);
    match head {
        None => if n == 0 {
            None
        } else {
            Some((n - 1, Some(last_id), "entries exist but audit_head is null"@))
        },
        Some(h) => if n == 0 {
            Some((0, Some(h.0), "audit_head is set but the log is empty"@))
        } else if h.0 == last_id && h.1 == last_hash {
            None
        } else {
            Some((n - 1, Some(last_id), "audit_head "@ + h.0 + " / "@ + h.1 + " does not match last entry "@ + last_id + " / "@ + last_hash))
        },
    }
}

pub open spec fn lines_view(lines: Seq<Vec<u8>>) -> Seq<Seq<u8>> {
    Seq::new(lines.len(), |i: int| lines[i]@)
}

pub open spec fn entries_view(entries: Seq<Result<Json, String>>) -> Seq<Result<JsonView, Seq<char>>> {
    Seq::new(entries.len(), |i: int| match entries[i] {
        Ok(v) => Ok(v@),
        Err(e) => Err(e@),
    })
}

pub open spec fn head_view(head: Option<&AuditHead>) -> Option<(Seq<char>, Seq<char>)> {
    match head {
        Some(h) => Some((h.id@, h.hash@)),
        None => None,
    }
}

/// The text of string field `key` of `v`, empty when it has none.
fn field_text(v: &Json, key: &str) -> (res: String)
    ensures
        res@ == text_field(v@, key@),
{
    match v.get(key) {
        Some(f) => match f.as_text() {
            Some(s) => s.clone(),
            None => String::new(),
        },
        None => String::new(),
    }
}

fn same_text(a: &str, b: &str) -> (res: bool)
    ensures
        res == (a@ == b@),
{
    match crate::json::compare_keys(a, b) {
        crate::json::KeyOrder::Equal => true,
        _ => false,
    }
}

/// Whether every change the entry records targets a path inside the
/// project.
fn targets_inside_exec(entry: &Json) -> (res: bool)
    ensures
        res == targets_inside(entry@),
{
    match entry.get("changes") {
        Some(c) => match c {
            Json::Array(items) => {
                proof { lemma_view_items_len(items@); }
                assert(change_items(entry@) == view_items(items@));
                let mut i: usize = 0;
                while i < items.len()
                    invariant
                        i <= items@.len(),
                        change_items(entry@) == view_items(items@),
                        view_items(items@).len() == items@.len(),
                        forall|j: int| 0 <= j < items@.len() ==> #[trigger] view_items(items@)[j] == items@[j]@,
                        forall|j: int| 0 <= j < i ==> is_inside(text_field(#[trigger] change_items(entry@)[j], "path"@)),
                    decreases items@.len() - i,
                {
                    let path = field_text(&items[i], "path");
                    proof { reveal_strlit("path"); }
                    if !is_project_relative(path.as_str()) {
                        assert(!is_inside(text_field(change_items(entry@)[i as int], "path"@)));
                        return false;
                    }
                    i = i + 1;
                }
                true
            },
            _ => {
                assert(change_items(entry@) =~= Seq::<JsonView>::empty());
                true
            },
        },
        None => {
            assert(change_items(entry@) =~= Seq::<JsonView>::empty());
            true
        },
    }
}

/// The `prev_hash` that line `i` must name: the genesis value for the
/// first line, else the digest of line `i - 1`.
pub(crate) fn prev_hash_at(lines: &Vec<Vec<u8>>, i: usize) -> (res: String)
    requires
        i <= lines@.len(),
    ensures
        res@ == expected_prev(lines_view(lines@), i as int),
{
    if i == 0 {
        proof { reveal_strlit("sha256:0000000000000000000000000000000000000000000000000000000000000000"); }
        let g = GENESIS_PREV_HASH.to_string();
        assert(g@ =~= genesis_text()) by {
            reveal_strlit("sha256:");
        }
        g
    } else {
        digest_of(lines[i - 1].as_slice())
    }
}

fn chain_break(index: usize, audit_id: Option<String>, reason: Vec<char>) -> (res: ChainBreak)
    ensures
        break_view(res) == (index as int, match audit_id {
            Some(id) => Some(id@),
            None => None,
        }, reason@),
{
    ChainBreak { index, audit_id, reason: string_of(&reason) }
}

/// The problem with line `i`, if any.
#[verifier::rlimit(40)]
fn check_line(lines: &Vec<Vec<u8>>, entries: &Vec<Result<Json, String>>, i: usize) -> (res: Option<ChainBreak>)
    requires
        lines@.len() == entries@.len(),
        i < lines@.len(),
    ensures
        match res {
            None => line_break(lines_view(lines@), entries_view(entries@), i as int) is None,
            Some(b) => b.index == i && line_break(lines_view(lines@), entries_view(entries@), i as int) == Some((break_view(b).1, break_view(b).2)),
        },
{
    let ghost ls = lines_view(lines@);
    let ghost es = entries_view(entries@);
    proof { reveal(line_break); }
    match &entries[i] {
        Err(e) => {
            let mut reason: Vec<char> = Vec::new();
            push_str(&mut reason, "unparseable entry: ");
            push_str(&mut reason, e.as_str());
            proof { reveal_strlit("unparseable entry: "); }
            assert(reason@ =~= "unparseable entry: "@ + e@);
            Some(chain_break(i, None, reason))
        },
        Ok(entry) => {
            let id = field_text(entry, "audit_id");
            let prev = field_text(entry, "prev_hash");
            proof {
                reveal_strlit("audit_id");
                reveal_strlit("prev_hash");
            }
            assert(es[i as int] == Ok::<JsonView, Seq<char>>(entry@));
            let line = format_line(entry);
            if !bytes_equal(line.as_slice(), lines[i].as_slice()) {
                let mut reason: Vec<char> = Vec::new();
                push_str(&mut reason, "entry is not in canonical line form");
                return Some(chain_break(i, Some(id), reason));
            }
            if !targets_inside_exec(entry) {
                let mut reason: Vec<char> = Vec::new();
                push_str(&mut reason, "entry records an out-of-project target");
                return Some(chain_break(i, Some(id), reason));
            }
            let count = lines.len();
            assert(i < count);
            let expected_id = next_audit_id(i);
            if !same_text(id.as_str(), expected_id.as_str()) {
                let mut reason: Vec<char> = Vec::new();
                push_str(&mut reason, "audit_id out of sequence: expected ");
                push_str(&mut reason, expected_id.as_str());
                return Some(chain_break(i, Some(id), reason));
            }
            let expected_prev_hash = prev_hash_at(lines, i);
            assert(expected_prev_hash@ == expected_prev(ls, i as int));
            if !same_text(prev.as_str(), expected_prev_hash.as_str()) {
                let mut reason: Vec<char> = Vec::new();
                push_str(&mut reason, "prev_hash mismatch: entry records ");
                push_str(&mut reason, prev.as_str());
                push_str(&mut reason, ", previous line hashes to ");
                push_str(&mut reason, expected_prev_hash.as_str());
                return Some(chain_break(i, Some(id), reason));
            }
            None
        },
    }
}

/// Verifies the chain end to end and the manifest's `audit_head` against
/// the last line. `lines[i]` is the log's line `i` without its newline and
/// `entries[i]` what parsing it as an entry gave. On a break, the first
/// failing line's index.
pub fn verify_chain(
    lines: &Vec<Vec<u8>>,
    entries: &Vec<Result<Json, String>>,
    audit_head: Option<&AuditHead>,
) -> (res: Result<(), ChainBreak>)
    requires
        lines@.len() == entries@.len(),
    ensures
        match res {
            Ok(()) => lines_intact(lines_view(lines@), entries_view(entries@))
                && head_break(lines_view(lines@), entries_view(entries@), head_view(audit_head)) is None,
            Err(b) => match first_break(lines_view(lines@), entries_view(entries@)) {
                Some(i) => b.index == i && line_break(lines_view(lines@), entries_view(entries@), i) == Some((break_view(b).1, break_view(b).2)),
                None => head_break(lines_view(lines@), entries_view(entries@), head_view(audit_head)) == Some(break_view(b)),
            },
        },
{
    let ghost ls = lines_view(lines@);
    let ghost es = entries_view(entries@);
    let mut i: usize = 0;
    while i < lines.len()
        invariant
            i <= lines@.len(),
            lines@.len() == entries@.len(),
            ls == lines_view(lines@),
            es == entries_view(entries@),
            forall|j: int| 0 <= j < i ==> #[trigger] line_break(ls, es, j) is None,
        decreases lines@.len() - i,
    {
        match check_line(lines, entries, i) {
            Some(b) => {
                proof {
                    assert(!lines_intact(ls, es));
                    let k = choose|k: int| 0 <= k < ls.len() && #[trigger] line_break(ls, es, k) is Some
                        && forall|j: int| 0 <= j < k ==> #[trigger] line_break(ls, es, j) is None;
                    if k < i {
                        assert(line_break(ls, es, k) is None);
                    } else if k > i {
                        assert(line_break(ls, es, i as int) is None);
                    }
                }
                return Err(b);
            },
            None => {},
        }
        i = i + 1;
    }
    assert(lines_intact(ls, es));
    let n = lines.len();
    match audit_head {
        None => {
            if n == 0 {
                Ok(())
            } else {
                let last = match &entries[n - 1] {
                    Ok(v) => field_text(v, "audit_id"),
                    Err(_) => String::new(),
                };
                proof { reveal_strlit("audit_id"); }
                let mut reason: Vec<char> = Vec::new();
                push_str(&mut reason, "entries exist but audit_head is null");
                Err(chain_break(n - 1, Some(last), reason))
            }
        },
        Some(head) => {
            if n == 0 {
                let mut reason: Vec<char> = Vec::new();
                push_str(&mut reason, "audit_head is set but the log is empty");
                Err(chain_break(0, Some(head.id.clone()), reason))
            } else {
                let last = match &entries[n - 1] {
                    Ok(v) => field_text(v, "audit_id"),
                    Err(_) => String::new(),
                };
                proof { reveal_strlit("audit_id"); }
                let last_hash = digest_of(lines[n - 1].as_slice());
                if same_text(head.id.as_str(), last.as_str()) && same_text(head.hash.as_str(), last_hash.as_str()) {
                    Ok(())
                } else {
                    let mut reason: Vec<char> = Vec::new();
                    push_str(&mut reason, "audit_head ");
                    push_str(&mut reason, head.id.as_str());
                    push_str(&mut reason, " / ");
                    push_str(&mut reason, head.hash.as_str());
                    push_str(&mut reason, " does not match last entry ");
                    push_str(&mut reason, last.as_str());
                    push_str(&mut reason, " / ");
                    push_str(&mut reason, last_hash.as_str());
                    Err(chain_break(n - 1, Some(last), reason))
                }
            }
        },
    }
}


/// Law: appending the canonical line of an entry that carries the next
/// audit id, targets only paths inside the project and names the previous
/// line's hash keeps a sound chain sound, and the head naming the new line
/// is the one the chain accepts.
pub proof fn law_append_keeps_the_chain_intact(
    lines: Seq<Seq<u8>>,
    entries: Seq<Result<JsonView, Seq<char>>>,
    entry: JsonView,
)
    requires
        lines.len() == entries.len(),
        lines_intact(lines, entries),
        targets_inside(entry),
        text_field(entry, "audit_id"@) == audit_id_text(lines.len()),
        text_field(entry, "prev_hash"@) == expected_prev(lines, lines.len() as int),
    ensures
        lines_intact(lines.push(encode_utf8(compact(entry))), entries.push(Ok(entry))),
        head_break(
            lines.push(encode_utf8(compact(entry))),
            entries.push(Ok(entry)),
            Some((audit_id_text(lines.len()), digest_text(encode_utf8(compact(entry))))),
        ) is None,
{
    let line = encode_utf8(compact(entry));
    let ls = lines.push(line);
    let es = entries.push(Ok(entry));
    let n = lines.len() as int;
    reveal(line_break);
    assert forall|i: int| 0 <= i < ls.len() implies #[trigger] line_break(ls, es, i) is None by {
        if i < n {
            assert(line_break(lines, entries, i) is None);
            assert(ls[i] == lines[i]);
            assert(es[i] == entries[i]);
            if i > 0 {
                assert(ls[i - 1] == lines[i - 1]);
            }
            assert(expected_prev(ls, i) == expected_prev(lines, i));
        } else {
            assert(ls[i] == line);
            assert(es[i] == Ok::<JsonView, Seq<char>>(entry));
            if i > 0 {
                assert(ls[i - 1] == lines[i - 1]);
            }
            assert(expected_prev(ls, i) == expected_prev(lines, n));
        }
    }
}

} // verus!
