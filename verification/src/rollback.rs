//! Rolling back the head transaction: which entries may be compensated, and
//! the compensating write set. Only the audit head rolls back; a hand edit
//! absorbed by the doctor does not; every recorded target must stay inside
//! the project; and the compensation swaps each change's before- and
//! after-image, so committing it restores the state the head transaction
//! started from.

use vstd::prelude::*;

use crate::chain::ChainBreak;
use crate::commit::{applied, is_inside, is_project_relative};
use crate::ir::RelPath;
use crate::json::{Json, JsonView, assigned, field_of, text_field};
use crate::op::FileChange;
use crate::regions::array_field;
use crate::text::{chars_equal, chars_of, push_str, string_of};
use crate::tx::{changes_view, opt_view};

verus! {

/// Why a rollback is refused.
#[derive(Debug)]
pub enum RollbackRefusal {
    /// Only the audit head can be rolled back.
    NotHead { requested: String, head: Option<String> },
    /// The head entry could not be read as the one requested.
    Io(String),
    /// The entry records no reversible change (an absorbed hand edit).
    NotReversible { audit_id: String, reason: String },
    /// The head entry records a target outside the project.
    Chain(ChainBreak),
}

/// A refusal as values.
pub enum RefusalView {
    NotHead(Seq<char>, Option<Seq<char>>),
    Io(Seq<char>),
    NotReversible(Seq<char>, Seq<char>),
    Chain(int, Option<Seq<char>>, Seq<char>),
}

pub open spec fn refusal_view(r: RollbackRefusal) -> RefusalView {
    match r {
        RollbackRefusal::NotHead { requested, head } => RefusalView::NotHead(requested@, match head {
            Some(h) => Some(h@),
            None => None,
        }),
        RollbackRefusal::Io(m) => RefusalView::Io(m@),
        RollbackRefusal::NotReversible { audit_id, reason } => RefusalView::NotReversible(audit_id@, reason@),
        RollbackRefusal::Chain(b) => RefusalView::Chain(b.index as int, match b.audit_id {
            Some(id) => Some(id@),
            None => None,
        }, b.reason@),
    }
}

/// A recorded image: `null` (or nothing) is no file.
pub open spec fn image(v: Option<JsonView>) -> Option<JsonView> {
    match v {
        Some(JsonView::Null) => None,
        Some(x) => Some(x),
        None => None,
    }
}

/// One recorded change: path, before-image, after-image.
#[verifier::opaque]
pub open spec fn recorded(c: JsonView) -> (Seq<char>, Option<JsonView>, Option<JsonView>) {
    (text_field(c, "path"@), image(field_of(c, "before"@)), image(field_of(c, "after"@)))
}

/// The changes an audit entry records.
#[verifier::opaque]
pub open spec fn entry_changes(e: JsonView) -> Seq<(Seq<char>, Option<JsonView>, Option<JsonView>)> {
    let cs = array_field(e, "changes"@);
    Seq::new(cs.len(), |i: int| recorded(cs[i]))
}

/// The compensation of a change set: each before-image becomes the
/// after-image and the other way round.
pub open spec fn inverse_of(cs: Seq<(Seq<char>, Option<JsonView>, Option<JsonView>)>) -> Seq<(Seq<char>, Option<JsonView>, Option<JsonView>)> {
    Seq::new(cs.len(), |i: int| (cs[i].0, cs[i].2, cs[i].1))
}

pub open spec fn all_inside(cs: Seq<(Seq<char>, Option<JsonView>, Option<JsonView>)>) -> bool {
    forall|i: int| 0 <= i < cs.len() ==> is_inside(#[trigger] cs[i].0)
}

/// Rolling back `audit_id` when the manifest's head is `head`, the log has
/// `line_count` lines, and `entry` is its last entry (`None` when the log
/// is empty): the compensating changes, or why not.
pub open spec fn rollback_outcome(
    audit_id: Seq<char>,
    head: Option<Seq<char>>,
    line_count: nat,
    entry: Option<JsonView>,
) -> Result<Seq<(Seq<char>, Option<JsonView>, Option<JsonView>)>, RefusalView> {
    if head != Some(audit_id) {
        Err(RefusalView::NotHead(audit_id, head))
    } else {
        match entry {
            None => Err(RefusalView::Io("audit log is empty"@)),
            Some(e) => entry_outcome(audit_id, line_count, e),
        }
    }
}

/// Rolling back the head entry `e`, the last of `line_count` lines.
pub open spec fn entry_outcome(
    audit_id: Seq<char>,
    line_count: nat,
    e: JsonView,
) -> Result<Seq<(Seq<char>, Option<JsonView>, Option<JsonView>)>, RefusalView> {
    let id = text_field(e, "audit_id"@);
    if id != audit_id {
        Err(RefusalView::Io("head entry is "@ + id + ", not "@ + audit_id))
    } else if text_field(e, "op_id"@) == "core.external_edit"@ {
        Err(RefusalView::NotReversible(audit_id, "external_edit"@))
    } else if !all_inside(entry_changes(e)) {
        Err(RefusalView::Chain(
            if line_count > 0 { line_count - 1 } else { 0 },
            Some(id),
            "head entry records an out-of-project target"@,
        ))
    } else {
        Ok(inverse_of(entry_changes(e)))
    }
}

fn same_text(a: &str, b: &str) -> (res: bool)
    ensures
        res == (a@ == b@),
{
    chars_equal(&chars_of(a), &chars_of(b))
}

fn field_text(v: &Json, key: &str) -> (res: String)
    ensures
        res@ == text_field(v@, key@),
{
    match v.get(key) {
        Some(f) => match f.as_text() {
            Some(s) => s.clone(),
            None => String::new(),
        },
        None => String::new(),
    }
}

fn image_of(v: Option<&Json>) -> (res: Option<Json>)
    ensures
        opt_view(res) == image(match v {
            Some(j) => Some(j@),
            None => None,
        }),
{
    match v {
        Some(Json::Null) => None,
        Some(j) => Some(j.duplicate()),
        None => None,
    }
}

/// The compensation of one recorded change, when its path stays inside the
/// project.
fn compensate_one(c: &Json) -> (res: Option<FileChange>)
    ensures
        match res {
            Some(f) => is_inside(recorded(c@).0) && crate::tx::change_view(f) == (recorded(c@).0, recorded(c@).2, recorded(c@).1),
            None => !is_inside(recorded(c@).0),
        },
{
    proof { reveal(recorded); }
    let path = field_text(c, "path");
    if !is_project_relative(path.as_str()) {
        return None;
    }
    let before = image_of(c.get("before"));
    let after = image_of(c.get("after"));
    Some(FileChange { path: RelPath::new(path), before: after, after: before })
}

/// The compensating changes of `e`'s recorded changes, when every target
/// stays inside the project.
fn compensation(e: &Json) -> (res: Option<Vec<FileChange>>)
    ensures
        match res {
            Some(cs) => all_inside(entry_changes(e@)) && changes_view(cs@) == inverse_of(entry_changes(e@)),
            None => !all_inside(entry_changes(e@)),
        },
{
    let items: &[Json] = match e.get("changes") {
        Some(Json::Array(a)) => a.as_slice(),
        _ => {
            assert(crate::json::view_items(Seq::<Json>::empty()) =~= Seq::<JsonView>::empty());
            &[]
        },
    };
    let ghost iv = crate::json::view_items(items@);
    proof {
        crate::json::lemma_view_items_len(items@);
        reveal(entry_changes);
    }
    assert(iv == array_field(e@, "changes"@));
    let ghost ec = entry_changes(e@);
    let mut out: Vec<FileChange> = Vec::new();
    let mut i: usize = 0;
    while i < items.len()
        invariant
            i <= items@.len(),
            iv == crate::json::view_items(items@),
            iv.len() == items@.len(),
            forall|k: int| 0 <= k < items@.len() ==> #[trigger] iv[k] == items@[k]@,
            ec == entry_changes(e@),
            ec.len() == items@.len(),
            forall|k: int| 0 <= k < ec.len() ==> #[trigger] ec[k] == recorded(iv[k]),
            out@.len() == i,
            forall|j: int| 0 <= j < i ==> is_inside(#[trigger] ec[j].0),
            forall|j: int| 0 <= j < i ==> #[trigger] changes_view(out@)[j] == (ec[j].0, ec[j].2, ec[j].1),
        decreases items@.len() - i,
    {
        let c = &items[i];
        let f = match compensate_one(c) {
            Some(f) => f,
            None => {
                assert(!is_inside(ec[i as int].0));
                return None;
            },
        };
        let ghost prev = out@;
        out.push(f);
        proof {
            assert(c@ == iv[i as int]);
            assert(changes_view(out@)[i as int] == crate::tx::change_view(out@[i as int]));
            assert forall|j: int| 0 <= j < i + 1 implies #[trigger] changes_view(out@)[j] == (ec[j].0, ec[j].2, ec[j].1) by {
                if j < i {
                    assert(out@[j] == prev[j]);
                    assert(changes_view(prev)[j] == crate::tx::change_view(prev[j]));
                }
            }
        }
        i = i + 1;
    }
    assert(changes_view(out@) =~= inverse_of(ec));
    Some(out)
}

/// Only the head entry can be rolled back: refused, naming the head, unless
/// `audit_id` is the manifest's `head`.
pub fn check_rollback_head(audit_id: &str, head: &Option<String>) -> (res: Result<(), RollbackRefusal>)
    ensures
        match res {
            Ok(()) => *head matches Some(h) && h@ == audit_id@,
            Err(r) => !(*head matches Some(h) && h@ == audit_id@) && refusal_view(r) == RefusalView::NotHead(audit_id@, match head {
                Some(h) => Some(h@),
                None => None,
            }),
        },
{
    let is_head = match head {
        Some(h) => same_text(h.as_str(), audit_id),
        None => false,
    };
    if !is_head {
        let h = match head {
            Some(h) => Some(h.clone()),
            None => None,
        };
        return Err(RollbackRefusal::NotHead { requested: audit_id.to_string(), head: h });
    }
    Ok(())
}

/// Decides a rollback of `audit_id`: refused unless it is the manifest's
/// head `head` and the last of the log's `line_count` lines, parsed as
/// `entry`, is that entry; refused for an absorbed hand edit and for an
/// entry recording a target outside the project; otherwise the
/// compensating changes, each change's images swapped.
pub fn rollback_changes(audit_id: &str, head: &Option<String>, line_count: usize, entry: &Option<Json>) -> (res: Result<Vec<FileChange>, RollbackRefusal>)
    ensures
        match res {
            Ok(cs) => rollback_outcome(audit_id@, match head {
                Some(h) => Some(h@),
                None => None,
            }, line_count as nat, opt_view(*entry)) == Ok::<_, RefusalView>(changes_view(cs@)),
            Err(r) => rollback_outcome(audit_id@, match head {
                Some(h) => Some(h@),
                None => None,
            }, line_count as nat, opt_view(*entry)) == Err::<Seq<(Seq<char>, Option<JsonView>, Option<JsonView>)>, RefusalView>(refusal_view(r)),
        },
{
    match check_rollback_head(audit_id, head) {
        Err(r) => return Err(r),
        Ok(()) => {},
    }
    let e = match entry {
        None => return Err(RollbackRefusal::Io("audit log is empty".to_string())),
        Some(e) => e,
    };
    entry_compensation(audit_id, line_count, e)
}

fn entry_compensation(audit_id: &str, line_count: usize, e: &Json) -> (res: Result<Vec<FileChange>, RollbackRefusal>)
    ensures
        match res {
            Ok(cs) => entry_outcome(audit_id@, line_count as nat, e@) == Ok::<_, RefusalView>(changes_view(cs@)),
            Err(r) => entry_outcome(audit_id@, line_count as nat, e@) == Err::<Seq<(Seq<char>, Option<JsonView>, Option<JsonView>)>, RefusalView>(refusal_view(r)),
        },
{
    let id = field_text(e, "audit_id");
    if !same_text(id.as_str(), audit_id) {
        let mut m: Vec<char> = Vec::new();
        push_str(&mut m, "head entry is ");
        push_str(&mut m, id.as_str());
        push_str(&mut m, ", not ");
        push_str(&mut m, audit_id);
        return Err(RollbackRefusal::Io(string_of(&m)));
    }
    let op = field_text(e, "op_id");
    if same_text(op.as_str(), "core.external_edit") {
        return Err(RollbackRefusal::NotReversible { audit_id: audit_id.to_string(), reason: "external_edit".to_string() });
    }
    match compensation(e) {
        Some(cs) => Ok(cs),
        None => {
            let index = if line_count > 0 { line_count - 1 } else { 0 };
            Err(RollbackRefusal::Chain(ChainBreak {
                index,
                audit_id: Some(id),
                reason: "head entry records an out-of-project target".to_string(),
            }))
        },
    }
}


/// Compensating twice gives back the original change set.
pub proof fn law_compensation_is_an_involution(cs: Seq<(Seq<char>, Option<JsonView>, Option<JsonView>)>)
    ensures
        inverse_of(inverse_of(cs)) == cs,
{
    assert(inverse_of(inverse_of(cs)) =~= cs);
}

/// Each change's path and after-image, as a write.
pub open spec fn writes_of(cs: Seq<(Seq<char>, Option<JsonView>, Option<JsonView>)>) -> Seq<(Seq<char>, Option<JsonView>)> {
    Seq::new(cs.len(), |i: int| (cs[i].0, cs[i].2))
}

pub open spec fn paths_distinct(cs: Seq<(Seq<char>, Option<JsonView>, Option<JsonView>)>) -> bool {
    forall|i: int, j: int| 0 <= i < j < cs.len() ==> #[trigger] cs[i].0 != #[trigger] cs[j].0
}

proof fn lemma_applied_absent(base: Seq<(Seq<char>, JsonView)>, ws: Seq<(Seq<char>, Option<JsonView>)>, k: Seq<char>)
    requires
        forall|i: int| 0 <= i < ws.len() ==> #[trigger] ws[i].0 != k,
    ensures
        applied(base, ws, k) == assigned(base, k),
    decreases ws.len(),
{
    if ws.len() > 0 {
        assert(ws[ws.len() - 1].0 != k);
        lemma_applied_absent(base, ws.drop_last(), k);
    }
}

proof fn lemma_applied_at(base: Seq<(Seq<char>, JsonView)>, ws: Seq<(Seq<char>, Option<JsonView>)>, k: Seq<char>, j: int)
    requires
        0 <= j < ws.len(),
        ws[j].0 == k,
        forall|i: int| 0 <= i < ws.len() && i != j ==> #[trigger] ws[i].0 != k,
    ensures
        applied(base, ws, k) == ws[j].1,
    decreases ws.len(),
{
    if j < ws.len() - 1 {
        assert(ws[ws.len() - 1].0 != k);
        lemma_applied_at(base, ws.drop_last(), k, j);
    }
}

/// Rolling back undoes: when the head transaction's changes `cs` (one per
/// path) recorded the pre-state `base` as their before-images and left the
/// post-state `post`, writing the compensation over `post` gives back
/// `base` at every path.
pub proof fn law_compensation_restores_the_pre_state(
    base: Seq<(Seq<char>, JsonView)>,
    post: Seq<(Seq<char>, JsonView)>,
    cs: Seq<(Seq<char>, Option<JsonView>, Option<JsonView>)>,
    k: Seq<char>,
)
    requires
        paths_distinct(cs),
        forall|i: int| 0 <= i < cs.len() ==> #[trigger] cs[i].1 == assigned(base, cs[i].0),
        forall|p: Seq<char>| #[trigger] assigned(post, p) == applied(base, writes_of(cs), p),
    ensures
        applied(post, writes_of(inverse_of(cs)), k) == assigned(base, k),
{
    let inv = writes_of(inverse_of(cs));
    let fwd = writes_of(cs);
    if exists|j: int| 0 <= j < cs.len() && cs[j].0 == k {
        let j = choose|j: int| 0 <= j < cs.len() && cs[j].0 == k;
        assert forall|i: int| 0 <= i < inv.len() && i != j implies #[trigger] inv[i].0 != k by {
            if i < j {
                assert(cs[i].0 != cs[j].0);
            } else {
                assert(cs[j].0 != cs[i].0);
            }
        }
        lemma_applied_at(post, inv, k, j);
        assert(inv[j].1 == cs[j].1);
    } else {
        assert forall|i: int| 0 <= i < inv.len() implies #[trigger] inv[i].0 != k by {
            assert(inv[i].0 == cs[i].0);
        }
        assert forall|i: int| 0 <= i < fwd.len() implies #[trigger] fwd[i].0 != k by {
            assert(fwd[i].0 == cs[i].0);
        }
        lemma_applied_absent(post, inv, k);
        lemma_applied_absent(base, fwd, k);
    }
}

/// What an image field of a recorded change says: the value it holds, or no
/// file when it is `null` or missing.
pub open spec fn stored_image(f: Option<JsonView>, v: Option<JsonView>) -> bool {
    match f {
        Some(JsonView::Null) | None => v is None,
        Some(x) => v == Some(x),
    }
}

/// Rolling back the head entry compensates exactly what it recorded: one
/// change per recorded change, in order, at the same path, whose
/// before-image is the recorded after-image and whose after-image is the
/// recorded before-image, each read from the entry's own `before` and
/// `after` fields.
pub proof fn law_rollback_swaps_the_recorded_images(audit_id: Seq<char>, head: Option<Seq<char>>, line_count: nat, e: JsonView)
    requires
        rollback_outcome(audit_id, head, line_count, Some(e)) is Ok,
    ensures
        ({
            let cs = rollback_outcome(audit_id, head, line_count, Some(e))->Ok_0;
            let items = array_field(e, "changes"@);
            &&& cs.len() == items.len()
            &&& forall|i: int| 0 <= i < items.len() ==> {
                &&& (#[trigger] cs[i]).0 == text_field(items[i], "path"@)
                &&& stored_image(field_of(items[i], "after"@), cs[i].1)
                &&& stored_image(field_of(items[i], "before"@), cs[i].2)
            }
        }),
{
    reveal(entry_changes);
    reveal(recorded);
    let cs = rollback_outcome(audit_id, head, line_count, Some(e))->Ok_0;
    let items = array_field(e, "changes"@);
    assert(cs == inverse_of(entry_changes(e)));
    assert forall|i: int| 0 <= i < items.len() implies {
        &&& (#[trigger] cs[i]).0 == text_field(items[i], "path"@)
        &&& stored_image(field_of(items[i], "after"@), cs[i].1)
        &&& stored_image(field_of(items[i], "before"@), cs[i].2)
    } by {
        assert(entry_changes(e)[i] == recorded(items[i]));
    }
}

} // verus!
