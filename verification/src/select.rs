//! Choosing a suggested fix to plan: a finding named by its id, or by its
//! code when exactly one finding carries it, and one of its fixes by index.
//! The chosen fix is planned under the invoking actor.

use vstd::prelude::*;

use crate::finding::Finding;
use crate::json::{JsonView, compare_keys, KeyOrder};
use crate::op::PlanRequest;
use crate::ops::{debug_str, debug_text};
use crate::text::{decimal, push_decimal, push_str, string_of};

verus! {

/// The actor the command line acts as.
pub const CLI_ACTOR: &'static str = "cli_local";

/// A refusal outside the engine's error ladder: its code and message.
#[derive(Clone, Debug, PartialEq)]
pub struct Refusal {
    pub code: String,
    pub message: String,
}

/// The first finding whose id is `key`.
pub open spec fn first_with_id(fs: Seq<Finding>, key: Seq<char>) -> Option<int> {
    if exists|i: int| 0 <= i < fs.len() && (#[trigger] fs[i]).finding_id@ == key {
        Some(choose|i: int| 0 <= i < fs.len() && (#[trigger] fs[i]).finding_id@ == key
            && forall|j: int| 0 <= j < i ==> (#[trigger] fs[j]).finding_id@ != key)
    } else {
        None
    }
}

/// The indices of the findings whose code is `key`, in order.
pub open spec fn with_code(fs: Seq<Finding>, key: Seq<char>, n: int) -> Seq<int>
    decreases n,
{
    if n <= 0 {
        Seq::empty()
    } else {
        with_code(fs, key, n - 1) + if fs[n - 1].code@ == key { seq![n - 1] } else { Seq::empty() }
    }
}

/// The ids joined with `", "`.
pub open spec fn ids_joined(fs: Seq<Finding>, ix: Seq<int>) -> Seq<char>
    decreases ix.len(),
{
    if ix.len() == 0 {
        Seq::empty()
    } else if ix.len() == 1 {
        fs[ix[0]].finding_id@
    } else {
        ids_joined(fs, ix.drop_last()) + ", "@ + fs[ix.last()].finding_id@
    }
}

/// The finding `key` names: by id first, else the one finding with that
/// code; or the refusal (code, message).
pub open spec fn chosen(fs: Seq<Finding>, key: Seq<char>) -> Result<int, (Seq<char>, Seq<char>)> {
    match first_with_id(fs, key) {
        Some(i) => Ok(i),
        None => {
            let m = with_code(fs, key, fs.len() as int);
            if m.len() == 1 {
                Ok(m[0])
            } else if m.len() == 0 {
                Err(("finding.unknown"@, "no finding with id or code "@ + debug_text(key)))
            } else {
                Err(("finding.ambiguous"@, debug_text(key) + " matches "@ + decimal(m.len()) + " findings: "@ + ids_joined(fs, m)))
            }
        },
    }
}

fn same(a: &str, b: &str) -> (res: bool)
    ensures
        res == (a@ == b@),
{
    match compare_keys(a, b) {
        KeyOrder::Equal => true,
        _ => false,
    }
}

fn find_by_id(fs: &Vec<Finding>, key: &str) -> (res: Option<usize>)
    ensures
        match res {
            Some(i) => first_with_id(fs@, key@) == Some(i as int),
            None => first_with_id(fs@, key@) is None,
        },
{
    let mut i: usize = 0;
    while i < fs.len()
        invariant
            i <= fs@.len(),
            forall|j: int| 0 <= j < i ==> (#[trigger] fs@[j]).finding_id@ != key@,
        decreases fs@.len() - i,
    {
        if same(fs[i].finding_id.as_str(), key) {
            proof {
                let k = choose|k: int| 0 <= k < fs@.len() && (#[trigger] fs@[k]).finding_id@ == key@
                    && forall|j: int| 0 <= j < k ==> (#[trigger] fs@[j]).finding_id@ != key@;
                if k < i { assert(fs@[k].finding_id@ != key@); }
                if k > i { assert(fs@[i as int].finding_id@ != key@); }
            }
            return Some(i);
        }
        i = i + 1;
    }
    None
}

/// The finding `key` names, or why none is.
pub fn choose_finding(fs: &Vec<Finding>, key: &str) -> (res: Result<usize, Refusal>)
    ensures
        match res {
            Ok(i) => chosen(fs@, key@) == Ok::<int, (Seq<char>, Seq<char>)>(i as int),
            Err(r) => chosen(fs@, key@) == Err::<int, (Seq<char>, Seq<char>)>((r.code@, r.message@)),
        },
{
    match find_by_id(fs, key) {
        Some(i) => {
            return Ok(i);
        },
        None => {},
    }
    let mut matches: Vec<usize> = Vec::new();
    let mut ids: Vec<char> = Vec::new();
    let mut i: usize = 0;
    while i < fs.len()
        invariant
            i <= fs@.len(),
            matches@.len() == with_code(fs@, key@, i as int).len(),
            forall|k: int| 0 <= k < matches@.len() ==> (#[trigger] matches@[k]) as int == with_code(fs@, key@, i as int)[k],
            ids@ == ids_joined(fs@, with_code(fs@, key@, i as int)),
            forall|k: int| 0 <= k < with_code(fs@, key@, i as int).len() ==> 0 <= #[trigger] with_code(fs@, key@, i as int)[k] < i,
        decreases fs@.len() - i,
    {
        let ghost pre = with_code(fs@, key@, i as int);
        if same(fs[i].code.as_str(), key) {
            if matches.len() > 0 {
                push_str(&mut ids, ", ");
            }
            push_str(&mut ids, fs[i].finding_id.as_str());
            matches.push(i);
            proof {
                let post = with_code(fs@, key@, i + 1);
                assert(post =~= pre.push(i as int));
                assert(post.drop_last() =~= pre);
                assert(ids@ =~= ids_joined(fs@, post));
            }
        } else {
            assert(with_code(fs@, key@, i + 1) =~= pre);
        }
        i = i + 1;
    }
    if matches.len() == 1 {
        return Ok(matches[0]);
    }
    let quoted = debug_str(key);
    let mut message: Vec<char> = Vec::new();
    if matches.len() == 0 {
        push_str(&mut message, "no finding with id or code ");
        push_str(&mut message, quoted.as_str());
        return Err(Refusal { code: "finding.unknown".to_string(), message: string_of(&message) });
    }
    push_str(&mut message, quoted.as_str());
    push_str(&mut message, " matches ");
    push_decimal(&mut message, matches.len() as u64, 0);
    push_str(&mut message, " findings: ");
    crate::json::push_chars(&mut message, &ids);
    Err(Refusal { code: "finding.ambiguous".to_string(), message: string_of(&message) })
}

/// A copy of a request, acting as `actor`.
fn request_as(r: &PlanRequest, actor: &str) -> (res: PlanRequest)
    ensures
        res.op_id@ == r.op_id@,
        res.op_version == r.op_version,
        res.input@ == r.input@,
        res.actor@ == actor@,
{
    PlanRequest { op_id: r.op_id.clone(), op_version: r.op_version, input: r.input.duplicate(), actor: actor.to_string() }
}

/// The fix a finding offers at `fix_index`, to be planned under the
/// command line's actor; or the `finding.no_fix` refusal.
pub fn choose_fix(f: &Finding, fix_index: usize) -> (res: Result<PlanRequest, Refusal>)
    ensures
        fix_index < f.suggested_fixes@.len() ==> (res matches Ok(r) && (r.op_id@ == f.suggested_fixes@[fix_index as int].op_id@
            && r.op_version == f.suggested_fixes@[fix_index as int].op_version
            && r.input@ == f.suggested_fixes@[fix_index as int].input@
            && r.actor@ == CLI_ACTOR@)),
        fix_index >= f.suggested_fixes@.len() ==> (res matches Err(e) && (e.code@ == "finding.no_fix"@
            && e.message@ == "finding "@ + f.finding_id@ + " has "@ + decimal(f.suggested_fixes@.len()) + " suggested fix(es); no fix at index "@ + decimal(fix_index as nat))),
{
    if fix_index < f.suggested_fixes.len() {
        return Ok(request_as(&f.suggested_fixes[fix_index], CLI_ACTOR));
    }
    let mut message: Vec<char> = Vec::new();
    push_str(&mut message, "finding ");
    push_str(&mut message, f.finding_id.as_str());
    push_str(&mut message, " has ");
    push_decimal(&mut message, f.suggested_fixes.len() as u64, 0);
    push_str(&mut message, " suggested fix(es); no fix at index ");
    push_decimal(&mut message, fix_index as u64, 0);
    Err(Refusal { code: "finding.no_fix".to_string(), message: string_of(&message) })
}

} // verus!
