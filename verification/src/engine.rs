//! The engine's decisions around a plan: the capability gate every verb runs,
//! the checks a plan must pass against its request and the loaded project
//! before its payload runs, and the structured code and exit status each
//! refusal is reported with.

use vstd::prelude::*;

use crate::capability::{Capability, Decision, Policy, capability_name, policy_decision};
use crate::chain::ChainBreak;
use crate::commit::CommitError;
use crate::finding::Finding;
use crate::json::{Json, JsonView, KeyOrder, canonical_text, compare_keys, format_value, key_less, lemma_view_members_len, view_members};
use crate::op::{FileChange, OpError, PlanRequest};
use crate::revision::{IntegrityError, extend_bytes, joined, sha256_hex, sha256_of};
use crate::tx::{change_view, changes_view, opt_view};
use crate::text::{chars_equal, chars_of, decimal, hex_of, is_lower_hex, lemma_hex_chars, push_decimal, push_str, string_of};
use vstd::slice::slice_to_vec;
use vstd::utf8::encode_utf8;

verus! {

/// The engine-side plan: an operation's materialized payload bound to the
/// project revision and hash it was materialized against, and to the engine
/// and module versions that materialized it.
#[derive(Debug)]
pub struct OperationPlan {
    pub plan_id: String,
    pub op_id: String,
    pub op_version: u32,
    pub base_project_revision: String,
    pub base_project_hash: String,
    pub engine_version: String,
    /// Module id and version, in module-id order.
    pub module_versions: Vec<(String, String)>,
    pub payload: Json,
}

/// Why a project could not be loaded or initialized.
#[derive(Debug)]
pub enum ProjectError {
    Io { path: String, source: String },
    Parse { path: String, source: String },
    Missing(String),
    NonEmpty { dir: String },
    NotADirectory { path: String },
    Integrity(IntegrityError),
}

/// Every refusal and failure of an engine verb.
#[derive(Debug)]
pub enum EngineError {
    Project(ProjectError),
    Op(OpError),
    Chain(ChainBreak),
    Commit(CommitError),
    Io(String),
    ReadOnly,
    CapabilityDenied { op_id: String, capability: String, actor: String },
    ApprovalRequired { op_id: String, capability: String, stable_id: Option<String> },
    StalePlan { base: String, current: String, hint: String },
    InvalidRequest(String),
    Blocked(Vec<Finding>),
    StagedDiffMismatch(String),
    NoChanges,
    Locked { pid: u32 },
    NotHead { requested: String, head: Option<String> },
    NotReversible { audit_id: String, reason: String },
    PendingTransactions { count: usize },
}

/// The structured code of a refusal and the exit status it ends a command
/// with: 1 for a plan the project's state makes inapplicable, 2 for a
/// refusal or an error.
pub open spec fn error_code_of(e: EngineError) -> (Seq<char>, int) {
    match e {
        EngineError::ReadOnly => ("project.read_only"@, 2),
        EngineError::CapabilityDenied { .. } => ("capability.denied"@, 2),
        EngineError::ApprovalRequired { .. } => ("capability.approval_required"@, 2),
        EngineError::StalePlan { .. } => ("plan.stale"@, 1),
        EngineError::Blocked(_) => ("plan.blocked"@, 1),
        EngineError::InvalidRequest(_) => ("op.invalid_request"@, 2),
        EngineError::Locked { .. } => ("project.locked"@, 2),
        EngineError::NotHead { .. } => ("audit.not_head"@, 1),
        EngineError::NotReversible { .. } => ("audit.not_reversible"@, 1),
        EngineError::PendingTransactions { .. } => ("project.pending_transaction"@, 2),
        EngineError::Chain(_) => ("audit.chain_broken"@, 2),
        EngineError::Op(OpError::UnknownOp(_)) => ("op.unknown"@, 2),
        EngineError::Op(OpError::InvalidRequest(_)) => ("op.invalid_request"@, 2),
        EngineError::Op(_) => ("op.failed"@, 2),
        EngineError::StagedDiffMismatch(_) => ("op.failed"@, 2),
        EngineError::NoChanges => ("plan.no_changes"@, 1),
        EngineError::Commit(_) => ("engine.io"@, 2),
        EngineError::Io(_) => ("engine.io"@, 2),
        EngineError::Project(_) => ("project.integrity"@, 2),
    }
}

/// The structured code and exit status of an engine error.
pub fn error_code(e: &EngineError) -> (res: (&'static str, i32))
    ensures
        res.0@ == error_code_of(*e).0,
        res.1 as int == error_code_of(*e).1,
{
    match e {
        EngineError::ReadOnly => ("project.read_only", 2),
        EngineError::CapabilityDenied { .. } => ("capability.denied", 2),
        EngineError::ApprovalRequired { .. } => ("capability.approval_required", 2),
        EngineError::StalePlan { .. } => ("plan.stale", 1),
        EngineError::Blocked(_) => ("plan.blocked", 1),
        EngineError::InvalidRequest(_) => ("op.invalid_request", 2),
        EngineError::Locked { .. } => ("project.locked", 2),
        EngineError::NotHead { .. } => ("audit.not_head", 1),
        EngineError::NotReversible { .. } => ("audit.not_reversible", 1),
        EngineError::PendingTransactions { .. } => ("project.pending_transaction", 2),
        EngineError::Chain(_) => ("audit.chain_broken", 2),
        EngineError::Op(OpError::UnknownOp(_)) => ("op.unknown", 2),
        EngineError::Op(OpError::InvalidRequest(_)) => ("op.invalid_request", 2),
        EngineError::Op(_) => ("op.failed", 2),
        EngineError::StagedDiffMismatch(_) => ("op.failed", 2),
        EngineError::NoChanges => ("plan.no_changes", 1),
        EngineError::Commit(_) => ("engine.io", 2),
        EngineError::Io(_) => ("engine.io", 2),
        EngineError::Project(_) => ("project.integrity", 2),
    }
}

/// What the plan checks decide, as values.
pub enum Verdict {
    /// Every check passed; the plan runs under this capability.
    Accepted(Capability),
    /// The request and the plan disagree; the message says where.
    Invalid(Seq<char>),
    /// No operation is registered under this id and version.
    UnknownOp(Seq<char>),
    /// The policy denies the actor the capability: op, capability, actor.
    Denied(Seq<char>, Seq<char>, Seq<char>),
    /// The policy asks for an approval that cannot be given: op, capability.
    Approval(Seq<char>, Seq<char>),
    /// The plan was materialized against another state: base, current, hint.
    Stale(Seq<char>, Seq<char>, Seq<char>),
    /// Re-materializing the recorded request failed with its own error.
    Rematerialize,
}

/// The verdict an engine result stands for.
pub open spec fn verdict_of(res: Result<Capability, EngineError>) -> Verdict {
    match res {
        Ok(c) => Verdict::Accepted(c),
        Err(EngineError::InvalidRequest(m)) => Verdict::Invalid(m@),
        Err(EngineError::Op(OpError::UnknownOp(m))) => Verdict::UnknownOp(m@),
        Err(EngineError::CapabilityDenied { op_id, capability, actor }) => Verdict::Denied(
            op_id@,
            capability@,
            actor@,
        ),
        Err(EngineError::ApprovalRequired { op_id, capability, stable_id: None }) => Verdict::Approval(
            op_id@,
            capability@,
        ),
        Err(EngineError::StalePlan { base, current, hint }) => Verdict::Stale(base@, current@, hint@),
        Err(_) => Verdict::Rematerialize,
    }
}

/// `<op> v<version>`: how an unregistered operation is named.
pub open spec fn op_name(op_id: Seq<char>, version: u32) -> Seq<char> {
    op_id + " v"@ + decimal(version as nat)
}

/// The capability gate: the capability the registry declares for the
/// operation (`None` when it is unregistered), resolved against the static
/// policy for the actor. A prompt refuses like a denial: no approval can be
/// given.
pub open spec fn gate(op_id: Seq<char>, version: u32, capability: Option<Capability>, actor: Seq<char>) -> Verdict {
    match capability {
        None => Verdict::UnknownOp(op_name(op_id, version)),
        Some(c) => match policy_decision(actor, c) {
            Decision::Allow => Verdict::Accepted(c),
            Decision::Deny => Verdict::Denied(op_id, capability_name(c), actor),
            Decision::Prompt => Verdict::Approval(op_id, capability_name(c)),
        },
    }
}

fn same_text(a: &str, b: &str) -> (res: bool)
    ensures
        res == (a@ == b@),
{
    chars_equal(&chars_of(a), &chars_of(b))
}

fn text(s: &str) -> (res: String)
    ensures
        res@ == s@,
{
    string_of(&chars_of(s))
}

/// Resolves the capability gate for `op_id` at `version`, whose declared
/// capability the registry gave as `capability`.
pub fn check_policy(op_id: &str, version: u32, capability: Option<Capability>, actor: &str) -> (res: Result<
    Capability,
    EngineError,
>)
    ensures
        verdict_of(res) == gate(op_id@, version, capability, actor@),
{
    match capability {
        None => {
            let mut out: Vec<char> = Vec::new();
            push_str(&mut out, op_id);
            push_str(&mut out, " v");
            push_decimal(&mut out, version as u64, 0);
            assert(out@ =~= op_name(op_id@, version));
            Err(EngineError::Op(OpError::UnknownOp(string_of(&out))))
        },
        Some(c) => match Policy::resolve(actor, c) {
            Decision::Allow => Ok(c),
            Decision::Deny => Err(
                EngineError::CapabilityDenied {
                    op_id: text(op_id),
                    capability: text(c.as_str()),
                    actor: text(actor),
                },
            ),
            Decision::Prompt => Err(
                EngineError::ApprovalRequired {
                    op_id: text(op_id),
                    capability: text(c.as_str()),
                    stable_id: None,
                },
            ),
        },
    }
}

/// Module id and version pairs as values.
pub open spec fn modules_view(v: Seq<(String, String)>) -> Seq<(Seq<char>, Seq<char>)> {
    Seq::new(v.len(), |i: int| (v[i].0@, v[i].1@))
}

/// `request <op> v<n> vs plan <op> v<n>`.
pub open spec fn disagreement_text(req_op: Seq<char>, req_version: u32, plan_op: Seq<char>, plan_version: u32) -> Seq<char> {
    "request "@ + op_name(req_op, req_version) + " vs plan "@ + op_name(plan_op, plan_version)
}

/// `<revision> (<hash>)`: a project state as a refusal names it.
pub open spec fn state_text(revision: Seq<char>, hash: Seq<char>) -> Seq<char> {
    revision + " ("@ + hash + ")"@
}

pub open spec fn stale_hint() -> Seq<char> {
    "re-run systole plan against the current revision"@
}

pub open spec fn plan_id_text() -> Seq<char> {
    "plan_id does not match this request, payload, and version stamps"@
}

pub open spec fn engine_text(plan_engine: Seq<char>, running: Seq<char>) -> Seq<char> {
    "plan was materialized by engine "@ + plan_engine + "; running engine is "@ + running
}

pub open spec fn modules_text() -> Seq<char> {
    "plan module versions do not match the project's module set"@
}

pub open spec fn payload_text() -> Seq<char> {
    "plan payload does not match the recorded request"@
}

/// The checks a plan must pass before its payload runs, in order: the plan
/// names the request's operation and version; its id is the one the request,
/// payload and version stamps derive (`expected_id`); the capability gate
/// admits the actor; it was materialized against the loaded revision and
/// hash; by the running engine; under the project's module set; and
/// re-materializing the request against the loaded project reproduces its
/// payload (`rematerialized` is that payload, `None` when re-materializing
/// failed).
pub open spec fn plan_verdict(
    req: (Seq<char>, u32, Seq<char>),
    plan: (Seq<char>, Seq<char>, u32, Seq<char>, Seq<char>, Seq<char>, Seq<(Seq<char>, Seq<char>)>, JsonView),
    expected_id: Seq<char>,
    capability: Option<Capability>,
    loaded: (Seq<char>, Seq<char>, Seq<char>, Seq<(Seq<char>, Seq<char>)>),
    rematerialized: Option<JsonView>,
) -> Verdict {
    let (req_op, req_version, actor) = req;
    let (plan_id, op_id, version, base_revision, base_hash, engine, modules, payload) = plan;
    let (revision, hash, running, loaded_modules) = loaded;
    if req_op != op_id || req_version != version {
        Verdict::Invalid(disagreement_text(req_op, req_version, op_id, version))
    } else if expected_id != plan_id {
        Verdict::Invalid(plan_id_text())
    } else {
        match gate(op_id, version, capability, actor) {
            Verdict::Accepted(c) => if base_revision != revision || base_hash != hash {
                Verdict::Stale(state_text(base_revision, base_hash), state_text(revision, hash), stale_hint())
            } else if engine != running {
                Verdict::Invalid(engine_text(engine, running))
            } else if modules != loaded_modules {
                Verdict::Invalid(modules_text())
            } else {
                match rematerialized {
                    None => Verdict::Rematerialize,
                    Some(p) => if p != payload {
                        Verdict::Invalid(payload_text())
                    } else {
                        Verdict::Accepted(c)
                    },
                }
            },
            other => other,
        }
    }
}

pub open spec fn request_view(r: PlanRequest) -> (Seq<char>, u32, Seq<char>) {
    (r.op_id@, r.op_version, r.actor@)
}

pub open spec fn plan_view(p: OperationPlan) -> (Seq<char>, Seq<char>, u32, Seq<char>, Seq<char>, Seq<char>, Seq<(Seq<char>, Seq<char>)>, JsonView) {
    (p.plan_id@, p.op_id@, p.op_version, p.base_project_revision@, p.base_project_hash@, p.engine_version@,
        modules_view(p.module_versions@), p.payload@)
}

fn same_modules(a: &Vec<(String, String)>, b: &Vec<(String, String)>) -> (res: bool)
    ensures
        res == (modules_view(a@) == modules_view(b@)),
{
    if a.len() != b.len() {
        assert(modules_view(a@).len() != modules_view(b@).len());
        return false;
    }
    let mut i: usize = 0;
    while i < a.len()
        invariant
            i <= a@.len(),
            a@.len() == b@.len(),
            forall|k: int| 0 <= k < i ==> modules_view(a@)[k] == modules_view(b@)[k],
        decreases a@.len() - i,
    {
        if !same_text(a[i].0.as_str(), b[i].0.as_str()) || !same_text(a[i].1.as_str(), b[i].1.as_str()) {
            assert(modules_view(a@)[i as int] != modules_view(b@)[i as int]);
            return false;
        }
        i = i + 1;
    }
    assert(modules_view(a@) =~= modules_view(b@));
    true
}

fn name_of(op_id: &str, version: u32, out: &mut Vec<char>)
    ensures
        final(out)@ == old(out)@ + op_name(op_id@, version),
{
    push_str(out, op_id);
    push_str(out, " v");
    push_decimal(out, version as u64, 0);
    assert(final(out)@ =~= old(out)@ + op_name(op_id@, version));
}

fn state_message(revision: &str, hash: &str) -> (res: String)
    ensures
        res@ == state_text(revision@, hash@),
{
    let mut out: Vec<char> = Vec::new();
    push_str(&mut out, revision);
    push_str(&mut out, " (");
    push_str(&mut out, hash);
    push_str(&mut out, ")");
    assert(out@ =~= state_text(revision@, hash@));
    string_of(&out)
}

/// Authenticates a plan against its request and the loaded project before
/// its payload runs. `expected_id` is the id the request, payload and version
/// stamps derive; `capability` the one the registry declares for the plan's
/// operation; `revision`, `hash`, `running` and `modules` the loaded
/// project's revision, hash, engine version and module set; and
/// `rematerialized` the result of materializing the request against the
/// loaded project. Returns the capability the plan runs under.
pub fn verify_plan(
    req: &PlanRequest,
    plan: &OperationPlan,
    expected_id: &str,
    capability: Option<Capability>,
    revision: &str,
    hash: &str,
    running: &str,
    modules: &Vec<(String, String)>,
    rematerialized: Result<Json, OpError>,
) -> (res: Result<Capability, EngineError>)
    ensures
        plan_verdict(
            request_view(*req),
            plan_view(*plan),
            expected_id@,
            capability,
            (revision@, hash@, running@, modules_view(modules@)),
            match rematerialized {
                Ok(p) => Some(p@),
                Err(_) => None,
            },
        ) != Verdict::Rematerialize ==> verdict_of(res) == plan_verdict(
            request_view(*req),
            plan_view(*plan),
            expected_id@,
            capability,
            (revision@, hash@, running@, modules_view(modules@)),
            match rematerialized {
                Ok(p) => Some(p@),
                Err(_) => None,
            },
        ),
        plan_verdict(
            request_view(*req),
            plan_view(*plan),
            expected_id@,
            capability,
            (revision@, hash@, running@, modules_view(modules@)),
            match rematerialized {
                Ok(p) => Some(p@),
                Err(_) => None,
            },
        ) == Verdict::Rematerialize ==> match rematerialized {
            Err(e) => res == Err::<Capability, EngineError>(EngineError::Op(e)),
            Ok(_) => false,
        },
{
    if !same_text(req.op_id.as_str(), plan.op_id.as_str()) || req.op_version != plan.op_version {
        let mut out: Vec<char> = Vec::new();
        push_str(&mut out, "request ");
        name_of(req.op_id.as_str(), req.op_version, &mut out);
        push_str(&mut out, " vs plan ");
        name_of(plan.op_id.as_str(), plan.op_version, &mut out);
        assert(out@ =~= disagreement_text(req.op_id@, req.op_version, plan.op_id@, plan.op_version));
        return Err(EngineError::InvalidRequest(string_of(&out)));
    }
    if !same_text(expected_id, plan.plan_id.as_str()) {
        return Err(EngineError::InvalidRequest(text("plan_id does not match this request, payload, and version stamps")));
    }
    let c = match check_policy(plan.op_id.as_str(), plan.op_version, capability, req.actor.as_str()) {
        Ok(c) => c,
        Err(e) => {
            return Err(e);
        },
    };
    if !same_text(plan.base_project_revision.as_str(), revision) || !same_text(plan.base_project_hash.as_str(), hash) {
        return Err(
            EngineError::StalePlan {
                base: state_message(plan.base_project_revision.as_str(), plan.base_project_hash.as_str()),
                current: state_message(revision, hash),
                hint: text("re-run systole plan against the current revision"),
            },
        );
    }
    if !same_text(plan.engine_version.as_str(), running) {
        let mut out: Vec<char> = Vec::new();
        push_str(&mut out, "plan was materialized by engine ");
        push_str(&mut out, plan.engine_version.as_str());
        push_str(&mut out, "; running engine is ");
        push_str(&mut out, running);
        assert(out@ =~= engine_text(plan.engine_version@, running@));
        return Err(EngineError::InvalidRequest(string_of(&out)));
    }
    if !same_modules(&plan.module_versions, modules) {
        return Err(EngineError::InvalidRequest(text("plan module versions do not match the project's module set")));
    }
    match rematerialized {
        Err(e) => Err(EngineError::Op(e)),
        Ok(p) => if !p.same(&plan.payload) {
            Err(EngineError::InvalidRequest(text("plan payload does not match the recorded request")))
        } else {
            Ok(c)
        },
    }
}

/// Where a change to `path` goes in the path-ordered changes `s`: after
/// every change whose path does not sort after it, so changes to one path
/// keep their order.
pub open spec fn slot(s: Seq<(Seq<char>, Option<JsonView>, Option<JsonView>)>, path: Seq<char>) -> nat
    decreases s.len(),
{
    if s.len() == 0 {
        0
    } else if key_less(path, s[0].0) {
        0
    } else {
        1 + slot(s.drop_first(), path)
    }
}

/// The changes ordered by path, changes to one path in their given order.
pub open spec fn by_path(s: Seq<(Seq<char>, Option<JsonView>, Option<JsonView>)>) -> Seq<(Seq<char>, Option<JsonView>, Option<JsonView>)>
    decreases s.len(),
{
    if s.len() == 0 {
        s
    } else {
        let r = by_path(s.drop_last());
        r.insert(slot(r, s.last().0) as int, s.last())
    }
}

/// The paths of the changes in `xs` that `ys` does not hold, in order.
pub open spec fn paths_not_in(
    xs: Seq<(Seq<char>, Option<JsonView>, Option<JsonView>)>,
    ys: Seq<(Seq<char>, Option<JsonView>, Option<JsonView>)>,
) -> Seq<Seq<char>>
    decreases xs.len(),
{
    if xs.len() == 0 {
        Seq::empty()
    } else {
        let r = paths_not_in(xs.drop_last(), ys);
        if ys.contains(xs.last()) {
            r
        } else {
            r.push(xs.last().0)
        }
    }
}

/// How the writes a transaction staged compare with the diff its preview
/// declared.
pub enum StagedCheck {
    /// The same changes, and at least one.
    Matches,
    /// The same changes, and none: the plan stages nothing.
    Empty,
    /// They differ; the message lists what only one side holds.
    Differs(Seq<char>),
}

/// Both change sets ordered by path must be the same sequence; where they
/// are not, the refusal lists the staged paths the diff did not declare and
/// the declared paths that were not staged.
pub open spec fn staged_check(
    declared: Seq<(Seq<char>, Option<JsonView>, Option<JsonView>)>,
    staged: Seq<(Seq<char>, Option<JsonView>, Option<JsonView>)>,
) -> StagedCheck {
    let d = by_path(declared);
    let s = by_path(staged);
    if d != s {
        StagedCheck::Differs(
            "staged-not-declared: ["@ + joined(paths_not_in(s, d)) + "]; declared-not-staged: ["@
                + joined(paths_not_in(d, s)) + "]"@,
        )
    } else if s.len() == 0 {
        StagedCheck::Empty
    } else {
        StagedCheck::Matches
    }
}

proof fn lemma_slot_at(s: Seq<(Seq<char>, Option<JsonView>, Option<JsonView>)>, path: Seq<char>, j: int)
    requires
        0 <= j <= s.len(),
        forall|k: int| 0 <= k < j ==> !key_less(path, (#[trigger] s[k]).0),
        j < s.len() ==> key_less(path, s[j].0),
    ensures
        slot(s, path) == j,
    decreases j,
{
    if j > 0 {
        assert(!key_less(path, s[0].0));
        let t = s.drop_first();
        assert forall|k: int| 0 <= k < j - 1 implies !key_less(path, (#[trigger] t[k]).0) by {
            assert(t[k] == s[k + 1]);
        }
        if j - 1 < t.len() {
            assert(t[j - 1] == s[j]);
        }
        lemma_slot_at(t, path, j - 1);
    }
}

/// The changes of `cs` at the positions `order` names.
pub open spec fn picked(cs: Seq<FileChange>, order: Seq<usize>) -> Seq<(Seq<char>, Option<JsonView>, Option<JsonView>)> {
    Seq::new(order.len(), |k: int| change_view(cs[order[k] as int]))
}

fn path_order(cs: &Vec<FileChange>) -> (order: Vec<usize>)
    ensures
        forall|k: int| 0 <= k < order@.len() ==> order@[k] < cs@.len(),
        picked(cs@, order@) == by_path(changes_view(cs@)),
{
    let ghost all = changes_view(cs@);
    let mut order: Vec<usize> = Vec::new();
    let mut i: usize = 0;
    assert(all.take(0) =~= Seq::<(Seq<char>, Option<JsonView>, Option<JsonView>)>::empty());
    assert(picked(cs@, order@) =~= by_path(all.take(0)));
    while i < cs.len()
        invariant
            i <= cs@.len(),
            all == changes_view(cs@),
            forall|k: int| 0 <= k < order@.len() ==> order@[k] < cs@.len(),
            picked(cs@, order@) == by_path(all.take(i as int)),
        decreases cs@.len() - i,
    {
        let ghost before = picked(cs@, order@);
        let ghost p = cs@[i as int].path@;
        let mut j: usize = 0;
        while j < order.len()
            invariant
                j <= order@.len(),
                before == picked(cs@, order@),
                forall|k: int| 0 <= k < order@.len() ==> order@[k] < cs@.len(),
                i < cs@.len(),
                p == cs@[i as int].path@,
                forall|k: int| 0 <= k < j ==> !key_less(p, (#[trigger] before[k]).0),
            ensures
                j <= order@.len(),
                forall|k: int| 0 <= k < j ==> !key_less(p, (#[trigger] before[k]).0),
                j < order@.len() ==> key_less(p, before[j as int].0),
            decreases order@.len() - j,
        {
            let o = order[j];
            assert(before[j as int] == change_view(cs@[o as int]));
            match compare_keys(cs[i].path.as_str(), cs[o].path.as_str()) {
                KeyOrder::Less => {
                    break;
                },
                _ => {},
            }
            j = j + 1;
        }
        proof {
            lemma_slot_at(before, p, j as int);
            assert(all.take(i + 1).drop_last() =~= all.take(i as int));
            assert(all.take(i + 1).last() == change_view(cs@[i as int]));
        }
        order.insert(j, i);
        i = i + 1;
        proof {
            assert(picked(cs@, order@) =~= before.insert(j as int, change_view(cs@[i - 1])));
        }
    }
    assert(all.take(cs@.len() as int) =~= all);
    order
}

fn same_image(a: &Option<Json>, b: &Option<Json>) -> (res: bool)
    ensures
        res == (opt_view(*a) == opt_view(*b)),
{
    match (a, b) {
        (Some(x), Some(y)) => x.same(y),
        (None, None) => true,
        _ => false,
    }
}

fn same_change(a: &FileChange, b: &FileChange) -> (res: bool)
    ensures
        res == (change_view(*a) == change_view(*b)),
{
    a.path.same(&b.path) && same_image(&a.before, &b.before) && same_image(&a.after, &b.after)
}

fn same_picked(a: &Vec<FileChange>, ao: &Vec<usize>, b: &Vec<FileChange>, bo: &Vec<usize>) -> (res: bool)
    requires
        forall|k: int| 0 <= k < ao@.len() ==> ao@[k] < a@.len(),
        forall|k: int| 0 <= k < bo@.len() ==> bo@[k] < b@.len(),
    ensures
        res == (picked(a@, ao@) == picked(b@, bo@)),
{
    if ao.len() != bo.len() {
        assert(picked(a@, ao@).len() != picked(b@, bo@).len());
        return false;
    }
    let mut k: usize = 0;
    while k < ao.len()
        invariant
            k <= ao@.len(),
            ao@.len() == bo@.len(),
            forall|k: int| 0 <= k < ao@.len() ==> ao@[k] < a@.len(),
            forall|k: int| 0 <= k < bo@.len() ==> bo@[k] < b@.len(),
            forall|m: int| 0 <= m < k ==> picked(a@, ao@)[m] == picked(b@, bo@)[m],
        decreases ao@.len() - k,
    {
        if !same_change(&a[ao[k]], &b[bo[k]]) {
            assert(picked(a@, ao@)[k as int] != picked(b@, bo@)[k as int]);
            return false;
        }
        k = k + 1;
    }
    assert(picked(a@, ao@) =~= picked(b@, bo@));
    true
}

fn holds(ys: &Vec<FileChange>, yo: &Vec<usize>, c: &FileChange) -> (res: bool)
    requires
        forall|k: int| 0 <= k < yo@.len() ==> yo@[k] < ys@.len(),
    ensures
        res == picked(ys@, yo@).contains(change_view(*c)),
{
    let ghost s = picked(ys@, yo@);
    let mut k: usize = 0;
    while k < yo.len()
        invariant
            k <= yo@.len(),
            s == picked(ys@, yo@),
            forall|k: int| 0 <= k < yo@.len() ==> yo@[k] < ys@.len(),
            forall|m: int| 0 <= m < k ==> s[m] != change_view(*c),
        decreases yo@.len() - k,
    {
        if same_change(&ys[yo[k]], c) {
            assert(s[k as int] == change_view(*c));
            return true;
        }
        k = k + 1;
    }
    assert(!s.contains(change_view(*c)));
    false
}

/// Appends `joined(paths_not_in(xs, ys))` for the path-ordered sides.
fn missing_list(xs: &Vec<FileChange>, xo: &Vec<usize>, ys: &Vec<FileChange>, yo: &Vec<usize>, out: &mut Vec<char>)
    requires
        forall|k: int| 0 <= k < xo@.len() ==> xo@[k] < xs@.len(),
        forall|k: int| 0 <= k < yo@.len() ==> yo@[k] < ys@.len(),
    ensures
        final(out)@ == old(out)@ + joined(paths_not_in(picked(xs@, xo@), picked(ys@, yo@))),
{
    let ghost x = picked(xs@, xo@);
    let ghost y = picked(ys@, yo@);
    let ghost start = out@;
    let mut list: Vec<char> = Vec::new();
    let mut any = false;
    let mut k: usize = 0;
    assert(x.take(0) =~= Seq::<(Seq<char>, Option<JsonView>, Option<JsonView>)>::empty());
    while k < xo.len()
        invariant
            k <= xo@.len(),
            x == picked(xs@, xo@),
            y == picked(ys@, yo@),
            forall|k: int| 0 <= k < xo@.len() ==> xo@[k] < xs@.len(),
            forall|k: int| 0 <= k < yo@.len() ==> yo@[k] < ys@.len(),
            list@ == joined(paths_not_in(x.take(k as int), y)),
            any == (paths_not_in(x.take(k as int), y).len() > 0),
        decreases xo@.len() - k,
    {
        let ghost r = paths_not_in(x.take(k as int), y);
        let c = &xs[xo[k]];
        assert(x[k as int] == change_view(*c));
        assert(x.take(k + 1).drop_last() =~= x.take(k as int));
        assert(x.take(k + 1).last() == x[k as int]);
        if !holds(ys, yo, c) {
            if any {
                push_str(&mut list, ", ");
            }
            push_str(&mut list, c.path.as_str());
            any = true;
            proof {
                let q = r.push(c.path@);
                assert(q.drop_last() =~= r);
                assert(q == paths_not_in(x.take(k + 1), y));
                if r.len() == 0 {
                    assert(list@ =~= joined(q));
                } else {
                    assert(list@ =~= joined(q));
                }
            }
        }
        k = k + 1;
    }
    assert(x.take(xo@.len() as int) =~= x);
    crate::json::push_chars(out, &list);
}

/// Compares the writes a transaction staged with the diff its preview
/// declared: they must be the same changes, and at least one.
pub fn check_staged(declared: &Vec<FileChange>, staged: &Vec<FileChange>) -> (res: Result<(), EngineError>)
    ensures
        match staged_check(changes_view(declared@), changes_view(staged@)) {
            StagedCheck::Matches => res is Ok,
            StagedCheck::Empty => res matches Err(EngineError::NoChanges),
            StagedCheck::Differs(m) => res matches Err(EngineError::StagedDiffMismatch(x)) && x@ == m,
        },
{
    let d_order = path_order(declared);
    let s_order = path_order(staged);
    if !same_picked(declared, &d_order, staged, &s_order) {
        let mut out: Vec<char> = Vec::new();
        push_str(&mut out, "staged-not-declared: [");
        missing_list(staged, &s_order, declared, &d_order, &mut out);
        push_str(&mut out, "]; declared-not-staged: [");
        missing_list(declared, &d_order, staged, &s_order, &mut out);
        push_str(&mut out, "]");
        let ghost d = by_path(changes_view(declared@));
        let ghost s = by_path(changes_view(staged@));
        assert(out@ =~= "staged-not-declared: ["@ + joined(paths_not_in(s, d)) + "]; declared-not-staged: ["@
            + joined(paths_not_in(d, s)) + "]"@);
        return Err(EngineError::StagedDiffMismatch(string_of(&out)));
    }
    if s_order.len() == 0 {
        return Err(EngineError::NoChanges);
    }
    Ok(())
}

/// The module versions as the JSON object a plan id digests: one string
/// member per module, in the given order.
pub open spec fn modules_json(modules: Seq<(Seq<char>, Seq<char>)>) -> JsonView {
    JsonView::Object(Seq::new(modules.len(), |i: int| (modules[i].0, JsonView::Str(modules[i].1))))
}

/// The bytes a plan id digests: the serialized request envelope, the base
/// revision, the canonical payload, the engine version and the canonical
/// module versions, one after another.
pub open spec fn plan_domain(
    envelope: Seq<u8>,
    base_revision: Seq<char>,
    payload: JsonView,
    engine: Seq<char>,
    modules: Seq<(Seq<char>, Seq<char>)>,
) -> Seq<u8> {
    envelope + encode_utf8(base_revision) + encode_utf8(canonical_text(payload)) + encode_utf8(engine)
        + encode_utf8(canonical_text(modules_json(modules)))
}

/// `plan_` + the first 16 hex digits of sha256 over `domain`.
pub open spec fn plan_id_digest(domain: Seq<u8>) -> Seq<char> {
    "plan_"@ + hex_of(sha256_of(domain)).subrange(0, 16)
}

/// The deterministic plan id of a request (its serialized envelope) planned
/// against `base_revision`, with `payload`, under the engine and module
/// versions given (modules in module-id order).
pub fn plan_id_of(envelope: &[u8], base_revision: &str, payload: &Json, engine: &str, modules: &Vec<(String, String)>) -> (res: String)
    ensures
        res@ == plan_id_digest(plan_domain(envelope@, base_revision@, payload@, engine@, modules_view(modules@))),
        res@.len() == 21,
        forall|i: int| 5 <= i < 21 ==> is_lower_hex(#[trigger] res@[i]),
{
    let mut members: Vec<(String, Json)> = Vec::new();
    let mut k: usize = 0;
    while k < modules.len()
        invariant
            k <= modules.len(),
            members@.len() == k,
            forall|j: int| 0 <= j < k ==> #[trigger] members@[j].0@ == modules@[j].0@ && members@[j].1@ == JsonView::Str(modules@[j].1@),
        decreases modules.len() - k,
    {
        members.push((modules[k].0.clone(), Json::Str(modules[k].1.clone())));
        k = k + 1;
    }
    proof { lemma_view_members_len(members@); }
    let versions = Json::Object(members);
    assert(versions@ == modules_json(modules_view(modules@))) by {
        assert(view_members(members@) =~= Seq::new(modules@.len(), |i: int| (modules_view(modules@)[i].0, JsonView::Str(modules_view(modules@)[i].1))));
    }
    let mut domain: Vec<u8> = slice_to_vec(envelope);
    extend_bytes(&mut domain, base_revision.as_bytes());
    extend_bytes(&mut domain, format_value(payload).as_slice());
    extend_bytes(&mut domain, engine.as_bytes());
    extend_bytes(&mut domain, format_value(&versions).as_slice());
    assert(domain@ =~= plan_domain(envelope@, base_revision@, payload@, engine@, modules_view(modules@)));
    let hex = chars_of(sha256_hex(domain.as_slice()).as_str());
    proof { lemma_hex_chars(sha256_of(domain@)); }
    let mut out: Vec<char> = Vec::new();
    push_str(&mut out, "plan_");
    proof { reveal_strlit("plan_"); }
    let mut i: usize = 0;
    while i < 16
        invariant
            i <= 16,
            hex@ == hex_of(sha256_of(domain@)),
            hex@.len() == 64,
            out@ == "plan_"@ + hex@.subrange(0, i as int),
        decreases 16 - i,
    {
        out.push(hex[i]);
        i = i + 1;
        assert(out@ =~= "plan_"@ + hex@.subrange(0, i as int));
    }
    assert forall|j: int| 5 <= j < 21 implies is_lower_hex(#[trigger] out@[j]) by {
        assert(out@[j] == hex@[j - 5]);
    }
    string_of(&out)
}

} // verus!
