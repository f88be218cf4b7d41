use systole::capability::Capability;
use systole::engine::{check_policy, check_staged, error_code, verify_plan, EngineError, OperationPlan};
use systole::ir::RelPath;
use systole::json::Json;
use systole::op::{FileChange, OpError, PlanRequest};

fn request(op_id: &str, actor: &str) -> PlanRequest {
    PlanRequest {
        op_id: op_id.to_string(),
        op_version: 1,
        input: Json::object(vec![("text".to_string(), Json::Str("x".to_string()))]),
        actor: actor.to_string(),
    }
}

fn payload() -> Json {
    Json::object(vec![("text".to_string(), Json::Str("x".to_string()))])
}

fn plan() -> OperationPlan {
    OperationPlan {
        plan_id: "plan_x".to_string(),
        op_id: "fixture.put_note".to_string(),
        op_version: 1,
        base_project_revision: "rev_00000".to_string(),
        base_project_hash: "sha256:a".to_string(),
        engine_version: "0.1.0".to_string(),
        module_versions: vec![("systole.rpg".to_string(), "0.1.0".to_string())],
        payload: payload(),
    }
}

fn modules() -> Vec<(String, String)> {
    vec![("systole.rpg".to_string(), "0.1.0".to_string())]
}

fn verify(req: &PlanRequest, plan: &OperationPlan, rematerialized: Result<Json, OpError>) -> Result<Capability, EngineError> {
    verify_plan(
        req,
        plan,
        "plan_x",
        Some(Capability::ProjectWrite),
        "rev_00000",
        "sha256:a",
        "0.1.0",
        &modules(),
        rematerialized,
    )
}

#[test]
fn engine_errors_map_to_their_structured_codes_and_exits() {
    let cases: Vec<(EngineError, &str, i32)> = vec![
        (EngineError::ReadOnly, "project.read_only", 2),
        (
            EngineError::CapabilityDenied { op_id: "o".into(), capability: "c".into(), actor: "a".into() },
            "capability.denied",
            2,
        ),
        (
            EngineError::ApprovalRequired { op_id: "o".into(), capability: "c".into(), stable_id: None },
            "capability.approval_required",
            2,
        ),
        (
            EngineError::StalePlan { base: "rev_0".into(), current: "rev_1".into(), hint: "h".into() },
            "plan.stale",
            1,
        ),
        (EngineError::Blocked(vec![]), "plan.blocked", 1),
        (EngineError::InvalidRequest("x".into()), "op.invalid_request", 2),
        (EngineError::Locked { pid: 1 }, "project.locked", 2),
        (
            EngineError::NotHead { requested: "aud_1".into(), head: Some("aud_2".into()) },
            "audit.not_head",
            1,
        ),
        (
            EngineError::NotReversible { audit_id: "aud_1".into(), reason: "r".into() },
            "audit.not_reversible",
            1,
        ),
        (EngineError::Op(OpError::UnknownOp("o".into())), "op.unknown", 2),
        (EngineError::Op(OpError::InvalidRequest("r".into())), "op.invalid_request", 2),
        (EngineError::Op(OpError::Apply("a".into())), "op.failed", 2),
    ];
    for (err, code, exit) in cases {
        assert_eq!(error_code(&err), (code, exit), "for {err:?}");
    }
    assert_eq!(error_code(&EngineError::Io("io".into())), ("engine.io", 2));
}

#[test]
fn the_gate_allows_write_prompts_delete_and_names_unknown_ops() {
    assert_eq!(check_policy("fixture.put_note", 1, Some(Capability::ProjectWrite), "cli_local").ok(), Some(Capability::ProjectWrite));
    match check_policy("fixture.forbidden", 1, Some(Capability::DestructiveDelete), "cli_local") {
        Err(EngineError::ApprovalRequired { op_id, capability, stable_id }) => {
            assert_eq!(op_id, "fixture.forbidden");
            assert_eq!(capability, "destructive.delete");
            assert_eq!(stable_id, None);
        },
        other => panic!("expected an approval refusal, got {other:?}"),
    }
    match check_policy("fixture.put_note", 1, Some(Capability::ProjectWrite), "stranger") {
        Err(EngineError::CapabilityDenied { op_id, capability, actor }) => {
            assert_eq!((op_id.as_str(), capability.as_str(), actor.as_str()), ("fixture.put_note", "project.write", "stranger"));
        },
        other => panic!("expected a denial, got {other:?}"),
    }
    match check_policy("nope.op", 3, None, "cli_local") {
        Err(EngineError::Op(OpError::UnknownOp(m))) => assert_eq!(m, "nope.op v3"),
        other => panic!("expected an unknown op, got {other:?}"),
    }
}

#[test]
fn a_plan_matching_its_request_and_the_project_is_accepted() {
    let res = verify(&request("fixture.put_note", "cli_local"), &plan(), Ok(payload()));
    assert_eq!(res.ok(), Some(Capability::ProjectWrite));
}

#[test]
fn a_request_naming_another_op_is_invalid() {
    match verify(&request("fixture.get_note", "cli_local"), &plan(), Ok(payload())) {
        Err(EngineError::InvalidRequest(m)) => {
            assert_eq!(m, "request fixture.get_note v1 vs plan fixture.put_note v1")
        },
        other => panic!("{other:?}"),
    }
}

#[test]
fn a_foreign_plan_id_is_invalid() {
    let mut p = plan();
    p.plan_id = "plan_y".to_string();
    match verify(&request("fixture.put_note", "cli_local"), &p, Ok(payload())) {
        Err(EngineError::InvalidRequest(m)) => {
            assert_eq!(m, "plan_id does not match this request, payload, and version stamps")
        },
        other => panic!("{other:?}"),
    }
}

#[test]
fn a_plan_on_another_revision_is_stale() {
    let mut p = plan();
    p.base_project_revision = "rev_00001".to_string();
    match verify(&request("fixture.put_note", "cli_local"), &p, Ok(payload())) {
        Err(EngineError::StalePlan { base, current, hint }) => {
            assert_eq!(base, "rev_00001 (sha256:a)");
            assert_eq!(current, "rev_00000 (sha256:a)");
            assert_eq!(hint, "re-run systole plan against the current revision");
        },
        other => panic!("{other:?}"),
    }
}

#[test]
fn a_plan_from_another_engine_or_module_set_is_invalid() {
    let mut p = plan();
    p.engine_version = "9.9.9".to_string();
    match verify(&request("fixture.put_note", "cli_local"), &p, Ok(payload())) {
        Err(EngineError::InvalidRequest(m)) => {
            assert_eq!(m, "plan was materialized by engine 9.9.9; running engine is 0.1.0")
        },
        other => panic!("{other:?}"),
    }
    let mut q = plan();
    q.module_versions = vec![];
    match verify(&request("fixture.put_note", "cli_local"), &q, Ok(payload())) {
        Err(EngineError::InvalidRequest(m)) => {
            assert_eq!(m, "plan module versions do not match the project's module set")
        },
        other => panic!("{other:?}"),
    }
}

#[test]
fn an_edited_payload_is_invalid_and_a_failed_rematerialization_passes_through() {
    let edited = Json::object(vec![("text".to_string(), Json::Str("y".to_string()))]);
    match verify(&request("fixture.put_note", "cli_local"), &plan(), Ok(edited)) {
        Err(EngineError::InvalidRequest(m)) => assert_eq!(m, "plan payload does not match the recorded request"),
        other => panic!("{other:?}"),
    }
    match verify(&request("fixture.put_note", "cli_local"), &plan(), Err(OpError::InvalidRequest("bad".into()))) {
        Err(EngineError::Op(OpError::InvalidRequest(m))) => assert_eq!(m, "bad"),
        other => panic!("{other:?}"),
    }
}

#[test]
fn a_denied_actor_is_refused_before_staleness() {
    let mut p = plan();
    p.base_project_revision = "rev_00009".to_string();
    match verify(&request("fixture.put_note", "stranger"), &p, Ok(payload())) {
        Err(EngineError::CapabilityDenied { .. }) => {},
        other => panic!("{other:?}"),
    }
}

fn change(path: &str, after: Option<Json>) -> FileChange {
    FileChange { path: RelPath::new(path.to_string()), before: None, after }
}

#[test]
fn staged_writes_must_equal_the_declared_diff_in_any_order() {
    let a = || change("regions/a.json", Some(Json::UInt(1)));
    let b = || change("regions/b.json", Some(Json::UInt(2)));
    assert!(check_staged(&vec![a(), b()], &vec![b(), a()]).is_ok());
    assert!(matches!(check_staged(&vec![], &vec![]), Err(EngineError::NoChanges)));
    match check_staged(&vec![a(), b()], &vec![change("regions/c.json", None), a()]) {
        Err(EngineError::StagedDiffMismatch(m)) => {
            assert_eq!(m, "staged-not-declared: [regions/c.json]; declared-not-staged: [regions/b.json]")
        },
        other => panic!("{other:?}"),
    }
    match check_staged(&vec![change("regions/z.json", None), change("regions/y.json", None)], &vec![]) {
        Err(EngineError::StagedDiffMismatch(m)) => {
            assert_eq!(m, "staged-not-declared: []; declared-not-staged: [regions/y.json, regions/z.json]")
        },
        other => panic!("{other:?}"),
    }
}

#[test]
fn plan_ids_digest_the_envelope_revision_payload_and_versions() {
    let payload = Json::object(vec![("text".to_string(), Json::Str("hello".to_string()))]);
    let modules = vec![("core".to_string(), "0.1.0".to_string()), ("rpg".to_string(), "0.1.0".to_string())];
    let envelope = br#"{"op_id":"fixture.put_note","op_version":1,"input":{"text":"hello"},"actor":"cli_local"}"#;
    let id = systole::engine::plan_id_of(envelope, "rev_000001", &payload, "0.1.0", &modules);
    let mut domain = envelope.to_vec();
    domain.extend_from_slice(b"rev_000001");
    domain.extend_from_slice(b"{\n  \"text\": \"hello\"\n}\n");
    domain.extend_from_slice(b"0.1.0");
    domain.extend_from_slice(b"{\n  \"core\": \"0.1.0\",\n  \"rpg\": \"0.1.0\"\n}\n");
    assert_eq!(id, format!("plan_{}", &systole::revision::sha256_hex(&domain)[..16]));
    assert_eq!(id.len(), 21);
    let again = systole::engine::plan_id_of(envelope, "rev_000001", &payload, "0.1.0", &modules);
    assert_eq!(id, again);
    let other = systole::engine::plan_id_of(envelope, "rev_000002", &payload, "0.1.0", &modules);
    assert_ne!(id, other);
}
