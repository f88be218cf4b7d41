use systole::finding::{finding_id, Finding, Location, Severity};
use systole::json::Json;
use systole::op::PlanRequest;
use systole::select::{choose_finding, choose_fix, CLI_ACTOR};

fn finding(id: &str, code: &str, fixes: usize) -> Finding {
    Finding {
        finding_id: id.to_string(),
        code: code.to_string(),
        severity: Severity::Error,
        location: Location { stable_id: None, path: None },
        evidence: Json::Null,
        suggested_fixes: (0..fixes)
            .map(|i| PlanRequest { op_id: "rpg.set_collision".into(), op_version: 1, input: Json::UInt(i as u64), actor: "systole.rpg".into() })
            .collect(),
        blocking: true,
    }
}

#[test]
fn a_finding_is_named_by_id_or_by_a_unique_code() {
    let fs = vec![finding("finding_a", "x.one", 1), finding("finding_b", "x.two", 0), finding("finding_c", "x.two", 0)];
    assert_eq!(choose_finding(&fs, "finding_b").unwrap(), 1);
    assert_eq!(choose_finding(&fs, "x.one").unwrap(), 0);
    let unknown = choose_finding(&fs, "x.three").unwrap_err();
    assert_eq!(unknown.code, "finding.unknown");
    assert_eq!(unknown.message, "no finding with id or code \"x.three\"");
    let ambiguous = choose_finding(&fs, "x.two").unwrap_err();
    assert_eq!(ambiguous.code, "finding.ambiguous");
    assert_eq!(ambiguous.message, "\"x.two\" matches 2 findings: finding_b, finding_c");
}

#[test]
fn a_fix_is_chosen_by_index_and_acts_as_the_cli() {
    let f = finding("finding_a", "x.one", 2);
    let req = choose_fix(&f, 1).unwrap();
    assert_eq!(req.actor, CLI_ACTOR);
    assert!(matches!(req.input, Json::UInt(1)));
    let none = choose_fix(&f, 2).unwrap_err();
    assert_eq!(none.code, "finding.no_fix");
    assert_eq!(none.message, "finding finding_a has 2 suggested fix(es); no fix at index 2");
}

#[test]
fn finding_ids_digest_code_location_and_evidence() {
    let here = Location { stable_id: Some("region_00001".into()), path: None };
    let a = finding_id("x.one", &here, &Json::UInt(1));
    assert!(a.starts_with("finding_"));
    assert_eq!(a.len(), "finding_".len() + 16);
    assert_eq!(a, finding_id("x.one", &here, &Json::UInt(1)));
    assert_ne!(a, finding_id("x.one", &here, &Json::UInt(2)));
    assert_ne!(a, finding_id("x.two", &here, &Json::UInt(1)));
    let expected = systole::revision::sha256_hex(
        b"{\n  \"code\": \"x.one\",\n  \"evidence\": 1,\n  \"location\": {\n    \"path\": null,\n    \"stable_id\": \"region_00001\"\n  }\n}\n",
    );
    assert_eq!(a, format!("finding_{}", &expected[..16]));
}
