use systole::audit::{input_hash, next_audit_id, now_rfc3339, rfc3339_from_unix, transaction_id};
use systole::json::Json;
use systole::revision::{digest_of, sha256_hex};

#[test]
fn rfc3339_timestamps_match_known_epochs() {
    assert_eq!(rfc3339_from_unix(0), "1970-01-01T00:00:00Z");
    assert_eq!(rfc3339_from_unix(1700000000), "2023-11-14T22:13:20Z");
    assert_eq!(rfc3339_from_unix(951827696), "2000-02-29T12:34:56Z");
}

#[test]
fn rfc3339_handles_year_and_leap_boundaries() {
    assert_eq!(rfc3339_from_unix(86_399), "1970-01-01T23:59:59Z");
    assert_eq!(rfc3339_from_unix(946_684_799), "1999-12-31T23:59:59Z");
    assert_eq!(rfc3339_from_unix(946_684_800), "2000-01-01T00:00:00Z");
    assert_eq!(rfc3339_from_unix(4_107_542_400), "2100-03-01T00:00:00Z");
}

#[test]
fn now_is_an_rfc3339_utc_timestamp() {
    let now = now_rfc3339();
    assert_eq!(now.len(), 20);
    assert!(now.ends_with('Z'));
    assert_eq!(&now[4..5], "-");
    assert_eq!(&now[10..11], "T");
}

#[test]
fn audit_ids_count_from_one() {
    assert_eq!(next_audit_id(0), "aud_00001");
    assert_eq!(next_audit_id(41), "aud_00042");
    assert_eq!(next_audit_id(99_999), "aud_100000");
}

#[test]
fn transaction_ids_digest_the_audit_and_plan_ids() {
    let with_plan = transaction_id("aud_00001", Some("plan_abc"));
    assert_eq!(with_plan, format!("tx_{}", &sha256_hex(b"aud_00001plan_abc")[..16]));
    let without = transaction_id("aud_00001", None);
    assert_eq!(without, format!("tx_{}", &sha256_hex(b"aud_00001")[..16]));
    assert_ne!(with_plan, without);
    assert_eq!(transaction_id("aud_00001", Some("plan_abc")), with_plan);
}

#[test]
fn sha256_matches_the_standard_vectors() {
    assert_eq!(sha256_hex(b""), "e3b0c44298fc1c149afbf4c8996fb92427ae41e4649b934ca495991b7852b855");
    assert_eq!(sha256_hex(b"abc"), "ba7816bf8f01cfea414140de5dae2223b00361a396177a9cb410ff61f20015ad");
    assert_eq!(digest_of(b"abc"), "sha256:ba7816bf8f01cfea414140de5dae2223b00361a396177a9cb410ff61f20015ad");
}

#[test]
fn input_hash_digests_the_canonical_bytes() {
    let input = Json::object(vec![("text".to_string(), Json::Str("hello".to_string()))]);
    assert_eq!(input_hash(&input), digest_of(b"{\n  \"text\": \"hello\"\n}\n"));
}

#[test]
fn transaction_ids_are_nineteen_characters_of_lowercase_hex_after_the_prefix() {
    for (audit, plan) in [("aud_00001", None), ("aud_00002", Some("plan_0123456789abcdef")), ("aud_12345", Some(""))] {
        let id = transaction_id(audit, plan);
        assert_eq!(id.len(), 19);
        assert!(id.starts_with("tx_"));
        assert!(id[3..].chars().all(|c| c.is_ascii_digit() || ('a'..='f').contains(&c)));
    }
    let digest = digest_of(b"anything");
    assert_eq!(digest.len(), 71);
    assert!(digest.starts_with("sha256:"));
}
