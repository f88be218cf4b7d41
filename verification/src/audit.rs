//! The audit log's identifiers and its one timestamp format. Entries are
//! numbered `aud_00001`, `aud_00002`, …; a transaction is named by a digest
//! of its audit id and plan id; and the only timestamp anywhere in a project,
//! inside an audit entry, is RFC 3339 UTC to the second.

use vstd::prelude::*;

use crate::civil::{is_civil_date, lemma_civil_from_days};
use crate::revision::{sha256_hex, sha256_of};
use crate::text::{chars_of, decimal, hex_of, is_lower_hex, lemma_hex_chars, lemma_hex_len, push_decimal, push_str, string_of, zero_pad};
use crate::revision::extend_bytes;

verus! {

/// `YYYY-MM-DDTHH:MM:SSZ` for the given fields, each zero-padded.
pub open spec fn rfc3339_text(y: int, mo: int, d: int, h: int, mi: int, s: int) -> Seq<char> {
    zero_pad(decimal(y as nat), 4) + seq!['-'] + zero_pad(decimal(mo as nat), 2) + seq!['-']
        + zero_pad(decimal(d as nat), 2) + seq!['T'] + zero_pad(decimal(h as nat), 2) + seq![':']
        + zero_pad(decimal(mi as nat), 2) + seq![':'] + zero_pad(decimal(s as nat), 2) + seq!['Z']
}

/// The RFC 3339 rendering of `secs` seconds after the Unix epoch: the
/// calendar date `secs / 86400` days after 1970-01-01 and the time of day.
pub open spec fn is_rfc3339_of(secs: nat, text: Seq<char>) -> bool {
    exists|y: int, m: int, d: int|
        #[trigger] is_civil_date((secs / 86400) as int, y, m, d) && text == rfc3339_text(
            y,
            m,
            d,
            ((secs % 86400) / 3600) as int,
            ((secs % 3600) / 60) as int,
            (secs % 60) as int,
        )
}

/// Converts seconds since the Unix epoch to `YYYY-MM-DDTHH:MM:SSZ`, by
/// days-from-civil inversion over 400-year eras.
pub fn rfc3339_from_unix(secs: u64) -> (res: String)
    ensures
        is_rfc3339_of(secs as nat, res@),
{
    let days = secs / 86400;
    let secs_of_day = secs % 86400;
    let hour = secs_of_day / 3600;
    let min = (secs_of_day % 3600) / 60;
    let sec = secs_of_day % 60;
    assert((secs % 86400) % 3600 == secs % 3600) by (nonlinear_arith);
    assert((secs % 86400) % 60 == secs % 60) by (nonlinear_arith);

    let z = days + 719468;
    let era = z / 146097;
    let doe = z % 146097;
    let yoe = (doe - doe / 1460 + doe / 36524 - doe / 146096) / 365;
    let doy = doe - (365 * yoe + yoe / 4 - yoe / 100);
    proof {
        lemma_civil_from_days(days as int);
    }
    let mp = (5 * doy + 2) / 153;
    let day = doy - (153 * mp + 2) / 5 + 1;
    let month = if mp < 10 { mp + 3 } else { mp - 9 };
    let year = yoe + era * 400 + if month <= 2 { 1 } else { 0 };

    let mut out: Vec<char> = Vec::new();
    push_decimal(&mut out, year, 4);
    out.push('-');
    push_decimal(&mut out, month, 2);
    out.push('-');
    push_decimal(&mut out, day, 2);
    out.push('T');
    push_decimal(&mut out, hour, 2);
    out.push(':');
    push_decimal(&mut out, min, 2);
    out.push(':');
    push_decimal(&mut out, sec, 2);
    out.push('Z');
    let res = string_of(&out);
    proof {
        let text = rfc3339_text(year as int, month as int, day as int, hour as int, min as int, sec as int);
        assert(res@ =~= text);
        assert(is_civil_date((secs / 86400) as int, year as int, month as int, day as int));
    }
    res
}


/// `aud_NNNNN` with `N` = entries so far + 1, zero-padded to five digits.
pub open spec fn audit_id_text(entries_so_far: nat) -> Seq<char> {
    seq!['a', 'u', 'd', '_'] + zero_pad(decimal(entries_so_far + 1), 5)
}

/// The audit id the next entry takes: the first commit is `aud_00001`.
pub fn next_audit_id(entries_so_far: usize) -> (res: String)
    requires
        entries_so_far < usize::MAX,
    ensures
        res@ == audit_id_text(entries_so_far as nat),
{
    let mut out: Vec<char> = Vec::new();
    push_str(&mut out, "aud_");
    proof { reveal_strlit("aud_"); }
    push_decimal(&mut out, (entries_so_far + 1) as u64, 5);
    assert(out@ =~= audit_id_text(entries_so_far as nat));
    string_of(&out)
}

/// The bytes a transaction id digests: the audit id, then the plan id (empty
/// when there is none), both UTF-8.
pub open spec fn transaction_domain(audit_id: Seq<char>, plan_id: Option<Seq<char>>) -> Seq<u8> {
    vstd::utf8::encode_utf8(audit_id) + match plan_id {
        Some(p) => vstd::utf8::encode_utf8(p),
        None => Seq::empty(),
    }
}

/// `tx_` + the first 16 hex digits of sha256 over the audit id and plan id.
pub open spec fn transaction_id_text(audit_id: Seq<char>, plan_id: Option<Seq<char>>) -> Seq<char> {
    seq!['t', 'x', '_'] + hex_of(sha256_of(transaction_domain(audit_id, plan_id))).subrange(0, 16)
}

/// A deterministic transaction id: the same commit always names the same
/// transaction.
pub fn transaction_id(audit_id: &str, plan_id: Option<&str>) -> (res: String)
    ensures
        res@ == transaction_id_text(audit_id@, match plan_id {
            Some(p) => Some(p@),
            None => None,
        }),
        res@.len() == 19,
        forall|i: int| 3 <= i < 19 ==> is_lower_hex(#[trigger] res@[i]),
{
    let mut domain: Vec<u8> = Vec::new();
    extend_bytes(&mut domain, audit_id.as_bytes());
    match plan_id {
        Some(p) => extend_bytes(&mut domain, p.as_bytes()),
        None => {}
    }
    let ghost pid = match plan_id {
        Some(p) => Some(p@),
        None => None::<Seq<char>>,
    };
    assert(domain@ =~= transaction_domain(audit_id@, pid));
    let hex = chars_of(sha256_hex(domain.as_slice()).as_str());
    proof { lemma_hex_chars(sha256_of(domain@)); }
    let mut out: Vec<char> = Vec::new();
    push_str(&mut out, "tx_");
    proof { reveal_strlit("tx_"); }
    let mut i: usize = 0;
    while i < 16
        invariant
            i <= 16,
            hex@.len() == 64,
            out@ == seq!['t', 'x', '_'] + hex@.subrange(0, i as int),
        decreases 16 - i,
    {
        out.push(hex[i]);
        i = i + 1;
        assert(out@ =~= seq!['t', 'x', '_'] + hex@.subrange(0, i as int));
    }
    assert forall|k: int| 3 <= k < 19 implies is_lower_hex(#[trigger] out@[k]) by {
        assert(out@[k] == hex@[k - 3]);
    }
    string_of(&out)
}

/// `sha256:` over the canonical bytes of a request's `input`.
pub fn input_hash(input: &crate::json::Json) -> (res: String)
    ensures
        res@ == crate::revision::digest_text(vstd::utf8::encode_utf8(crate::json::canonical_text(input@))),
{
    let bytes = crate::json::format_value(input);
    crate::revision::digest_of(bytes.as_slice())
}

/// The current time, in whole seconds since the Unix epoch
/// (`std::time::SystemTime::now`); nothing is claimed of the value.
#[verifier::external_body]
fn unix_seconds_now() -> u64 {
    std::time::SystemTime::now()
        .duration_since(std::time::UNIX_EPOCH)
        .unwrap_or_default()
        .as_secs()
}

/// The current time as RFC 3339 UTC — the only timestamp anywhere in the
/// project, and only ever inside an audit entry.
pub fn now_rfc3339() -> (res: String)
    ensures
        exists|secs: nat| secs <= u64::MAX && is_rfc3339_of(secs, #[trigger] res@),
{
    let secs = unix_seconds_now();
    let res = rfc3339_from_unix(secs);
    assert(is_rfc3339_of(secs as nat, res@));
    res
}

} // verus!
