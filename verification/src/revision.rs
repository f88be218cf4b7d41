//! Digests: SHA-256 rendered as lowercase hex, the `sha256:<hex>` form the
//! manifest stores, and the project hash — sha256 over, in sorted path
//! order, each hash-domain file's path bytes, a NUL, its canonical bytes,
//! and a NUL.

use sha2::Digest;
use vstd::prelude::*;

use crate::edits::{set_key, with_key};
use crate::ir::{MANIFEST_FILE, RelPath};
use crate::json::{Json, JsonView, view_members};
use crate::text::{
    chars_equal, chars_of, decimal, hex_of, lemma_hex_len, parse_u64, parse_u64_chars, push_decimal, push_hex, push_str, string_of,
    zero_pad,
};

verus! {

/// The SHA-256 digest of `data` (FIPS 180-4), as the `sha2` crate computes it.
pub uninterp spec fn sha256_of(data: Seq<u8>) -> Seq<u8>;

/// `sha2::Sha256::digest`: the 32-byte SHA-256 digest of `data`. The contract
/// names the result (`sha256_of`) and its length; nothing else about the hash
/// is claimed.
#[verifier::external_body]
fn sha256(data: &[u8]) -> (res: Vec<u8>)
    ensures
        res@ == sha256_of(data@),
        res@.len() == 32,
{
    sha2::Sha256::digest(data).to_vec()
}

/// `sha256:` followed by the lowercase hex digest of `data`.
pub open spec fn digest_text(data: Seq<u8>) -> Seq<char> {
    seq!['s', 'h', 'a', '2', '5', '6', ':'] + hex_of(sha256_of(data))
}

/// The lowercase hex SHA-256 digest of `bytes` (64 characters).
pub fn sha256_hex(bytes: &[u8]) -> (res: String)
    ensures
        res@ == hex_of(sha256_of(bytes@)),
        res@.len() == 64,
{
    let digest = sha256(bytes);
    proof { lemma_hex_len(digest@); }
    let mut out: Vec<char> = Vec::new();
    push_hex(&mut out, digest.as_slice());
    assert(out@ =~= hex_of(sha256_of(bytes@)));
    string_of(&out)
}

/// A digest as the manifest stores it: `sha256:<hex>`.
pub fn digest_of(bytes: &[u8]) -> (res: String)
    ensures
        res@ == digest_text(bytes@),
        res@.len() == 71,
{
    let digest = sha256(bytes);
    proof { lemma_hex_len(digest@); }
    let mut out: Vec<char> = Vec::new();
    push_str(&mut out, "sha256:");
    proof { reveal_strlit("sha256:"); }
    push_hex(&mut out, digest.as_slice());
    assert(out@ =~= digest_text(bytes@));
    string_of(&out)
}

/// The byte stream the project hash digests: for each `(path, bytes)` in
/// order, the path's UTF-8 bytes, a NUL, the bytes, a NUL.
pub open spec fn hash_stream(entries: Seq<(Seq<u8>, Seq<u8>)>) -> Seq<u8>
    decreases entries.len(),
{
    if entries.len() == 0 {
        Seq::empty()
    } else {
        hash_stream(entries.drop_last()) + entries.last().0 + seq![0u8] + entries.last().1 + seq![0u8]
    }
}

/// Appends `src` to `dst`.
pub fn extend_bytes(dst: &mut Vec<u8>, src: &[u8])
    ensures
        final(dst)@ == old(dst)@ + src@,
{
    let ghost start = dst@;
    let mut i: usize = 0;
    while i < src.len()
        invariant
            i <= src.len(),
            dst@ == start + src@.subrange(0, i as int),
        decreases src.len() - i,
    {
        dst.push(src[i]);
        i = i + 1;
        assert(dst@ =~= start + src@.subrange(0, i as int));
    }
    assert(src@.subrange(0, src.len() as int) =~= src@);
}

/// The entries' paths as UTF-8 bytes beside their canonical bytes.
pub open spec fn entry_bytes(entries: Seq<(String, Vec<u8>)>) -> Seq<(Seq<u8>, Seq<u8>)> {
    Seq::new(entries.len(), |i: int| (vstd::utf8::encode_utf8(entries[i].0@), entries[i].1@))
}

/// The project hash over hash-domain entries given in sorted path order:
/// `sha256:` + hex of sha256 over each path, NUL, canonical bytes, NUL.
pub fn project_hash(entries: &Vec<(String, Vec<u8>)>) -> (res: String)
    ensures
        res@ == digest_text(hash_stream(entry_bytes(entries@))),
{
    let mut stream: Vec<u8> = Vec::new();
    let mut i: usize = 0;
    while i < entries.len()
        invariant
            i <= entries.len(),
            stream@ == hash_stream(entry_bytes(entries@.subrange(0, i as int))),
        decreases entries.len() - i,
    {
        let ghost before = stream@;
        extend_bytes(&mut stream, entries[i].0.as_str().as_bytes());
        stream.push(0u8);
        extend_bytes(&mut stream, entries[i].1.as_slice());
        stream.push(0u8);
        proof {
            let pre = entry_bytes(entries@.subrange(0, i as int));
            let post = entry_bytes(entries@.subrange(0, i + 1));
            assert(post.drop_last() =~= pre);
            assert(stream@ =~= hash_stream(post));
        }
        i = i + 1;
    }
    assert(entries@.subrange(0, entries.len() as int) =~= entries@);
    digest_of(stream.as_slice())
}


/// The first 16 hex digits of the SHA-256 digest of `bytes`: the short
/// form that transaction, finding and plan ids carry.
pub fn short_hex(bytes: &[u8]) -> (res: Vec<char>)
    ensures
        res@ == hex_of(sha256_of(bytes@)).subrange(0, 16),
        res@.len() == 16,
{
    let hex = crate::text::chars_of(sha256_hex(bytes).as_str());
    let mut out: Vec<char> = Vec::new();
    let mut i: usize = 0;
    while i < 16
        invariant
            i <= 16,
            hex@.len() == 64,
            hex@ == hex_of(sha256_of(bytes@)),
            out@ == hex@.subrange(0, i as int),
        decreases 16 - i,
    {
        out.push(hex[i]);
        i = i + 1;
        assert(out@ =~= hex@.subrange(0, i as int));
    }
    out
}


/// The paths joined with `", "`.
pub open spec fn joined(paths: Seq<Seq<char>>) -> Seq<char>
    decreases paths.len(),
{
    if paths.len() == 0 {
        Seq::empty()
    } else if paths.len() == 1 {
        paths[0]
    } else {
        joined(paths.drop_last()) + ", "@ + paths.last()
    }
}

/// The manifest's recorded project hash did not match the recomputed one:
/// `expected` is the recorded hash, `actual` the recomputed one, `changed`
/// the files whose digests differ from the manifest's table.
#[derive(Clone, Debug, PartialEq)]
pub struct IntegrityError {
    pub expected: String,
    pub actual: String,
    pub changed: Vec<crate::ir::RelPath>,
}

impl IntegrityError {
    /// `project files changed outside a transaction (<changed, joined>)`.
    pub fn message(&self) -> (res: String)
        ensures
            res@ == "project files changed outside a transaction ("@
                + joined(Seq::new(self.changed@.len(), |i: int| self.changed@[i]@)) + ")"@,
    {
        let ghost ps = Seq::new(self.changed@.len(), |i: int| self.changed@[i]@);
        let mut list: Vec<char> = Vec::new();
        let mut i: usize = 0;
        while i < self.changed.len()
            invariant
                i <= self.changed@.len(),
                ps == Seq::new(self.changed@.len(), |i: int| self.changed@[i]@),
                list@ == joined(ps.subrange(0, i as int)),
            decreases self.changed@.len() - i,
        {
            let ghost pre = ps.subrange(0, i as int);
            assert(ps.subrange(0, i + 1).drop_last() =~= pre);
            if i > 0 {
                push_str(&mut list, ", ");
            } else {
                assert(pre.len() == 0);
            }
            push_str(&mut list, self.changed[i].as_str());
            i = i + 1;
            proof {
                let post = ps.subrange(0, i as int);
                if i == 1 {
                    assert(list@ =~= joined(post));
                } else {
                    assert(list@ =~= joined(post));
                }
            }
        }
        assert(ps.subrange(0, ps.len() as int) =~= ps);
        let mut out: Vec<char> = Vec::new();
        push_str(&mut out, "project files changed outside a transaction (");
        crate::json::push_chars(&mut out, &list);
        push_str(&mut out, ")");
        string_of(&out)
    }
}

/// A hash domain as values: each file's path beside its canonical bytes.
pub open spec fn domain_view(domain: Seq<(String, Vec<u8>)>) -> Seq<(Seq<char>, Seq<u8>)> {
    Seq::new(domain.len(), |i: int| (domain[i].0@, domain[i].1@))
}

/// A digest table as values: each path beside its recorded digest.
pub open spec fn table_view(table: Seq<(String, String)>) -> Seq<(Seq<char>, Seq<char>)> {
    Seq::new(table.len(), |i: int| (table[i].0@, table[i].1@))
}

/// The digest the table records for `path`.
pub open spec fn recorded_digest(table: Seq<(Seq<char>, Seq<char>)>, path: Seq<char>) -> Option<Seq<char>>
    decreases table.len(),
{
    if table.len() == 0 {
        None
    } else if table[0].0 == path {
        Some(table[0].1)
    } else {
        recorded_digest(table.drop_first(), path)
    }
}

/// The domain files, other than the manifest, whose digest the table does
/// not record, in domain order.
pub open spec fn mismatched(domain: Seq<(Seq<char>, Seq<u8>)>, table: Seq<(Seq<char>, Seq<char>)>) -> Seq<Seq<char>>
    decreases domain.len(),
{
    if domain.len() == 0 {
        Seq::empty()
    } else {
        let r = mismatched(domain.drop_last(), table);
        let (path, bytes) = domain.last();
        if path != MANIFEST_FILE@ && recorded_digest(table, path) != Some(digest_text(bytes)) {
            r.push(path)
        } else {
            r
        }
    }
}

/// The table's paths that are not in the domain, in table order.
pub open spec fn unrecorded(table: Seq<(Seq<char>, Seq<char>)>, domain: Seq<(Seq<char>, Seq<u8>)>) -> Seq<Seq<char>>
    decreases table.len(),
{
    if table.len() == 0 {
        Seq::empty()
    } else {
        let r = unrecorded(table.drop_last(), domain);
        if exists|i: int| 0 <= i < domain.len() && (#[trigger] domain[i]).0 == table.last().0 {
            r
        } else {
            r.push(table.last().0)
        }
    }
}

/// The files an integrity refusal names: every domain file whose digest
/// differs from the table's, then every table entry with no file; when
/// nothing differs, the manifest itself changed.
pub open spec fn changed_files(domain: Seq<(Seq<char>, Seq<u8>)>, table: Seq<(Seq<char>, Seq<char>)>) -> Seq<Seq<char>> {
    let c = mismatched(domain, table) + unrecorded(table, domain);
    if c.len() == 0 {
        seq![MANIFEST_FILE@]
    } else {
        c
    }
}

pub(crate) fn lookup_digest(table: &Vec<(String, String)>, path: &str) -> (res: Option<usize>)
    ensures
        recorded_digest(table_view(table@), path@) == match res {
            Some(i) => Some(table_view(table@)[i as int].1),
            None => None,
        },
        res matches Some(i) ==> i < table@.len(),
{
    let ghost t = table_view(table@);
    let mut k: usize = 0;
    assert(t.skip(0) =~= t);
    while k < table.len()
        invariant
            k <= table@.len(),
            t == table_view(table@),
            recorded_digest(t, path@) == recorded_digest(t.skip(k as int), path@),
        decreases table@.len() - k,
    {
        proof {
            assert(t.skip(k as int).drop_first() =~= t.skip(k + 1));
            assert(t.skip(k as int)[0] == t[k as int]);
        }
        if chars_equal(&chars_of(table[k].0.as_str()), &chars_of(path)) {
            return Some(k);
        }
        k = k + 1;
    }
    assert(t.skip(k as int).len() == 0);
    None
}

/// Checks the project hash over the hash domain (`domain`, in sorted path
/// order) against the one the manifest records; on a mismatch the refusal
/// names the recorded and the recomputed hash and the changed files, by the
/// manifest's digest table `table`.
pub fn verify_integrity(domain: &Vec<(String, Vec<u8>)>, recorded: &str, table: &Vec<(String, String)>) -> (res: Result<
    (),
    IntegrityError,
>)
    ensures
        res is Ok <==> digest_text(hash_stream(entry_bytes(domain@))) == recorded@,
        res matches Err(e) ==> e.expected@ == recorded@ && e.actual@ == digest_text(hash_stream(entry_bytes(domain@)))
            && Seq::new(e.changed@.len(), |i: int| e.changed@[i]@) == changed_files(
            domain_view(domain@),
            table_view(table@),
        ),
{
    let actual = project_hash(domain);
    if chars_equal(&chars_of(actual.as_str()), &chars_of(recorded)) {
        return Ok(());
    }
    let ghost d = domain_view(domain@);
    let ghost t = table_view(table@);
    let mut changed: Vec<RelPath> = Vec::new();
    let mut i: usize = 0;
    assert(d.take(0) =~= Seq::<(Seq<char>, Seq<u8>)>::empty());
    assert(Seq::new(changed@.len(), |j: int| changed@[j]@) =~= mismatched(d.take(0), t));
    while i < domain.len()
        invariant
            i <= domain@.len(),
            d == domain_view(domain@),
            t == table_view(table@),
            Seq::new(changed@.len(), |j: int| changed@[j]@) == mismatched(d.take(i as int), t),
        decreases domain@.len() - i,
    {
        let ghost before = Seq::new(changed@.len(), |j: int| changed@[j]@);
        proof {
            assert(d.take(i + 1).drop_last() =~= d.take(i as int));
            assert(d.take(i + 1).last() == d[i as int]);
        }
        let path = domain[i].0.as_str();
        let is_manifest = chars_equal(&chars_of(path), &chars_of(crate::ir::MANIFEST_FILE));
        if !is_manifest {
            let digest = digest_of(domain[i].1.as_slice());
            let agrees = match lookup_digest(table, path) {
                Some(k) => chars_equal(&chars_of(table[k].1.as_str()), &chars_of(digest.as_str())),
                None => false,
            };
            if !agrees {
                changed.push(RelPath::new(domain[i].0.clone()));
                assert(Seq::new(changed@.len(), |j: int| changed@[j]@) =~= before.push(d[i as int].0));
            }
        }
        i = i + 1;
    }
    assert(d.take(domain@.len() as int) =~= d);
    let ghost first = Seq::new(changed@.len(), |j: int| changed@[j]@);
    let mut k: usize = 0;
    assert(t.take(0) =~= Seq::<(Seq<char>, Seq<char>)>::empty());
    assert(first + unrecorded(t.take(0), d) =~= first);
    while k < table.len()
        invariant
            k <= table@.len(),
            d == domain_view(domain@),
            t == table_view(table@),
            Seq::new(changed@.len(), |j: int| changed@[j]@) == first + unrecorded(t.take(k as int), d),
        decreases table@.len() - k,
    {
        let ghost before = Seq::new(changed@.len(), |j: int| changed@[j]@);
        proof {
            assert(t.take(k + 1).drop_last() =~= t.take(k as int));
            assert(t.take(k + 1).last() == t[k as int]);
        }
        let mut found = false;
        let mut m: usize = 0;
        while m < domain.len()
            invariant
                m <= domain@.len(),
                k < table@.len(),
                d == domain_view(domain@),
                t == table_view(table@),
                found == exists|j: int| 0 <= j < m && (#[trigger] d[j]).0 == t[k as int].0,
            decreases domain@.len() - m,
        {
            if chars_equal(&chars_of(domain[m].0.as_str()), &chars_of(table[k].0.as_str())) {
                found = true;
                assert(d[m as int].0 == t[k as int].0);
            }
            m = m + 1;
        }
        if !found {
            changed.push(RelPath::new(table[k].0.clone()));
            assert(Seq::new(changed@.len(), |j: int| changed@[j]@) =~= before.push(t[k as int].0));
        }
        k = k + 1;
        proof {
            let u = unrecorded(t.take(k as int), d);
            assert(Seq::new(changed@.len(), |j: int| changed@[j]@) =~= first + u);
        }
    }
    assert(t.take(table@.len() as int) =~= t);
    if changed.len() == 0 {
        changed.push(RelPath::new(string_of(&chars_of(crate::ir::MANIFEST_FILE))));
        assert(Seq::new(changed@.len(), |j: int| changed@[j]@) =~= seq![crate::ir::MANIFEST_FILE@]);
    }
    Err(IntegrityError { expected: string_of(&chars_of(recorded)), actual, changed })
}

/// The manifest's digest table: each hash-domain file's path beside the
/// digest of its canonical bytes.
pub fn digest_table(entries: &Vec<(String, Vec<u8>)>) -> (res: Vec<(String, String)>)
    ensures
        table_view(res@) == Seq::new(entries@.len(), |i: int| (entries@[i].0@, digest_text(entries@[i].1@))),
{
    let mut out: Vec<(String, String)> = Vec::new();
    let mut i: usize = 0;
    while i < entries.len()
        invariant
            i <= entries@.len(),
            table_view(out@) == Seq::new(i as nat, |j: int| (entries@[j].0@, digest_text(entries@[j].1@))),
        decreases entries@.len() - i,
    {
        let ghost before = table_view(out@);
        let path = string_of(&chars_of(entries[i].0.as_str()));
        let digest = digest_of(entries[i].1.as_slice());
        out.push((path, digest));
        assert(table_view(out@) =~= before.push((entries@[i as int].0@, digest_text(entries@[i as int].1@))));
        i = i + 1;
        assert(table_view(out@) =~= Seq::new(i as nat, |j: int| (entries@[j].0@, digest_text(entries@[j].1@))));
    }
    out
}

/// The manifest as the project hash sees it: its own hash, its revision and
/// the audit head blanked to `null`.
pub open spec fn blanked(manifest: JsonView) -> JsonView {
    match manifest {
        JsonView::Object(ms) => JsonView::Object(
            with_key(
                with_key(with_key(ms, "project_hash"@, JsonView::Null), "project_revision"@, JsonView::Null),
                "audit_head"@,
                JsonView::Null,
            ),
        ),
        other => other,
    }
}

/// Blanks the fields of a manifest that the project hash cannot cover.
pub fn blanked_manifest(manifest: &Json) -> (res: Json)
    ensures
        res@ == blanked(manifest@),
{
    match manifest {
        Json::Object(members) => {
            let mut ms: Vec<(String, Json)> = Vec::new();
            let mut i: usize = 0;
            while i < members.len()
                invariant
                    i <= members@.len(),
                    view_members(ms@) == view_members(members@.take(i as int)),
                decreases members@.len() - i,
            {
                let ghost before = ms@;
                ms.push((string_of(&chars_of(members[i].0.as_str())), members[i].1.duplicate()));
                proof {
                    assert(ms@.drop_last() =~= before);
                    assert(members@.take(i + 1).drop_last() =~= members@.take(i as int));
                }
                i = i + 1;
            }
            assert(members@.take(members@.len() as int) =~= members@);
            set_key(&mut ms, "project_hash", Json::Null);
            set_key(&mut ms, "project_revision", Json::Null);
            set_key(&mut ms, "audit_head", Json::Null);
            Json::Object(ms)
        },
        other => other.duplicate(),
    }
}

/// The revision after `rev`: `rev_` followed by the next number, zero-padded
/// to five digits; `None` when `rev` is not `rev_` followed by a number
/// below `u64::MAX`.
pub open spec fn next_revision(rev: Seq<char>) -> Option<Seq<char>> {
    if rev.len() >= 4 && rev.take(4) == "rev_"@ {
        match parse_u64(rev.skip(4)) {
            Some(n) => if n < u64::MAX {
                Some("rev_"@ + zero_pad(decimal((n + 1) as nat), 5))
            } else {
                None
            },
            None => None,
        }
    } else {
        None
    }
}

/// Advances a project revision by one.
pub fn bump_revision(rev: &str) -> (res: Option<String>)
    ensures
        match res {
            Some(s) => next_revision(rev@) == Some(s@),
            None => next_revision(rev@) is None,
        },
{
    let chars = chars_of(rev);
    proof {
        reveal_strlit("rev_");
    }
    if chars.len() < 4 || chars[0] != 'r' || chars[1] != 'e' || chars[2] != 'v' || chars[3] != '_' {
        proof {
            if chars@.len() >= 4 {
                assert(chars@.take(4) != "rev_"@) by {
                    assert("rev_"@[0] == 'r' && "rev_"@[1] == 'e' && "rev_"@[2] == 'v' && "rev_"@[3] == '_');
                }
            }
        }
        return None;
    }
    assert(chars@.take(4) =~= "rev_"@);
    assert(chars@.subrange(4, chars@.len() as int) =~= chars@.skip(4));
    match parse_u64_chars(&chars, 4) {
        Some(n) => {
            if n == u64::MAX {
                return None;
            }
            let mut out: Vec<char> = Vec::new();
            push_str(&mut out, "rev_");
            push_decimal(&mut out, n + 1, 5);
            Some(string_of(&out))
        },
        None => None,
    }
}

/// The digest table a refresh records for `domain`: each path beside the
/// digest of its bytes (what [`digest_table`] builds).
pub open spec fn refreshed_table(domain: Seq<(Seq<char>, Seq<u8>)>) -> Seq<(Seq<char>, Seq<char>)> {
    Seq::new(domain.len(), |i: int| (domain[i].0, digest_text(domain[i].1)))
}

/// No path occurs twice in `domain`.
pub open spec fn distinct_paths(domain: Seq<(Seq<char>, Seq<u8>)>) -> bool {
    forall|i: int, j: int| 0 <= i < j < domain.len() ==> (#[trigger] domain[i]).0 != (#[trigger] domain[j]).0
}

proof fn lemma_recorded_at(t: Seq<(Seq<char>, Seq<char>)>, k: int)
    requires
        0 <= k < t.len(),
        forall|j: int| 0 <= j < k ==> (#[trigger] t[j]).0 != t[k].0,
    ensures
        recorded_digest(t, t[k].0) == Some(t[k].1),
    decreases k,
{
    if k > 0 {
        let r = t.drop_first();
        assert forall|j: int| 0 <= j < k - 1 implies (#[trigger] r[j]).0 != r[k - 1].0 by {
            assert(r[j] == t[j + 1]);
        }
        lemma_recorded_at(r, k - 1);
        assert(t[0].0 != t[k].0);
    }
}

proof fn lemma_agreeing_domain_matches(d: Seq<(Seq<char>, Seq<u8>)>, t: Seq<(Seq<char>, Seq<char>)>)
    requires
        forall|i: int| 0 <= i < d.len() ==> recorded_digest(t, (#[trigger] d[i]).0) == Some(digest_text(d[i].1)),
    ensures
        mismatched(d, t) == Seq::<Seq<char>>::empty(),
    decreases d.len(),
{
    if d.len() > 0 {
        let p = d.drop_last();
        assert forall|i: int| 0 <= i < p.len() implies recorded_digest(t, (#[trigger] p[i]).0) == Some(digest_text(p[i].1)) by {
            assert(p[i] == d[i]);
        }
        lemma_agreeing_domain_matches(p, t);
        assert(d.last() == d[d.len() - 1]);
    }
}

proof fn lemma_disagreeing_file_named(d: Seq<(Seq<char>, Seq<u8>)>, t: Seq<(Seq<char>, Seq<char>)>, k: int)
    requires
        0 <= k < d.len(),
        d[k].0 != MANIFEST_FILE@,
        recorded_digest(t, d[k].0) != Some(digest_text(d[k].1)),
    ensures
        mismatched(d, t).contains(d[k].0),
    decreases d.len(),
{
    let p = d.drop_last();
    let r = mismatched(p, t);
    if k == d.len() - 1 {
        assert(d.last() == d[k]);
        assert(r.push(d[k].0)[r.len() as int] == d[k].0);
    } else {
        assert(p[k] == d[k]);
        lemma_disagreeing_file_named(p, t, k);
        let j = choose|j: int| 0 <= j < r.len() && r[j] == d[k].0;
        assert(r.push(d.last().0)[j] == d[k].0);
    }
}

pub open spec fn has_file(d: Seq<(Seq<char>, Seq<u8>)>, path: Seq<char>) -> bool {
    exists|i: int| 0 <= i < d.len() && (#[trigger] d[i]).0 == path
}

proof fn lemma_covered_table_all_recorded(t: Seq<(Seq<char>, Seq<char>)>, d: Seq<(Seq<char>, Seq<u8>)>)
    requires
        forall|j: int| 0 <= j < t.len() ==> has_file(d, (#[trigger] t[j]).0),
    ensures
        unrecorded(t, d) == Seq::<Seq<char>>::empty(),
    decreases t.len(),
{
    if t.len() > 0 {
        let p = t.drop_last();
        assert forall|j: int| 0 <= j < p.len() implies has_file(d, (#[trigger] p[j]).0) by {
            assert(p[j] == t[j]);
        }
        lemma_covered_table_all_recorded(p, d);
        assert(t.last() == t[t.len() - 1]);
        assert(has_file(d, t.last().0));
    }
}

proof fn lemma_refreshed_records_each(domain: Seq<(Seq<char>, Seq<u8>)>)
    requires
        distinct_paths(domain),
    ensures
        forall|i: int| 0 <= i < domain.len() ==> recorded_digest(refreshed_table(domain), (#[trigger] domain[i]).0) == Some(digest_text(domain[i].1)),
{
    let t = refreshed_table(domain);
    assert forall|i: int| 0 <= i < domain.len() implies recorded_digest(t, (#[trigger] domain[i]).0) == Some(digest_text(domain[i].1)) by {
        assert forall|j: int| 0 <= j < i implies (#[trigger] t[j]).0 != t[i].0 by {
            assert(domain[j].0 != domain[i].0);
        }
        lemma_recorded_at(t, i);
    }
}

/// Right after a refresh the digest table agrees with every file: no file's
/// digest differs from the one recorded for it, and every recorded path has
/// a file (paths being distinct, as a project's are).
pub proof fn law_refreshed_table_agrees(domain: Seq<(Seq<char>, Seq<u8>)>)
    requires
        distinct_paths(domain),
    ensures
        mismatched(domain, refreshed_table(domain)) == Seq::<Seq<char>>::empty(),
        unrecorded(refreshed_table(domain), domain) == Seq::<Seq<char>>::empty(),
{
    let t = refreshed_table(domain);
    lemma_refreshed_records_each(domain);
    lemma_agreeing_domain_matches(domain, t);
    assert forall|j: int| 0 <= j < t.len() implies has_file(domain, (#[trigger] t[j]).0) by {
        assert(domain[j].0 == t[j].0);
    }
    lemma_covered_table_all_recorded(t, domain);
}

/// Replacing one file's bytes after a refresh, with bytes of another digest,
/// makes an integrity refusal name that file.
pub proof fn law_edited_file_is_named(domain: Seq<(Seq<char>, Seq<u8>)>, k: int, bytes: Seq<u8>)
    requires
        distinct_paths(domain),
        0 <= k < domain.len(),
        domain[k].0 != MANIFEST_FILE@,
        digest_text(bytes) != digest_text(domain[k].1),
    ensures
        changed_files(domain.update(k, (domain[k].0, bytes)), refreshed_table(domain)).contains(domain[k].0),
{
    let t = refreshed_table(domain);
    let edited = domain.update(k, (domain[k].0, bytes));
    lemma_refreshed_records_each(domain);
    assert(recorded_digest(t, domain[k].0) == Some(digest_text(domain[k].1)));
    lemma_disagreeing_file_named(edited, t, k);
    let m = mismatched(edited, t);
    let c = m + unrecorded(t, edited);
    let j = choose|j: int| 0 <= j < m.len() && m[j] == domain[k].0;
    assert(c[j] == domain[k].0);
    assert(c.len() > 0);
}

/// The stream of a concatenation is the concatenation of the streams.
pub proof fn law_hash_stream_concat(a: Seq<(Seq<u8>, Seq<u8>)>, b: Seq<(Seq<u8>, Seq<u8>)>)
    ensures
        hash_stream(a + b) == hash_stream(a) + hash_stream(b),
    decreases b.len(),
{
    if b.len() == 0 {
        assert(a + b =~= a);
        assert(hash_stream(b) =~= Seq::<u8>::empty());
        assert(hash_stream(a) + hash_stream(b) =~= hash_stream(a));
    } else {
        let b2 = b.drop_last();
        law_hash_stream_concat(a, b2);
        assert((a + b).drop_last() =~= a + b2);
        assert((a + b).last() == b.last());
        assert(hash_stream(a + b) =~= hash_stream(a) + hash_stream(b));
    }
}

/// One file contributes its path bytes, a NUL, its bytes and a NUL.
pub proof fn law_hash_stream_one_file(path: Seq<u8>, bytes: Seq<u8>)
    ensures
        hash_stream(seq![(path, bytes)]) == path + seq![0u8] + bytes + seq![0u8],
{
    let s = seq![(path, bytes)];
    assert(s.drop_last() =~= Seq::<(Seq<u8>, Seq<u8>)>::empty());
    assert(hash_stream(s.drop_last()) =~= Seq::<u8>::empty());
    assert(hash_stream(s) =~= path + seq![0u8] + bytes + seq![0u8]);
}

/// Two hash domains with the same bytes everywhere and the same paths but at
/// one file, whose path differs, stream (and so hash) different input:
/// moving or renaming a file changes what the project hash digests.
pub proof fn law_paths_are_hashed(d1: Seq<(Seq<u8>, Seq<u8>)>, d2: Seq<(Seq<u8>, Seq<u8>)>, k: int)
    requires
        d1.len() == d2.len(),
        0 <= k < d1.len(),
        forall|i: int| 0 <= i < d1.len() ==> (#[trigger] d1[i]).1 == d2[i].1,
        forall|i: int| 0 <= i < d1.len() && i != k ==> (#[trigger] d1[i]).0 == d2[i].0,
        d1[k].0 != d2[k].0,
    ensures
        hash_stream(d1) != hash_stream(d2),
{
    let pre = d1.subrange(0, k);
    let post = d1.subrange(k + 1, d1.len() as int);
    assert(d2.subrange(0, k) =~= pre) by {
        assert forall|i: int| 0 <= i < k implies d2.subrange(0, k)[i] == pre[i] by {
            assert(d1[i].1 == d2[i].1);
            assert(d1[i].0 == d2[i].0);
        }
    }
    assert(d2.subrange(k + 1, d2.len() as int) =~= post) by {
        assert forall|i: int| 0 <= i < post.len() implies d2.subrange(k + 1, d2.len() as int)[i] == post[i] by {
            assert(d1[k + 1 + i].1 == d2[k + 1 + i].1);
            assert(d1[k + 1 + i].0 == d2[k + 1 + i].0);
        }
    }
    assert(d1 =~= pre + seq![d1[k]] + post);
    assert(d2 =~= pre + seq![d2[k]] + post);
    law_hash_stream_concat(pre + seq![d1[k]], post);
    law_hash_stream_concat(pre, seq![d1[k]]);
    law_hash_stream_concat(pre + seq![d2[k]], post);
    law_hash_stream_concat(pre, seq![d2[k]]);
    law_hash_stream_one_file(d1[k].0, d1[k].1);
    law_hash_stream_one_file(d2[k].0, d2[k].1);
    let x = hash_stream(pre);
    let y = hash_stream(post);
    let p1 = d1[k].0;
    let p2 = d2[k].0;
    let b = d1[k].1;
    let s1 = x + (p1 + seq![0u8] + b + seq![0u8]) + y;
    let s2 = x + (p2 + seq![0u8] + b + seq![0u8]) + y;
    assert(hash_stream(d1) == s1);
    assert(hash_stream(d2) == s2);
    if s1 == s2 {
        assert(p1.len() == p2.len());
        assert forall|j: int| 0 <= j < p1.len() implies p1[j] == p2[j] by {
            assert(s1[x.len() + j] == p1[j]);
            assert(s2[x.len() + j] == p2[j]);
        }
        assert(p1 =~= p2);
    }
}

/// The same for files named by their paths' text: renaming one file of the
/// domain changes the stream the project hash digests.
pub proof fn law_renamed_file_changes_the_stream(e1: Seq<(String, Vec<u8>)>, e2: Seq<(String, Vec<u8>)>, k: int)
    requires
        e1.len() == e2.len(),
        0 <= k < e1.len(),
        forall|i: int| 0 <= i < e1.len() ==> (#[trigger] e1[i]).1@ == e2[i].1@,
        forall|i: int| 0 <= i < e1.len() && i != k ==> (#[trigger] e1[i]).0@ == e2[i].0@,
        e1[k].0@ != e2[k].0@,
    ensures
        hash_stream(entry_bytes(e1)) != hash_stream(entry_bytes(e2)),
{
    let d1 = entry_bytes(e1);
    let d2 = entry_bytes(e2);
    assert forall|i: int| 0 <= i < d1.len() implies (#[trigger] d1[i]).1 == d2[i].1 by {
        assert(e1[i].1@ == e2[i].1@);
    }
    assert forall|i: int| 0 <= i < d1.len() && i != k implies (#[trigger] d1[i]).0 == d2[i].0 by {
        assert(e1[i].0@ == e2[i].0@);
    }
    assert(d1[k].0 != d2[k].0) by {
        vstd::utf8::encode_utf8_decode_utf8(e1[k].0@);
        vstd::utf8::encode_utf8_decode_utf8(e2[k].0@);
    }
    law_paths_are_hashed(d1, d2, k);
}

} // verus!
