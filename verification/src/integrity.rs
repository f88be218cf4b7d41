//! `core.reference_integrity`: genre-agnostic stable-id checks. Every field
//! named `stable_id` or ending in `_stable_id` is a reference; it must
//! resolve to a declared object of the kind its field name implies, and
//! objects must be self-consistent. All findings are blocking and carry no
//! fix: these states arise only from out-of-band edits.

use vstd::prelude::*;

use crate::finding::{Finding, FindingView, Location, Severity, finding_id, finding_id_text, finding_view, text_or_null};
use crate::ir::RelPath;
use crate::json::{Json, JsonView, field_of, lemma_view_items_len, lemma_view_members_len, view_items, view_members};
use crate::reference::{
    escape_key, escape_pointer, expected_prefix, field_expected_prefix, id_prefix, id_prefix_of,
    is_warp_declaration, is_warp_pointer, object_file, object_of_path, strip_suffix, strip_suffix_chars,
};
use crate::text::{chars_equal, chars_of, decimal, push_decimal, push_str, string_of};

verus! {

pub const CODE_UNRESOLVED: &'static str = "core.ref.unresolved";
pub const CODE_KIND_MISMATCH: &'static str = "core.ref.kind_mismatch";
pub const CODE_STABLE_ID_MISMATCH: &'static str = "core.object.stable_id_mismatch";
pub const CODE_DUPLICATE_HANDLE: &'static str = "core.object.duplicate_handle";

/// A field that holds a reference: `stable_id` or `<anything>_stable_id`.
pub open spec fn is_ref_field(key: Seq<char>) -> bool {
    key == "stable_id"@ || strip_suffix(key, "_stable_id"@) is Some
}

/// The reference (pointer, field, referenced id) a member contributes, if
/// any: a string-valued reference field, except a file's own top-level
/// `stable_id` (`top`) and a region's inline warp declarations.
pub open spec fn member_ref(m: (Seq<char>, JsonView), pointer: Seq<char>, top: bool) -> Seq<(Seq<char>, Seq<char>, Seq<char>)> {
    let child = pointer + "/"@ + escape_key(m.0);
    match m.1 {
        JsonView::Str(s) => if is_ref_field(m.0) && !(top && m.0 == "stable_id"@) && !is_warp_pointer(child) {
            seq![(child, m.0, s)]
        } else {
            Seq::empty()
        },
        _ => Seq::empty(),
    }
}

/// Every reference inside `v` (at JSON pointer `pointer`), depth first in
/// member and item order. `top` marks the top level of an object file.
pub open spec fn refs_in(v: JsonView, pointer: Seq<char>, top: bool) -> Seq<(Seq<char>, Seq<char>, Seq<char>)>
    decreases v,
{
    match v {
        JsonView::Object(ms) => refs_in_members(ms, pointer, top),
        JsonView::Array(items) => refs_in_items(items, pointer),
        _ => Seq::empty(),
    }
}

pub open spec fn refs_in_members(ms: Seq<(Seq<char>, JsonView)>, pointer: Seq<char>, top: bool) -> Seq<(Seq<char>, Seq<char>, Seq<char>)>
    decreases ms,
{
    if ms.len() == 0 {
        Seq::empty()
    } else {
        refs_in_members(ms.drop_last(), pointer, top) + member_ref(ms.last(), pointer, top)
            + refs_in(ms.last().1, pointer + "/"@ + escape_key(ms.last().0), false)
    }
}

pub open spec fn refs_in_items(items: Seq<JsonView>, pointer: Seq<char>) -> Seq<(Seq<char>, Seq<char>, Seq<char>)>
    decreases items,
{
    if items.len() == 0 {
        Seq::empty()
    } else {
        refs_in_items(items.drop_last(), pointer) + refs_in(items.last(), pointer + "/"@ + decimal((items.len() - 1) as nat), false)
    }
}

pub open spec fn refs_view(out: Seq<(Vec<char>, Vec<char>, Vec<char>)>) -> Seq<(Seq<char>, Seq<char>, Seq<char>)> {
    Seq::new(out.len(), |i: int| (out[i].0@, out[i].1@, out[i].2@))
}

fn is_ref_field_exec(key: &str) -> (res: bool)
    ensures
        res == is_ref_field(key@),
{
    let k = chars_of(key);
    let sid = chars_of("stable_id");
    proof { reveal_strlit("stable_id"); }
    if chars_equal(&k, &sid) {
        return true;
    }
    match strip_suffix_chars(&k, "_stable_id") {
        Some(_) => true,
        None => false,
    }
}

/// Appends every reference inside `value` at `pointer`.
fn collect_refs(value: &Json, pointer: &Vec<char>, top: bool, out: &mut Vec<(Vec<char>, Vec<char>, Vec<char>)>)
    ensures
        refs_view(final(out)@) == refs_view(old(out)@) + refs_in(value@, pointer@, top),
    decreases value,
{
    let ghost start = refs_view(out@);
    match value {
        Json::Object(members) => {
            proof { lemma_view_members_len(members@); }
            let mut i: usize = 0;
            while i < members.len()
                invariant
                    i <= members@.len(),
                    *value == Json::Object(*members),
                    forall|j: int| 0 <= j < members@.len() ==> #[trigger] view_members(members@)[j] == (members@[j].0@, members@[j].1@),
                    refs_view(out@) == start + refs_in_members(view_members(members@.subrange(0, i as int)), pointer@, top),
                decreases members@.len() - i,
            {
                let ghost pre = members@.subrange(0, i as int);
                let ghost post = members@.subrange(0, i + 1);
                assert(post.drop_last() =~= pre);
                proof {
                    lemma_view_members_len(post);
                    lemma_view_members_len(pre);
                    assert(view_members(post).drop_last() =~= view_members(pre));
                }
                let key = members[i].0.as_str();
                let mut child: Vec<char> = Vec::new();
                crate::json::push_chars(&mut child, pointer);
                child.push('/');
                push_str(&mut child, escape_pointer(key).as_str());
                let ghost before = refs_view(out@);
                let ghost m = (members@[i as int].0@, members@[i as int].1@);
                assert(child@ =~= pointer@ + "/"@ + escape_key(m.0)) by {
                    reveal_strlit("/");
                }
                match &members[i].1 {
                    Json::Str(s) => {
                        if is_ref_field_exec(key) {
                            let sid = chars_of("stable_id");
                            proof { reveal_strlit("stable_id"); }
                            let own = top && chars_equal(&chars_of(key), &sid);
                            if !own {
                                let child_text = string_of(&child);
                                if !is_warp_declaration(child_text.as_str()) {
                                    out.push((child.clone(), chars_of(key), chars_of(s.as_str())));
                                }
                            }
                        }
                    },
                    _ => {},
                }
                assert(refs_view(out@) =~= before + member_ref(m, pointer@, top));
                proof {
                    assert(decreases_to!(*value => value->Object_0));
                    assert(decreases_to!(*members => members@));
                    assert(decreases_to!(members@ => members@[i as int]));
                    assert(decreases_to!(members@[i as int] => members@[i as int].1));
                }
                collect_refs(&members[i].1, &child, false, out);
                proof {
                    assert(view_members(post).last() == m);
                    assert(refs_view(out@) =~= start + refs_in_members(view_members(post), pointer@, top));
                }
                i = i + 1;
            }
            proof {
                assert(members@.subrange(0, members@.len() as int) =~= members@);
            }
        },
        Json::Array(items) => {
            proof { lemma_view_items_len(items@); }
            let mut i: usize = 0;
            while i < items.len()
                invariant
                    i <= items@.len(),
                    *value == Json::Array(*items),
                    forall|j: int| 0 <= j < items@.len() ==> #[trigger] view_items(items@)[j] == items@[j]@,
                    refs_view(out@) == start + refs_in_items(view_items(items@.subrange(0, i as int)), pointer@),
                decreases items@.len() - i,
            {
                let ghost pre = items@.subrange(0, i as int);
                let ghost post = items@.subrange(0, i + 1);
                assert(post.drop_last() =~= pre);
                proof {
                    lemma_view_items_len(post);
                    lemma_view_items_len(pre);
                    assert(view_items(post).drop_last() =~= view_items(pre));
                }
                let mut child: Vec<char> = Vec::new();
                crate::json::push_chars(&mut child, pointer);
                child.push('/');
                push_decimal(&mut child, i as u64, 0);
                assert(child@ =~= pointer@ + "/"@ + decimal(i as nat)) by {
                    reveal_strlit("/");
                    crate::text::lemma_decimal_digits(i as nat);
                }
                proof {
                    assert(decreases_to!(*value => value->Array_0));
                    assert(decreases_to!(*items => items@));
                    assert(decreases_to!(items@ => items@[i as int]));
                }
                collect_refs(&items[i], &child, false, out);
                proof {
                    assert(view_items(post).last() == items@[i as int]@);
                    assert(refs_view(out@) =~= start + refs_in_items(view_items(post), pointer@));
                }
                i = i + 1;
            }
            proof {
                assert(items@.subrange(0, items@.len() as int) =~= items@);
            }
        },
        _ => {
            assert(refs_view(out@) =~= start + refs_in(value@, pointer@, top));
        },
    }
}


/// A file's own top-level `stable_id`, when it is a string.
pub open spec fn own_stable_id(v: JsonView) -> Option<Seq<char>> {
    match field_of(v, "stable_id"@) {
        Some(JsonView::Str(s)) => Some(s),
        _ => None,
    }
}

/// An array of objects one of which has stable id `id`.
pub open spec fn array_declares(v: JsonView, id: Seq<char>) -> bool {
    match v {
        JsonView::Array(ws) => exists|k: int| 0 <= k < ws.len() && own_stable_id(#[trigger] ws[k]) == Some(id),
        _ => false,
    }
}

/// A region's inline warp declarations include `id`.
pub open spec fn warp_declares(v: JsonView, id: Seq<char>) -> bool {
    match field_of(v, "warps"@) {
        Some(ws) => array_declares(ws, id),
        None => false,
    }
}

/// File `f` (path, value) declares the object `id`: an object file's own
/// stable id, or a region's warp.
pub open spec fn declares(f: (Seq<char>, JsonView), id: Seq<char>) -> bool {
    match object_of_path(f.0) {
        Some(o) => own_stable_id(f.1) == Some(id) || (o.1 == "region"@ && warp_declares(f.1, id)),
        None => false,
    }
}

pub open spec fn declared(files: Seq<(Seq<char>, JsonView)>, id: Seq<char>) -> bool {
    exists|i: int| 0 <= i < files.len() && declares(#[trigger] files[i], id)
}

/// `no suggested fix: <what> — repair <path> by hand or via doctor`.
pub open spec fn repair_note(what: Seq<char>, path: Seq<char>) -> Seq<char> {
    "no suggested fix: "@ + what + " — repair "@ + path + " by hand or via `systole project doctor`"@
}

pub const REISSUE_NOTE: &'static str = "an object's stable id cannot be re-issued by a Release 0 operation";
pub const REFERENCE_NOTE: &'static str = "stable-id references cannot be repaired by a Release 0 operation";
pub const DUPLICATE_NOTE: &'static str = "duplicate handles cannot be resolved by a Release 0 operation";

pub open spec fn reissue_text() -> Seq<char> {
    REISSUE_NOTE@
}

pub open spec fn references_text() -> Seq<char> {
    REFERENCE_NOTE@
}

pub open spec fn duplicates_text() -> Seq<char> {
    DUPLICATE_NOTE@
}

/// A blocking error finding located at the file that produced it.
pub open spec fn object_finding(code: Seq<char>, stable_id: Option<Seq<char>>, path: Seq<char>, evidence: JsonView) -> FindingView {
    FindingView {
        finding_id: finding_id_text(code, stable_id, Some(path), evidence),
        code,
        severity: Severity::Error,
        stable_id,
        path: Some(path),
        evidence,
        fix_count: 0,
        blocking: true,
    }
}

/// The stable-id mismatch finding of file `f`, if its declared stable id
/// is not the one its path names.
pub open spec fn mismatch_of(f: (Seq<char>, JsonView)) -> Seq<FindingView> {
    match object_of_path(f.0) {
        Some(o) => if own_stable_id(f.1) != Some(o.0) {
            seq![object_finding(CODE_STABLE_ID_MISMATCH@, own_stable_id(f.1), f.0, JsonView::Object(seq![
                ("declared_stable_id"@, text_or_null(own_stable_id(f.1))),
                ("message"@, JsonView::Str(repair_note(reissue_text(), f.0))),
                ("path_stable_id"@, JsonView::Str(o.0)),
            ]))]
        } else {
            Seq::empty()
        },
        None => Seq::empty(),
    }
}

/// The finding for reference `r` of the file at `path` (whose own stable
/// id is `own`): unresolved, or pointing at an object of the wrong kind.
pub open spec fn ref_finding(
    files: Seq<(Seq<char>, JsonView)>,
    r: (Seq<char>, Seq<char>, Seq<char>),
    path: Seq<char>,
    own: Option<Seq<char>>,
) -> Seq<FindingView> {
    if !declared(files, r.2) {
        seq![object_finding(CODE_UNRESOLVED@, own, path, JsonView::Object(seq![
            ("message"@, JsonView::Str(repair_note(references_text(), path))),
            ("pointer"@, JsonView::Str(r.0)),
            ("value"@, JsonView::Str(r.2)),
        ]))]
    } else {
        match field_expected_prefix(r.1) {
            Some(expected) => if id_prefix_of(r.2) != Some(expected) {
                seq![object_finding(CODE_KIND_MISMATCH@, own, path, JsonView::Object(seq![
                    ("actual_kind"@, text_or_null(id_prefix_of(r.2))),
                    ("expected_kind"@, JsonView::Str(expected)),
                    ("message"@, JsonView::Str(repair_note(references_text(), path))),
                    ("pointer"@, JsonView::Str(r.0)),
                    ("value"@, JsonView::Str(r.2)),
                ]))]
            } else {
                Seq::empty()
            },
            None => Seq::empty(),
        }
    }
}

pub open spec fn ref_findings_in(
    files: Seq<(Seq<char>, JsonView)>,
    refs: Seq<(Seq<char>, Seq<char>, Seq<char>)>,
    path: Seq<char>,
    own: Option<Seq<char>>,
) -> Seq<FindingView>
    decreases refs.len(),
{
    if refs.len() == 0 {
        Seq::empty()
    } else {
        ref_findings_in(files, refs.drop_last(), path, own) + ref_finding(files, refs.last(), path, own)
    }
}

/// The references of file `f`.
pub open spec fn file_refs(f: (Seq<char>, JsonView)) -> Seq<(Seq<char>, Seq<char>, Seq<char>)> {
    refs_in(f.1, Seq::empty(), object_of_path(f.0) is Some)
}

/// The (kind, `id` handle) of an object file that has a handle.
pub open spec fn handle_of(f: (Seq<char>, JsonView)) -> Option<(Seq<char>, Seq<char>)> {
    match object_of_path(f.0) {
        Some(o) => match field_of(f.1, "id"@) {
            Some(JsonView::Str(h)) => Some((o.1, h)),
            _ => None,
        },
        None => None,
    }
}

/// The paths among the first `n` files that declare handle `key`.
pub open spec fn group_paths(files: Seq<(Seq<char>, JsonView)>, key: (Seq<char>, Seq<char>), n: int) -> Seq<Seq<char>>
    decreases n,
{
    if n <= 0 {
        Seq::empty()
    } else {
        group_paths(files, key, n - 1) + if handle_of(files[n - 1]) == Some(key) {
            seq![files[n - 1].0]
        } else {
            Seq::empty()
        }
    }
}

/// The duplicate-handle finding anchored at file `i`: the first file of a
/// handle that more than one file declares.
#[verifier::opaque]
pub open spec fn duplicate_at(files: Seq<(Seq<char>, JsonView)>, i: int) -> Seq<FindingView> {
    match handle_of(files[i]) {
        Some(key) => {
            let paths = group_paths(files, key, files.len() as int);
            if (forall|j: int| 0 <= j < i ==> handle_of(#[trigger] files[j]) != Some(key)) && paths.len() > 1 {
                seq![object_finding(CODE_DUPLICATE_HANDLE@, own_stable_id(files[i].1), files[i].0, JsonView::Object(seq![
                    ("id"@, JsonView::Str(key.1)),
                    ("kind"@, JsonView::Str(key.0)),
                    ("message"@, JsonView::Str(repair_note(duplicates_text(), files[i].0))),
                    ("paths"@, JsonView::Array(Seq::new(paths.len(), |k: int| JsonView::Str(paths[k])))),
                ]))]
            } else {
                Seq::empty()
            }
        },
        None => Seq::empty(),
    }
}

/// The findings of the first `n` files, each kind in file order:
/// mismatches, then reference findings, then duplicates.
pub open spec fn mismatches_upto(files: Seq<(Seq<char>, JsonView)>, n: int) -> Seq<FindingView>
    decreases n,
{
    if n <= 0 {
        Seq::empty()
    } else {
        mismatches_upto(files, n - 1) + mismatch_of(files[n - 1])
    }
}

pub open spec fn ref_findings_upto(files: Seq<(Seq<char>, JsonView)>, n: int) -> Seq<FindingView>
    decreases n,
{
    if n <= 0 {
        Seq::empty()
    } else {
        ref_findings_upto(files, n - 1) + ref_findings_in(files, file_refs(files[n - 1]), files[n - 1].0, own_stable_id(files[n - 1].1))
    }
}

pub open spec fn duplicates_upto(files: Seq<(Seq<char>, JsonView)>, n: int) -> Seq<FindingView>
    decreases n,
{
    if n <= 0 {
        Seq::empty()
    } else {
        duplicates_upto(files, n - 1) + duplicate_at(files, n - 1)
    }
}

/// Everything the check finds in `files` (path, value), before ordering.
pub open spec fn integrity_findings(files: Seq<(Seq<char>, JsonView)>) -> Seq<FindingView> {
    let n = files.len() as int;
    mismatches_upto(files, n) + ref_findings_upto(files, n) + duplicates_upto(files, n)
}

/// What every reference-integrity finding is: a blocking error, with no
/// suggested fix, located at a file, and identified by its own content.
pub open spec fn integrity_shaped(f: FindingView) -> bool {
    &&& f.blocking
    &&& f.severity == Severity::Error
    &&& f.fix_count == 0
    &&& f.path is Some
    &&& f.finding_id == finding_id_text(f.code, f.stable_id, f.path, f.evidence)
}

pub open spec fn all_integrity_shaped(fs: Seq<FindingView>) -> bool {
    forall|i: int| 0 <= i < fs.len() ==> integrity_shaped(#[trigger] fs[i])
}

proof fn lemma_shaped_concat(a: Seq<FindingView>, b: Seq<FindingView>)
    requires
        all_integrity_shaped(a),
        all_integrity_shaped(b),
    ensures
        all_integrity_shaped(a + b),
{
    assert forall|i: int| 0 <= i < (a + b).len() implies integrity_shaped(#[trigger] (a + b)[i]) by {
        if i < a.len() {
            assert((a + b)[i] == a[i]);
        } else {
            assert((a + b)[i] == b[i - a.len()]);
        }
    }
}

proof fn lemma_ref_findings_in_shaped(
    files: Seq<(Seq<char>, JsonView)>,
    refs: Seq<(Seq<char>, Seq<char>, Seq<char>)>,
    path: Seq<char>,
    own: Option<Seq<char>>,
)
    ensures
        all_integrity_shaped(ref_findings_in(files, refs, path, own)),
    decreases refs.len(),
{
    if refs.len() > 0 {
        lemma_ref_findings_in_shaped(files, refs.drop_last(), path, own);
        lemma_shaped_concat(ref_findings_in(files, refs.drop_last(), path, own), ref_finding(files, refs.last(), path, own));
    }
}

proof fn lemma_upto_shaped(files: Seq<(Seq<char>, JsonView)>, n: int)
    ensures
        all_integrity_shaped(mismatches_upto(files, n)),
        all_integrity_shaped(ref_findings_upto(files, n)),
        all_integrity_shaped(duplicates_upto(files, n)),
    decreases n,
{
    if n > 0 {
        lemma_upto_shaped(files, n - 1);
        let f = files[n - 1];
        lemma_shaped_concat(mismatches_upto(files, n - 1), mismatch_of(f));
        lemma_ref_findings_in_shaped(files, file_refs(f), f.0, own_stable_id(f.1));
        lemma_shaped_concat(
            ref_findings_upto(files, n - 1),
            ref_findings_in(files, file_refs(f), f.0, own_stable_id(f.1)),
        );
        reveal(duplicate_at);
        lemma_shaped_concat(duplicates_upto(files, n - 1), duplicate_at(files, n - 1));
    }
}

/// Every finding the reference-integrity check can raise is a blocking
/// error with no suggested fix, located at the file it concerns, whose
/// finding id is the digest of its code, location and evidence.
pub proof fn law_integrity_findings_shaped(files: Seq<(Seq<char>, JsonView)>)
    ensures
        all_integrity_shaped(integrity_findings(files)),
{
    let n = files.len() as int;
    lemma_upto_shaped(files, n);
    lemma_shaped_concat(mismatches_upto(files, n), ref_findings_upto(files, n));
    lemma_shaped_concat(mismatches_upto(files, n) + ref_findings_upto(files, n), duplicates_upto(files, n));
}

/// Findings in finding-id order.
pub open spec fn sorted_by_id(fs: Seq<FindingView>) -> bool {
    forall|i: int, j: int| 0 <= i < j < fs.len() ==> !crate::json::key_less(#[trigger] fs[j].finding_id, #[trigger] fs[i].finding_id)
}

pub open spec fn files_view(files: Seq<(RelPath, Json)>) -> Seq<(Seq<char>, JsonView)> {
    Seq::new(files.len(), |i: int| (files[i].0@, files[i].1@))
}

pub open spec fn findings_view(fs: Seq<Finding>) -> Seq<FindingView> {
    Seq::new(fs.len(), |i: int| finding_view(fs[i]))
}


fn own_stable_id_exec(v: &Json) -> (res: Option<String>)
    ensures
        match res {
            Some(s) => own_stable_id(v@) == Some(s@),
            None => own_stable_id(v@) is None,
        },
{
    match v.get("stable_id") {
        Some(f) => match f.as_text() {
            Some(s) => Some(s.clone()),
            None => None,
        },
        None => None,
    }
}

fn same_text(a: &str, b: &str) -> (res: bool)
    ensures
        res == (a@ == b@),
{
    chars_equal(&chars_of(a), &chars_of(b))
}

fn array_declares_exec(ws: &Json, id: &str) -> (res: bool)
    ensures
        res == array_declares(ws@, id@),
{
    match ws {
        Json::Array(items) => {
            proof { lemma_view_items_len(items@); }
            let mut k: usize = 0;
            while k < items.len()
                invariant
                    k <= items@.len(),
                    ws@ == JsonView::Array(view_items(items@)),
                    view_items(items@).len() == items@.len(),
                    forall|j: int| 0 <= j < items@.len() ==> #[trigger] view_items(items@)[j] == items@[j]@,
                    forall|j: int| 0 <= j < k ==> own_stable_id(#[trigger] view_items(items@)[j]) != Some(id@),
                decreases items@.len() - k,
            {
                match own_stable_id_exec(&items[k]) {
                    Some(w) => {
                        if same_text(w.as_str(), id) {
                            assert(own_stable_id(view_items(items@)[k as int]) == Some(id@));
                            return true;
                        }
                    },
                    None => {},
                }
                assert(own_stable_id(view_items(items@)[k as int]) != Some(id@));
                k = k + 1;
            }
            false
        },
        _ => false,
    }
}

/// Whether file `f` declares `id`.
fn declares_exec(f: &(RelPath, Json), id: &str) -> (res: bool)
    ensures
        res == declares((f.0@, f.1@), id@),
{
    match object_file(&f.0) {
        Some((_, kind)) => {
            match own_stable_id_exec(&f.1) {
                Some(sid) => {
                    if same_text(sid.as_str(), id) {
                        return true;
                    }
                },
                None => {},
            }
            if !same_text(kind.as_str(), "region") {
                return false;
            }
            match f.1.get("warps") {
                Some(ws) => array_declares_exec(ws, id),
                None => false,
            }
        },
        None => false,
    }
}

/// Whether any file declares `id`.
fn is_declared(files: &Vec<(RelPath, Json)>, id: &str) -> (res: bool)
    ensures
        res == declared(files_view(files@), id@),
{
    let mut i: usize = 0;
    while i < files.len()
        invariant
            i <= files@.len(),
            forall|j: int| 0 <= j < i ==> !declares(#[trigger] files_view(files@)[j], id@),
        decreases files@.len() - i,
    {
        if declares_exec(&files[i], id) {
            assert(declares(files_view(files@)[i as int], id@));
            return true;
        }
        assert(!declares(files_view(files@)[i as int], id@));
        i = i + 1;
    }
    false
}

/// The repair note for the file at `path`.
fn repair_note_exec(what: &str, path: &str) -> (res: String)
    ensures
        res@ == repair_note(what@, path@),
{
    let mut out: Vec<char> = Vec::new();
    push_str(&mut out, "no suggested fix: ");
    push_str(&mut out, what);
    push_str(&mut out, " — repair ");
    push_str(&mut out, path);
    push_str(&mut out, " by hand or via `systole project doctor`");
    string_of(&out)
}

/// A blocking error finding at `path`, id from the shared formula.
fn object_finding_exec(code: &str, stable_id: Option<String>, path: &RelPath, evidence: Json) -> (res: Finding)
    ensures
        finding_view(res) == object_finding(code@, match stable_id {
            Some(s) => Some(s@),
            None => None,
        }, path@, evidence@),
{
    let location = Location { stable_id, path: Some(path.duplicate()) };
    let id = finding_id(code, &location, &evidence);
    Finding {
        finding_id: id,
        code: code.to_string(),
        severity: Severity::Error,
        location,
        evidence,
        suggested_fixes: Vec::new(),
        blocking: true,
    }
}

fn text_or_null_exec(s: &Option<String>) -> (res: Json)
    ensures
        res@ == text_or_null(match s {
            Some(t) => Some(t@),
            None => None,
        }),
{
    match s {
        Some(t) => Json::Str(t.clone()),
        None => Json::Null,
    }
}

/// The stable-id mismatch finding of file `f`, if any.
fn mismatch_exec(f: &(RelPath, Json)) -> (res: Option<Finding>)
    ensures
        mismatch_of((f.0@, f.1@)) == match res {
            Some(x) => seq![finding_view(x)],
            None => Seq::empty(),
        },
{
    match object_file(&f.0) {
        Some((sid, _)) => {
            let own = own_stable_id_exec(&f.1);
            let same = match &own {
                Some(o) => same_text(o.as_str(), sid.as_str()),
                None => false,
            };
            if same {
                return None;
            }
            let members = vec![
                ("declared_stable_id".to_string(), text_or_null_exec(&own)),
                ("message".to_string(), Json::Str(repair_note_exec(REISSUE_NOTE, f.0.as_str()))),
                ("path_stable_id".to_string(), Json::Str(sid)),
            ];
            proof { lemma_view_members_len(members@); }
            let evidence = Json::Object(members);
            let ghost ov = match &own {
                Some(o) => Some(o@),
                None => None::<Seq<char>>,
            };
            assert(evidence@ == JsonView::Object(seq![
                ("declared_stable_id"@, text_or_null(ov)),
                ("message"@, JsonView::Str(repair_note(reissue_text(), f.0@))),
                ("path_stable_id"@, JsonView::Str(object_of_path(f.0@).unwrap().0)),
            ])) by {
                assert(view_members(members@) =~= seq![
                    ("declared_stable_id"@, text_or_null(ov)),
                    ("message"@, JsonView::Str(repair_note(reissue_text(), f.0@))),
                    ("path_stable_id"@, JsonView::Str(object_of_path(f.0@).unwrap().0)),
                ]);
            }
            Some(object_finding_exec(CODE_STABLE_ID_MISMATCH, own, &f.0, evidence))
        },
        None => None,
    }
}

/// The finding for reference `r` of the file at `path`, if any.
fn ref_finding_exec(
    files: &Vec<(RelPath, Json)>,
    r: &(Vec<char>, Vec<char>, Vec<char>),
    path: &RelPath,
    own: &Option<String>,
) -> (res: Option<Finding>)
    ensures
        ref_finding(files_view(files@), (r.0@, r.1@, r.2@), path@, match own {
            Some(o) => Some(o@),
            None => None,
        }) == match res {
            Some(x) => seq![finding_view(x)],
            None => Seq::empty(),
        },
{
    let pointer = string_of(&r.0);
    let field = string_of(&r.1);
    let value = string_of(&r.2);
    let ghost ov = match own {
        Some(o) => Some(o@),
        None => None::<Seq<char>>,
    };
    if !is_declared(files, value.as_str()) {
        let members = vec![
            ("message".to_string(), Json::Str(repair_note_exec(REFERENCE_NOTE, path.as_str()))),
            ("pointer".to_string(), Json::Str(pointer)),
            ("value".to_string(), Json::Str(value)),
        ];
        proof { lemma_view_members_len(members@); }
        let evidence = Json::Object(members);
        assert(view_members(members@) =~= seq![
            ("message"@, JsonView::Str(repair_note(references_text(), path@))),
            ("pointer"@, JsonView::Str(r.0@)),
            ("value"@, JsonView::Str(r.2@)),
        ]);
        return Some(object_finding_exec(CODE_UNRESOLVED, own.clone(), path, evidence));
    }
    match expected_prefix(field.as_str()) {
        Some(expected) => {
            let actual = id_prefix(value.as_str());
            let matches = match &actual {
                Some(a) => same_text(a.as_str(), expected),
                None => false,
            };
            if matches {
                return None;
            }
            let ghost av = match &actual {
                Some(a) => Some(a@),
                None => None::<Seq<char>>,
            };
            let members = vec![
                ("actual_kind".to_string(), text_or_null_exec(&actual)),
                ("expected_kind".to_string(), Json::Str(expected.to_string())),
                ("message".to_string(), Json::Str(repair_note_exec(REFERENCE_NOTE, path.as_str()))),
                ("pointer".to_string(), Json::Str(pointer)),
                ("value".to_string(), Json::Str(value)),
            ];
            proof { lemma_view_members_len(members@); }
            let evidence = Json::Object(members);
            assert(view_members(members@) =~= seq![
                ("actual_kind"@, text_or_null(av)),
                ("expected_kind"@, JsonView::Str(expected@)),
                ("message"@, JsonView::Str(repair_note(references_text(), path@))),
                ("pointer"@, JsonView::Str(r.0@)),
                ("value"@, JsonView::Str(r.2@)),
            ]);
            Some(object_finding_exec(CODE_KIND_MISMATCH, own.clone(), path, evidence))
        },
        None => None,
    }
}

/// The (kind, handle) of file `f`, if it is an object file with a handle.
fn handle_exec(f: &(RelPath, Json)) -> (res: Option<(String, String)>)
    ensures
        handle_of((f.0@, f.1@)) == match res {
            Some(k) => Some((k.0@, k.1@)),
            None => None,
        },
{
    match object_file(&f.0) {
        Some((_, kind)) => match f.1.get("id") {
            Some(h) => match h.as_text() {
                Some(t) => Some((kind, t.clone())),
                None => None,
            },
            None => None,
        },
        None => None,
    }
}

fn same_handle(a: &Option<(String, String)>, b: &(String, String)) -> (res: bool)
    ensures
        res == (a is Some && a.unwrap().0@ == b.0@ && a.unwrap().1@ == b.1@),
{
    match a {
        Some(k) => same_text(k.0.as_str(), b.0.as_str()) && same_text(k.1.as_str(), b.1.as_str()),
        None => false,
    }
}

/// Whether no file before `i` declares handle `key`.
fn first_with_handle(files: &Vec<(RelPath, Json)>, i: usize, key: &(String, String)) -> (res: bool)
    requires
        i <= files@.len(),
    ensures
        res == forall|q: int| 0 <= q < i ==> handle_of(#[trigger] files_view(files@)[q]) != Some((key.0@, key.1@)),
{
    let ghost fv = files_view(files@);
    let ghost kv = (key.0@, key.1@);
    let mut j: usize = 0;
    while j < i
        invariant
            j <= i,
            i <= files@.len(),
            fv == files_view(files@),
            kv == (key.0@, key.1@),
            forall|q: int| 0 <= q < j ==> handle_of(#[trigger] fv[q]) != Some(kv),
        decreases i - j,
    {
        let h = handle_exec(&files[j]);
        assert(fv[j as int] == (files@[j as int].0@, files@[j as int].1@));
        let ghost hv = match &h {
            Some(k) => Some((k.0@, k.1@)),
            None => None::<(Seq<char>, Seq<char>)>,
        };
        assert(handle_of(fv[j as int]) == hv);
        if same_handle(&h, key) {
            return false;
        }
        j = j + 1;
    }
    true
}

/// The paths of the files that declare handle `key`, in file order.
fn group_paths_exec(files: &Vec<(RelPath, Json)>, key: &(String, String)) -> (res: Vec<String>)
    ensures
        res@.len() == group_paths(files_view(files@), (key.0@, key.1@), files@.len() as int).len(),
        forall|k: int| 0 <= k < res@.len() ==> (#[trigger] res@[k])@ == group_paths(files_view(files@), (key.0@, key.1@), files@.len() as int)[k],
{
    let ghost fv = files_view(files@);
    let ghost kv = (key.0@, key.1@);
    let mut paths: Vec<String> = Vec::new();
    let mut q: usize = 0;
    while q < files.len()
        invariant
            q <= files@.len(),
            fv == files_view(files@),
            kv == (key.0@, key.1@),
            paths@.len() == group_paths(fv, kv, q as int).len(),
            forall|k: int| 0 <= k < paths@.len() ==> (#[trigger] paths@[k])@ == group_paths(fv, kv, q as int)[k],
        decreases files@.len() - q,
    {
        let h = handle_exec(&files[q]);
        assert(fv[q as int] == (files@[q as int].0@, files@[q as int].1@));
        let ghost before = group_paths(fv, kv, q as int);
        if same_handle(&h, key) {
            paths.push(files[q].0.as_str().to_string());
            assert(group_paths(fv, kv, q + 1) =~= before.push(fv[q as int].0));
        } else {
            assert(group_paths(fv, kv, q + 1) =~= before);
        }
        q = q + 1;
    }
    paths
}

/// `paths` as a JSON array of strings.
fn path_array(paths: &Vec<String>) -> (res: Json)
    ensures
        res@ == JsonView::Array(Seq::new(paths@.len(), |m: int| JsonView::Str(paths@[m]@))),
{
    let mut items: Vec<Json> = Vec::new();
    let mut k: usize = 0;
    while k < paths.len()
        invariant
            k <= paths@.len(),
            items@.len() == k,
            forall|m: int| 0 <= m < k ==> (#[trigger] items@[m])@ == JsonView::Str(paths@[m]@),
        decreases paths@.len() - k,
    {
        items.push(Json::Str(paths[k].clone()));
        k = k + 1;
    }
    proof {
        lemma_view_items_len(items@);
        assert(view_items(items@) =~= Seq::new(paths@.len(), |m: int| JsonView::Str(paths@[m]@)));
    }
    Json::Array(items)
}

/// The duplicate-handle finding anchored at file `i`, if any.
#[verifier::rlimit(30)]
fn duplicate_exec(files: &Vec<(RelPath, Json)>, i: usize) -> (res: Option<Finding>)
    requires
        i < files@.len(),
    ensures
        duplicate_at(files_view(files@), i as int) == match res {
            Some(x) => seq![finding_view(x)],
            None => Seq::empty(),
        },
{
    let ghost fv = files_view(files@);
    proof { reveal(duplicate_at); }
    assert(fv[i as int] == (files@[i as int].0@, files@[i as int].1@));
    let key = match handle_exec(&files[i]) {
        Some(k) => k,
        None => {
            return None;
        },
    };
    let ghost kv = (key.0@, key.1@);
    if !first_with_handle(files, i, &key) {
        return None;
    }
    let paths = group_paths_exec(files, &key);
    if paths.len() <= 1 {
        return None;
    }
    let ghost gp = group_paths(fv, kv, fv.len() as int);
    let array = path_array(&paths);
    assert(array@ == JsonView::Array(Seq::new(gp.len(), |m: int| JsonView::Str(gp[m])))) by {
        assert(Seq::new(paths@.len(), |m: int| JsonView::Str(paths@[m]@)) =~= Seq::new(gp.len(), |m: int| JsonView::Str(gp[m])));
    }
    let own = own_stable_id_exec(&files[i].1);
    let evidence = duplicate_evidence(key, files[i].0.as_str(), array);
    Some(object_finding_exec(CODE_DUPLICATE_HANDLE, own, &files[i].0, evidence))
}

fn duplicate_evidence(key: (String, String), path: &str, paths: Json) -> (res: Json)
    ensures
        res@ == JsonView::Object(seq![
            ("id"@, JsonView::Str(key.1@)),
            ("kind"@, JsonView::Str(key.0@)),
            ("message"@, JsonView::Str(repair_note(duplicates_text(), path@))),
            ("paths"@, paths@),
        ]),
{
    let ghost k0 = key.0@;
    let ghost k1 = key.1@;
    let ghost pv = paths@;
    let members = vec![
        ("id".to_string(), Json::Str(key.1)),
        ("kind".to_string(), Json::Str(key.0)),
        ("message".to_string(), Json::Str(repair_note_exec(DUPLICATE_NOTE, path))),
        ("paths".to_string(), paths),
    ];
    proof { lemma_view_members_len(members@); }
    assert(view_members(members@) =~= seq![
        ("id"@, JsonView::Str(k1)),
        ("kind"@, JsonView::Str(k0)),
        ("message"@, JsonView::Str(repair_note(duplicates_text(), path@))),
        ("paths"@, pv),
    ]);
    Json::Object(members)
}


/// Appends the finding, if any.
fn push_finding(out: &mut Vec<Finding>, f: Option<Finding>)
    ensures
        findings_view(final(out)@) == findings_view(old(out)@) + match f {
            Some(x) => seq![finding_view(x)],
            None => Seq::empty(),
        },
{
    let ghost before = findings_view(out@);
    match f {
        Some(x) => {
            let ghost v = finding_view(x);
            out.push(x);
            assert(findings_view(out@) =~= before + seq![v]);
        },
        None => {
            assert(findings_view(out@) =~= before + Seq::<FindingView>::empty());
        },
    }
}

/// Findings in finding-id order; findings with equal ids keep their order.
pub(crate) fn sort_by_finding_id(fs: Vec<Finding>) -> (res: Vec<Finding>)
    ensures
        sorted_by_id(findings_view(res@)),
        findings_view(res@).to_multiset() == findings_view(fs@).to_multiset(),
        res@.to_multiset() == fs@.to_multiset(),
{
    let ghost all = findings_view(fs@);
    let ghost raw = fs@;
    let mut out: Vec<Finding> = Vec::new();
    let mut rest = fs;
    let total = rest.len();
    let mut done: usize = 0;
    proof {
        assert(findings_view(out@) =~= all.subrange(0, 0));
        assert(findings_view(rest@) =~= all.subrange(0, total as int));
        assert(out@ =~= raw.subrange(0, 0));
        assert(rest@ =~= raw.subrange(0, total as int));
    }
    while rest.len() > 0
        invariant
            done + rest@.len() == total,
            total == all.len(),
            total == raw.len(),
            rest@ == raw.subrange(done as int, total as int),
            out@.to_multiset() == raw.subrange(0, done as int).to_multiset(),
            findings_view(rest@) == all.subrange(done as int, total as int),
            sorted_by_id(findings_view(out@)),
            findings_view(out@).to_multiset() == all.subrange(0, done as int).to_multiset(),
        decreases rest@.len(),
    {
        let ghost rest_before = findings_view(rest@);
        let ghost rb = rest@;
        let f = rest.remove(0);
        let ghost fv = finding_view(f);
        let ghost out_before = out@;
        assert(rest@ =~= rb.subrange(1, rb.len() as int));
        assert(rb[0] == f);
        assert(rest@ =~= raw.subrange(done + 1, total as int));
        assert(rest_before[0] == fv);
        assert(findings_view(rest@) =~= rest_before.subrange(1, rest_before.len() as int));
        assert(findings_view(rest@) =~= all.subrange(done + 1, total as int));
        let ghost o = findings_view(out@);
        let mut p: usize = 0;
        while p < out.len()
            invariant_except_break
                p <= out@.len(),
                o == findings_view(out@),
                forall|j: int| 0 <= j < p ==> !crate::json::key_less(fv.finding_id, (#[trigger] o[j]).finding_id),
            invariant
                p <= out@.len(),
                o == findings_view(out@),
                f.finding_id@ == fv.finding_id,
            ensures
                forall|j: int| 0 <= j < p ==> !crate::json::key_less(fv.finding_id, (#[trigger] o[j]).finding_id),
                p < out@.len() ==> crate::json::key_less(fv.finding_id, o[p as int].finding_id),
            decreases out@.len() - p,
        {
            match crate::json::compare_keys(f.finding_id.as_str(), out[p].finding_id.as_str()) {
                crate::json::KeyOrder::Less => {
                    break;
                },
                _ => {},
            }
            p = p + 1;
        }
        out.insert(p, f);
        proof {
            let n = findings_view(out@);
            assert(n =~= o.insert(p as int, fv));
            assert forall|i: int, j: int| 0 <= i < j < n.len() implies !crate::json::key_less(#[trigger] n[j].finding_id, #[trigger] n[i].finding_id) by {
                if j < p {
                    assert(!crate::json::key_less(o[j].finding_id, o[i].finding_id));
                } else if j == p {
                    assert(!crate::json::key_less(fv.finding_id, o[i].finding_id));
                } else if i < p {
                    assert(!crate::json::key_less(o[j - 1].finding_id, o[i].finding_id));
                } else if i == p {
                    if crate::json::key_less(o[j - 1].finding_id, fv.finding_id) {
                        crate::json::lemma_key_less_transitive(o[j - 1].finding_id, fv.finding_id, o[p as int].finding_id);
                        if j - 1 > p {
                            assert(!crate::json::key_less(o[j - 1].finding_id, o[p as int].finding_id));
                        } else {
                            crate::json::lemma_key_less_irreflexive(o[p as int].finding_id);
                        }
                    }
                } else {
                    assert(!crate::json::key_less(o[j - 1].finding_id, o[i - 1].finding_id));
                }
            }
            vstd::seq_lib::to_multiset_insert(o, p as int, fv);
            assert(all.subrange(0, done + 1) =~= all.subrange(0, done as int).push(fv));
            vstd::seq_lib::to_multiset_build(all.subrange(0, done as int), fv);
            assert(out@ =~= out_before.insert(p as int, f));
            vstd::seq_lib::to_multiset_insert(out_before, p as int, f);
            assert(raw.subrange(0, done + 1) =~= raw.subrange(0, done as int).push(f));
            vstd::seq_lib::to_multiset_build(raw.subrange(0, done as int), f);
        }
        done = done + 1;
    }
    assert(all.subrange(0, total as int) =~= all);
    assert(raw.subrange(0, total as int) =~= raw);
    out
}


/// Appends the findings for the references of file `i`.
fn push_ref_findings(files: &Vec<(RelPath, Json)>, i: usize, findings: &mut Vec<Finding>)
    requires
        i < files@.len(),
    ensures
        findings_view(final(findings)@) == findings_view(old(findings)@) + ref_findings_in(
            files_view(files@),
            file_refs(files_view(files@)[i as int]),
            files_view(files@)[i as int].0,
            own_stable_id(files_view(files@)[i as int].1),
        ),
{
    let ghost fv = files_view(files@);
    let n = files.len();
    assert(fv[i as int] == (files@[i as int].0@, files@[i as int].1@));
    let is_object = match object_file(&files[i].0) {
        Some(_) => true,
        None => false,
    };
    let mut refs: Vec<(Vec<char>, Vec<char>, Vec<char>)> = Vec::new();
    let root: Vec<char> = Vec::new();
    assert(refs_view(refs@) =~= Seq::<(Seq<char>, Seq<char>, Seq<char>)>::empty());
    collect_refs(&files[i].1, &root, is_object, &mut refs);
    assert(root@ =~= Seq::<char>::empty());
    assert(refs_view(refs@) =~= file_refs(fv[i as int]));
    let own = own_stable_id_exec(&files[i].1);
    let ghost rs = refs_view(refs@);
    let ghost path = fv[i as int].0;
    let ghost ov = match &own {
        Some(o) => Some(o@),
        None => None::<Seq<char>>,
    };
    let ghost base = findings_view(findings@);
    let mut k: usize = 0;
    assert(findings_view(findings@) =~= base + ref_findings_in(fv, rs.subrange(0, 0), path, ov));
    while k < refs.len()
        invariant
            k <= refs@.len(),
            i < n,
            n == files@.len(),
            fv == files_view(files@),
            rs == refs_view(refs@),
            path == files@[i as int].0@,
            ov == match own {
                Some(o) => Some(o@),
                None => None::<Seq<char>>,
            },
            findings_view(findings@) == base + ref_findings_in(fv, rs.subrange(0, k as int), path, ov),
        decreases refs@.len() - k,
    {
        let x = ref_finding_exec(files, &refs[k], &files[i].0, &own);
        push_finding(findings, x);
        proof {
            assert(rs.subrange(0, k + 1).drop_last() =~= rs.subrange(0, k as int));
            assert(rs[k as int] == (refs@[k as int].0@, refs@[k as int].1@, refs@[k as int].2@));
        }
        k = k + 1;
    }
    assert(rs.subrange(0, rs.len() as int) =~= rs);
}

/// `core.reference_integrity`.
pub struct ReferenceIntegrity;

impl ReferenceIntegrity {
    pub fn id(&self) -> (res: &'static str)
        ensures
            res@ == "core.reference_integrity"@,
    {
        "core.reference_integrity"
    }

    /// The findings over the project's files (path, value), given in path
    /// order: every one that [`integrity_findings`] names, in finding-id
    /// order.
    #[verifier::rlimit(40)]
    pub fn run(&self, files: &Vec<(RelPath, Json)>) -> (res: Vec<Finding>)
        ensures
            sorted_by_id(findings_view(res@)),
            findings_view(res@).to_multiset() == integrity_findings(files_view(files@)).to_multiset(),
            all_integrity_shaped(findings_view(res@)),
    {
        let ghost fv = files_view(files@);
        let n = files.len();
        let mut findings: Vec<Finding> = Vec::new();
        let mut i: usize = 0;
        assert(findings_view(findings@) =~= mismatches_upto(fv, 0));
        while i < n
            invariant
                i <= n,
                n == files@.len(),
                fv == files_view(files@),
                findings_view(findings@) == mismatches_upto(fv, i as int),
            decreases n - i,
        {
            assert(fv[i as int] == (files@[i as int].0@, files@[i as int].1@));
            let m = mismatch_exec(&files[i]);
            push_finding(&mut findings, m);
            i = i + 1;
        }
        let ghost mm = findings_view(findings@);
        let mut i: usize = 0;
        assert(findings_view(findings@) =~= mm + ref_findings_upto(fv, 0));
        while i < n
            invariant
                i <= n,
                n == files@.len(),
                fv == files_view(files@),
                findings_view(findings@) == mm + ref_findings_upto(fv, i as int),
            decreases n - i,
        {
            push_ref_findings(files, i, &mut findings);
            i = i + 1;
        }
        let ghost mr = findings_view(findings@);
        let mut i: usize = 0;
        assert(findings_view(findings@) =~= mr + duplicates_upto(fv, 0));
        while i < n
            invariant
                i <= n,
                n == files@.len(),
                fv == files_view(files@),
                findings_view(findings@) == mr + duplicates_upto(fv, i as int),
            decreases n - i,
        {
            let d = duplicate_exec(files, i);
            push_finding(&mut findings, d);
            i = i + 1;
        }
        assert(findings_view(findings@) =~= integrity_findings(fv));
        let res = sort_by_finding_id(findings);
        proof {
            let all = integrity_findings(fv);
            let out = findings_view(res@);
            law_integrity_findings_shaped(fv);
            all.to_multiset_ensures();
            out.to_multiset_ensures();
            assert forall|i: int| 0 <= i < out.len() implies integrity_shaped(#[trigger] out[i]) by {
                assert(out.contains(out[i]));
                assert(out.to_multiset().count(out[i]) > 0);
                assert(all.contains(out[i]));
                let j = choose|j: int| 0 <= j < all.len() && all[j] == out[i];
                assert(integrity_shaped(all[j]));
            }
        }
        res
    }
}

} // verus!
