//! The path and pointer grammar the reference-integrity check reads: which
//! files declare an object, how a JSON pointer addresses a field, and which
//! kind a `<kind>_stable_id` field expects.

use vstd::prelude::*;

use crate::ids::{kind_of_prefix, prefix_of, IdKind};
use crate::ir::RelPath;
use crate::text::{chars_equal, chars_of, push_str, string_of, sub_chars};

verus! {

/// `s` split at every `c`: `"a/b/"` is `["a", "b", ""]`; `""` is `[""]`.
pub open spec fn split_on(s: Seq<char>, c: char) -> Seq<Seq<char>>
    decreases s.len(),
{
    if s.len() == 0 {
        seq![Seq::empty()]
    } else if s.last() == c {
        split_on(s.drop_last(), c).push(Seq::empty())
    } else {
        let r = split_on(s.drop_last(), c);
        r.update(r.len() - 1, r.last().push(s.last()))
    }
}

pub proof fn lemma_split_nonempty(s: Seq<char>, c: char)
    ensures
        split_on(s, c).len() >= 1,
    decreases s.len(),
{
    if s.len() > 0 {
        lemma_split_nonempty(s.drop_last(), c);
    }
}

/// Text without `c` is one piece.
pub proof fn lemma_split_single(s: Seq<char>, c: char)
    requires
        !s.contains(c),
    ensures
        split_on(s, c) == seq![s],
    decreases s.len(),
{
    if s.len() > 0 {
        assert(!s.drop_last().contains(c)) by {
            if s.drop_last().contains(c) {
                let k = choose|k: int| 0 <= k < s.drop_last().len() && s.drop_last()[k] == c;
                assert(s[k] == c);
            }
        }
        assert(s[s.len() - 1] == s.last());
        lemma_split_single(s.drop_last(), c);
        assert(s.drop_last().push(s.last()) =~= s);
        assert(split_on(s, c) =~= seq![s]);
    } else {
        assert(s =~= Seq::<char>::empty());
    }
}

/// Splitting at a separator splits the two sides apart.
pub proof fn lemma_split_join(a: Seq<char>, b: Seq<char>, c: char)
    ensures
        split_on(a.push(c) + b, c) == split_on(a, c) + split_on(b, c),
    decreases b.len(),
{
    let s = a.push(c) + b;
    if b.len() == 0 {
        assert(s =~= a.push(c));
        assert(s.drop_last() =~= a);
        assert(split_on(b, c) =~= seq![Seq::<char>::empty()]);
        assert(split_on(s, c) =~= split_on(a, c) + split_on(b, c));
    } else {
        let b2 = b.drop_last();
        lemma_split_join(a, b2, c);
        lemma_split_nonempty(b2, c);
        assert(s.drop_last() =~= a.push(c) + b2);
        assert(s.last() == b.last());
        assert(split_on(s, c) =~= split_on(a, c) + split_on(b, c));
    }
}

/// The pieces of `v` between occurrences of `c`.
pub fn split_chars(v: &Vec<char>, c: char) -> (res: Vec<Vec<char>>)
    ensures
        res@.len() == split_on(v@, c).len(),
        forall|i: int| 0 <= i < res@.len() ==> #[trigger] res@[i]@ == split_on(v@, c)[i],
{
    let mut segs: Vec<Vec<char>> = Vec::new();
    let mut cur: Vec<char> = Vec::new();
    let mut i: usize = 0;
    while i < v.len()
        invariant
            i <= v@.len(),
            split_on(v@.subrange(0, i as int), c).len() == segs@.len() + 1,
            forall|k: int| 0 <= k < segs@.len() ==> #[trigger] segs@[k]@ == split_on(v@.subrange(0, i as int), c)[k],
            cur@ == split_on(v@.subrange(0, i as int), c).last(),
        decreases v@.len() - i,
    {
        let ghost pre = v@.subrange(0, i as int);
        let ghost post = v@.subrange(0, i + 1);
        assert(post.drop_last() =~= pre);
        assert(post.last() == v@[i as int]);
        proof { lemma_split_nonempty(pre, c); }
        if v[i] == c {
            let mut fresh: Vec<char> = Vec::new();
            std::mem::swap(&mut fresh, &mut cur);
            segs.push(fresh);
            assert(cur@ =~= Seq::<char>::empty());
        } else {
            cur.push(v[i]);
        }
        i = i + 1;
        proof {
            assert forall|k: int| 0 <= k < segs@.len() implies #[trigger] segs@[k]@ == split_on(post, c)[k] by {}
        }
    }
    segs.push(cur);
    assert(v@.subrange(0, v@.len() as int) =~= v@);
    segs
}

/// `s` without the suffix `t`, when it ends with it.
pub open spec fn strip_suffix(s: Seq<char>, t: Seq<char>) -> Option<Seq<char>> {
    if s.len() >= t.len() && s.subrange(s.len() - t.len(), s.len() as int) == t {
        Some(s.subrange(0, s.len() - t.len()))
    } else {
        None
    }
}

pub(crate) fn strip_suffix_chars(s: &Vec<char>, t: &str) -> (res: Option<Vec<char>>)
    ensures
        match res {
            Some(r) => strip_suffix(s@, t@) == Some(r@),
            None => strip_suffix(s@, t@) is None,
        },
{
    let tc = chars_of(t);
    if s.len() < tc.len() {
        return None;
    }
    let tail = sub_chars(s, s.len() - tc.len(), s.len());
    if chars_equal(&tail, &tc) {
        Some(sub_chars(s, 0, s.len() - tc.len()))
    } else {
        None
    }
}

/// The `(path stable id, handle kind)` a file declares:
/// `regions/<sid>/region.json` declares `(<sid>, region)`;
/// `entities/<kind>/<sid>.json` declares `(<sid>, <kind>)`; any other file
/// declares no object.
pub open spec fn object_of_path(path: Seq<char>) -> Option<(Seq<char>, Seq<char>)> {
    let segs = split_on(path, '/');
    if segs.len() == 3 && segs[0] == "regions"@ && segs[2] == "region.json"@ {
        Some((segs[1], "region"@))
    } else if segs.len() == 3 && segs[0] == "entities"@ {
        match strip_suffix(segs[2], ".json"@) {
            Some(sid) => Some((sid, segs[1])),
            None => None,
        }
    } else {
        None
    }
}

/// The object a file declares, if it is an addressable object file.
pub fn object_file(path: &RelPath) -> (res: Option<(String, String)>)
    ensures
        match res {
            Some((sid, kind)) => object_of_path(path@) == Some((sid@, kind@)),
            None => object_of_path(path@) is None,
        },
{
    let segs = split_chars(&path.chars(), '/');
    if segs.len() != 3 {
        return None;
    }
    if chars_equal(&segs[0], &chars_of("regions")) && chars_equal(&segs[2], &chars_of("region.json")) {
        let kind = chars_of("region");
        return Some((string_of(&segs[1]), string_of(&kind)));
    }
    if chars_equal(&segs[0], &chars_of("entities")) {
        match strip_suffix_chars(&segs[2], ".json") {
            Some(sid) => {
                return Some((string_of(&sid), string_of(&segs[1])));
            },
            None => {
                return None;
            },
        }
    }
    None
}

/// `/warps/<n>/stable_id` — the inline declaration of a warp object.
pub open spec fn is_warp_pointer(pointer: Seq<char>) -> bool {
    let segs = split_on(pointer, '/');
    segs.len() == 4 && segs[1] == "warps"@ && segs[3] == "stable_id"@
}

pub fn is_warp_declaration(pointer: &str) -> (res: bool)
    ensures
        res == is_warp_pointer(pointer@),
{
    let segs = split_chars(&chars_of(pointer), '/');
    segs.len() == 4 && chars_equal(&segs[1], &chars_of("warps")) && chars_equal(&segs[3], &chars_of("stable_id"))
}

/// RFC 6901 escaping of one object key: `~` becomes `~0`, `/` becomes `~1`.
pub open spec fn escape_key(key: Seq<char>) -> Seq<char>
    decreases key.len(),
{
    if key.len() == 0 {
        Seq::empty()
    } else {
        escape_key(key.drop_last()) + if key.last() == '~' {
            seq!['~', '0']
        } else if key.last() == '/' {
            seq!['~', '1']
        } else {
            seq![key.last()]
        }
    }
}

/// RFC 6901 escaping for object keys inside a pointer.
pub fn escape_pointer(key: &str) -> (res: String)
    ensures
        res@ == escape_key(key@),
{
    let k = chars_of(key);
    let mut out: Vec<char> = Vec::new();
    let mut i: usize = 0;
    while i < k.len()
        invariant
            i <= k@.len(),
            k@ == key@,
            out@ == escape_key(k@.subrange(0, i as int)),
        decreases k@.len() - i,
    {
        let ghost pre = k@.subrange(0, i as int);
        let ghost post = k@.subrange(0, i + 1);
        assert(post.drop_last() =~= pre);
        let ch = k[i];
        if ch == '~' {
            out.push('~');
            out.push('0');
        } else if ch == '/' {
            out.push('~');
            out.push('1');
        } else {
            out.push(ch);
        }
        i = i + 1;
        assert(out@ =~= escape_key(post));
    }
    assert(k@.subrange(0, k@.len() as int) =~= k@);
    string_of(&out)
}

/// The kind a `<kind>_stable_id` field expects, when `<kind>` is a known id
/// kind prefix; `None` for a bare `stable_id` and unknown prefixes.
pub open spec fn field_expected_prefix(field: Seq<char>) -> Option<Seq<char>> {
    match strip_suffix(field, "_stable_id"@) {
        Some(p) => match kind_of_prefix(p) {
            Some(k) => Some(prefix_of(k)),
            None => None,
        },
        None => None,
    }
}

pub fn expected_prefix(field: &str) -> (res: Option<&'static str>)
    ensures
        match res {
            Some(p) => field_expected_prefix(field@) == Some(p@),
            None => field_expected_prefix(field@) is None,
        },
{
    let f = chars_of(field);
    match strip_suffix_chars(&f, "_stable_id") {
        None => None,
        Some(p) => {
            if chars_equal(&p, &chars_of(IdKind::Ent.prefix())) {
                Some(IdKind::Ent.prefix())
            } else if chars_equal(&p, &chars_of(IdKind::Region.prefix())) {
                Some(IdKind::Region.prefix())
            } else if chars_equal(&p, &chars_of(IdKind::Flag.prefix())) {
                Some(IdKind::Flag.prefix())
            } else if chars_equal(&p, &chars_of(IdKind::Warp.prefix())) {
                Some(IdKind::Warp.prefix())
            } else {
                None
            }
        },
    }
}

/// The index of the first `'_'` in `s`.
pub open spec fn first_underscore(s: Seq<char>) -> Option<int>
    decreases s.len(),
{
    if s.len() == 0 {
        None
    } else {
        match first_underscore(s.drop_last()) {
            Some(i) => Some(i),
            None => if s.last() == '_' { Some(s.len() - 1) } else { None },
        }
    }
}

/// The kind prefix of a stable id's string form: everything before its
/// first `_` (`ent_00002` → `ent`).
pub open spec fn id_prefix_of(s: Seq<char>) -> Option<Seq<char>> {
    match first_underscore(s) {
        Some(i) => Some(s.subrange(0, i)),
        None => None,
    }
}

proof fn lemma_first_underscore(s: Seq<char>)
    ensures
        match first_underscore(s) {
            Some(i) => 0 <= i < s.len() && s[i] == '_' && forall|j: int| 0 <= j < i ==> s[j] != '_',
            None => forall|j: int| 0 <= j < s.len() ==> s[j] != '_',
        },
    decreases s.len(),
{
    if s.len() > 0 {
        lemma_first_underscore(s.drop_last());
        assert forall|j: int| 0 <= j < s.len() - 1 implies s.drop_last()[j] == s[j] by {}
    }
}

pub fn id_prefix(stable_id: &str) -> (res: Option<String>)
    ensures
        match res {
            Some(p) => id_prefix_of(stable_id@) == Some(p@),
            None => id_prefix_of(stable_id@) is None,
        },
{
    let s = chars_of(stable_id);
    proof { lemma_first_underscore(s@); }
    let mut i: usize = 0;
    while i < s.len()
        invariant
            i <= s@.len(),
            s@ == stable_id@,
            forall|j: int| 0 <= j < i ==> s@[j] != '_',
        decreases s@.len() - i,
    {
        if s[i] == '_' {
            proof {
                lemma_first_underscore(s@);
                match first_underscore(s@) {
                    Some(k) => {
                        if k < i { assert(s@[k] == '_'); }
                        if k > i { assert(s@[i as int] != '_'); }
                    },
                    None => { assert(s@[i as int] == '_'); },
                }
            }
            return Some(string_of(&sub_chars(&s, 0, i)));
        }
        i = i + 1;
    }
    proof {
        match first_underscore(s@) {
            Some(k) => { assert(s@[k] == '_'); },
            None => {},
        }
    }
    None
}

} // verus!
