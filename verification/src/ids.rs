//! Stable ids from the manifest's shared counter: counter-allocated, never
//! reused, rendered `ent_00041` / `region_00003` / `flag_00012` — kind
//! prefix, underscore, five-digit zero-padded counter.

use vstd::prelude::*;

use crate::text::{
    all_digits, chars_equal, chars_of, decimal, digit_value, digits_value, parse_u64,
    parse_u64_chars, push_decimal, push_str, string_of, sub_chars, zero_pad,
    lemma_zero_pad_decimal,
};

verus! {

#[derive(Clone, Copy, PartialEq, Eq, PartialOrd, Ord, Hash, Debug, Structural)]
pub enum IdKind {
    Ent,
    Region,
    Flag,
    Warp,
}

/// The prefix a kind renders with.
pub open spec fn prefix_of(kind: IdKind) -> Seq<char> {
    match kind {
        IdKind::Ent => seq!['e', 'n', 't'],
        IdKind::Region => seq!['r', 'e', 'g', 'i', 'o', 'n'],
        IdKind::Flag => seq!['f', 'l', 'a', 'g'],
        IdKind::Warp => seq!['w', 'a', 'r', 'p'],
    }
}

/// The kind whose prefix is exactly `p`.
pub open spec fn kind_of_prefix(p: Seq<char>) -> Option<IdKind> {
    if p == prefix_of(IdKind::Ent) {
        Some(IdKind::Ent)
    } else if p == prefix_of(IdKind::Region) {
        Some(IdKind::Region)
    } else if p == prefix_of(IdKind::Flag) {
        Some(IdKind::Flag)
    } else if p == prefix_of(IdKind::Warp) {
        Some(IdKind::Warp)
    } else {
        None
    }
}

impl IdKind {
    pub fn prefix(&self) -> (res: &'static str)
        ensures
            res@ == prefix_of(*self),
    {
        match self {
            IdKind::Ent => {
                proof { reveal_strlit("ent"); }
                "ent"
            },
            IdKind::Region => {
                proof { reveal_strlit("region"); }
                "region"
            },
            IdKind::Flag => {
                proof { reveal_strlit("flag"); }
                "flag"
            },
            IdKind::Warp => {
                proof { reveal_strlit("warp"); }
                "warp"
            },
        }
    }
}

/// A stable id: the kind and the shared counter's number.
#[derive(Clone, Copy, PartialEq, Eq, PartialOrd, Ord, Hash, Debug, Structural)]
pub struct StableId {
    pub kind: IdKind,
    pub n: u64,
}

/// The string form of a stable id.
pub open spec fn render(id: StableId) -> Seq<char> {
    prefix_of(id.kind) + seq!['_'] + zero_pad(decimal(id.n as nat), 5)
}

/// The index of the last `'_'` in `s`.
pub open spec fn last_underscore(s: Seq<char>) -> Option<int>
    decreases s.len(),
{
    if s.len() == 0 {
        None
    } else if s.last() == '_' {
        Some(s.len() - 1)
    } else {
        last_underscore(s.drop_last())
    }
}

/// What the string form `s` parses to: split at the last `_`, the left part
/// names the kind, the right part is the number (`u64`'s decimal grammar).
pub open spec fn parse_stable_id(s: Seq<char>) -> Option<StableId> {
    match last_underscore(s) {
        None => None,
        Some(i) => match kind_of_prefix(s.subrange(0, i)) {
            None => None,
            Some(kind) => match parse_u64(s.subrange(i + 1, s.len() as int)) {
                None => None,
                Some(n) => Some(StableId { kind, n }),
            },
        },
    }
}

/// The error a malformed stable-id string yields; it carries the string.
#[derive(Clone, Debug, PartialEq)]
pub struct StableIdParseError(pub String);

impl StableIdParseError {
    /// The human-readable refusal text: `invalid stable id: <s>`.
    pub fn message(&self) -> (res: String)
        ensures
            res@ == seq!['i', 'n', 'v', 'a', 'l', 'i', 'd', ' ', 's', 't', 'a', 'b', 'l', 'e', ' ', 'i', 'd', ':', ' '] + self.0@,
    {
        let mut out: Vec<char> = Vec::new();
        push_str(&mut out, "invalid stable id: ");
        proof { reveal_strlit("invalid stable id: "); }
        push_str(&mut out, self.0.as_str());
        string_of(&out)
    }
}

pub proof fn lemma_last_underscore_after(a: Seq<char>, b: Seq<char>)
    requires
        forall|j: int| 0 <= j < b.len() ==> b[j] != '_',
    ensures
        last_underscore(a + seq!['_'] + b) == Some(a.len() as int),
    decreases b.len(),
{
    let s = a + seq!['_'] + b;
    if b.len() == 0 {
        assert(s.last() == '_');
    } else {
        assert(s.drop_last() =~= a + seq!['_'] + b.drop_last());
        assert(s.last() == b.last());
        lemma_last_underscore_after(a, b.drop_last());
    }
}

pub proof fn lemma_last_underscore_is_last(s: Seq<char>)
    ensures
        match last_underscore(s) {
            Some(i) => 0 <= i < s.len() && s[i] == '_' && forall|j: int| i < j < s.len() ==> s[j] != '_',
            None => forall|j: int| 0 <= j < s.len() ==> s[j] != '_',
        },
    decreases s.len(),
{
    if s.len() > 0 && s.last() != '_' {
        lemma_last_underscore_is_last(s.drop_last());
        assert forall|j: int| 0 <= j < s.len() - 1 implies s.drop_last()[j] == s[j] by {}
    }
}

/// The string form parses back to the id it renders: `parse(render(id)) == id`.
pub proof fn law_stable_id_round_trip(id: StableId)
    ensures
        parse_stable_id(render(id)) == Some(id),
{
    let p = prefix_of(id.kind);
    let d = zero_pad(decimal(id.n as nat), 5);
    lemma_zero_pad_decimal(id.n as nat, 5);
    assert forall|j: int| 0 <= j < d.len() implies d[j] != '_' by {
        assert(digit_value(d[j]) is Some);
    }
    lemma_last_underscore_after(p, d);
    let s = render(id);
    assert(s.subrange(0, p.len() as int) =~= p);
    assert(s.subrange(p.len() as int + 1, s.len() as int) =~= d);
    assert(kind_of_prefix(p) == Some(id.kind));
    assert(digit_value(d[0]) is Some);
    assert(!(d.len() > 1 && d[0] == '+'));
}

impl StableId {
    pub fn new(kind: IdKind, n: u64) -> (res: Self)
        ensures
            res == (StableId { kind, n }),
    {
        StableId { kind, n }
    }

    /// The string form: `<prefix>_<n, zero-padded to five digits>`.
    pub fn to_string(&self) -> (res: String)
        ensures
            res@ == render(*self),
    {
        let mut out: Vec<char> = Vec::new();
        push_str(&mut out, self.kind.prefix());
        out.push('_');
        push_decimal(&mut out, self.n, 5);
        string_of(&out)
    }

    /// Parses the string form; the inverse of [`StableId::to_string`].
    pub fn try_from(s: String) -> (res: Result<StableId, StableIdParseError>)
        ensures
            match res {
                Ok(id) => parse_stable_id(s@) == Some(id),
                Err(e) => parse_stable_id(s@) is None && e.0@ == s@,
            },
    {
        let chars = chars_of(s.as_str());
        let ghost cs = chars@;
        // rsplit_once('_'): the last underscore.
        let mut i: usize = chars.len();
        while i > 0
            invariant
                i <= chars.len(),
                cs == chars@,
                forall|j: int| i <= j < chars.len() ==> cs[j] != '_',
            ensures
                i <= chars.len(),
                cs == chars@,
                forall|j: int| i <= j < chars.len() ==> cs[j] != '_',
                i == 0 || cs[i - 1] == '_',
            decreases i,
        {
            if chars[i - 1] == '_' {
                break;
            }
            i = i - 1;
        }
        proof {
            lemma_last_underscore_is_last(cs);
        }
        if i == 0 {
            proof {
                match last_underscore(cs) {
                    Some(k) => { assert(cs[k] == '_'); }
                    None => {}
                }
            }
            return Err(StableIdParseError(s));
        }
        let at = i - 1;
        proof {
            match last_underscore(cs) {
                Some(k) => {
                    assert(cs[at as int] == '_');
                    if k < at { assert(false); }
                    if k > at { assert(cs[k] != '_'); }
                }
                None => { assert(cs[at as int] == '_'); }
            }
            assert(last_underscore(cs) == Some(at as int));
        }
        let prefix = sub_chars(&chars, 0, at);
        let kind = if chars_equal(&prefix, &chars_of(IdKind::Ent.prefix())) {
            IdKind::Ent
        } else if chars_equal(&prefix, &chars_of(IdKind::Region.prefix())) {
            IdKind::Region
        } else if chars_equal(&prefix, &chars_of(IdKind::Flag.prefix())) {
            IdKind::Flag
        } else if chars_equal(&prefix, &chars_of(IdKind::Warp.prefix())) {
            IdKind::Warp
        } else {
            return Err(StableIdParseError(s));
        };
        match parse_u64_chars(&chars, at + 1) {
            Some(n) => Ok(StableId { kind, n }),
            None => Err(StableIdParseError(s)),
        }
    }
}

/// Reads and advances the manifest's shared counter. The number space is
/// shared across all kinds, so an id is never reused even when kinds
/// interleave.
pub struct IdAllocator {
    counter: u64,
}

impl View for IdAllocator {
    type V = u64;

    /// The last number handed out (the counter's current value).
    closed spec fn view(&self) -> u64 {
        self.counter
    }
}

impl IdAllocator {
    pub fn new(start: u64) -> (res: Self)
        ensures
            res@ == start,
    {
        IdAllocator { counter: start }
    }

    /// The counter's current value: the last number handed out.
    pub fn current(&self) -> (res: u64)
        ensures
            res == self@,
    {
        self.counter
    }

    /// The next id of `kind`: the counter advances by one and names it.
    pub fn next(&mut self, kind: IdKind) -> (id: StableId)
        requires
            old(self)@ < u64::MAX,
        ensures
            final(self)@ == old(self)@ + 1,
            id == (StableId { kind, n: final(self)@ }),
    {
        self.counter = self.counter + 1;
        StableId::new(kind, self.counter)
    }
}

/// `counters[i]` is the allocator before call `i` of a run of `next` calls
/// from `start`, and `ids[i]` what that call returned for `kinds[i]`.
pub open spec fn allocation_run(start: u64, kinds: Seq<IdKind>, counters: Seq<u64>, ids: Seq<StableId>) -> bool {
    &&& counters.len() == kinds.len() + 1
    &&& ids.len() == kinds.len()
    &&& counters[0] == start
    &&& forall|i: int| 0 <= i < kinds.len() ==> {
        &&& #[trigger] counters[i + 1] == counters[i] + 1
        &&& ids[i] == (StableId { kind: kinds[i], n: counters[i + 1] })
    }
}

proof fn lemma_run_counter(start: u64, kinds: Seq<IdKind>, counters: Seq<u64>, ids: Seq<StableId>, i: int)
    requires
        allocation_run(start, kinds, counters, ids),
        0 <= i <= kinds.len(),
    ensures
        counters[i] == start + i,
    decreases i,
{
    if i > 0 {
        lemma_run_counter(start, kinds, counters, ids, i - 1);
        assert(counters[(i - 1) + 1] == counters[i - 1] + 1);
    }
}

/// Successive calls of `next` from `start` hand out `start + 1`,
/// `start + 2`, … in order, whatever the kinds: the numbers are
/// consecutive, and no two ids of one run share a number, even across kinds.
pub proof fn law_allocations_consecutive(start: u64, kinds: Seq<IdKind>, counters: Seq<u64>, ids: Seq<StableId>)
    requires
        allocation_run(start, kinds, counters, ids),
    ensures
        forall|i: int| 0 <= i < ids.len() ==> (#[trigger] ids[i]) == (StableId { kind: kinds[i], n: (start + i + 1) as u64 }),
        forall|i: int, j: int| 0 <= i < j < ids.len() ==> (#[trigger] ids[i]).n != (#[trigger] ids[j]).n,
{
    assert forall|i: int| 0 <= i < ids.len() implies (#[trigger] ids[i]) == (StableId { kind: kinds[i], n: (start + i + 1) as u64 }) by {
        lemma_run_counter(start, kinds, counters, ids, i + 1);
        assert(counters[i + 1] == counters[i] + 1);
    }
    assert forall|i: int, j: int| 0 <= i < j < ids.len() implies (#[trigger] ids[i]).n != (#[trigger] ids[j]).n by {
        lemma_run_counter(start, kinds, counters, ids, i + 1);
        lemma_run_counter(start, kinds, counters, ids, j + 1);
        assert(counters[i + 1] == counters[i] + 1);
        assert(counters[j + 1] == counters[j] + 1);
    }
}

} // verus!
