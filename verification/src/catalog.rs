//! The operation catalog: every registered operation's id, version, the
//! capability it declares, its mutability and its summary, in id order, and
//! the lookups the engine's capability gate and the CLI make on it.

use vstd::prelude::*;

use crate::capability::Capability;
use crate::op::{Mutability, OpMeta};
use crate::text::{chars_equal, chars_of, string_of};

verus! {

/// The fixture operations, which prove the engine lifecycle in tests.
pub open spec fn fixture_spec() -> Seq<(Seq<char>, u32, Capability, Mutability)> {
    seq![
        ("fixture.forbidden"@, 1u32, Capability::NetworkCall, Mutability::Write),
        ("fixture.get_note"@, 1u32, Capability::ProjectRead, Mutability::Read),
        ("fixture.put_note"@, 1u32, Capability::ProjectWrite, Mutability::Write),
    ]
}

/// The catalog as values: id, version, capability, mutability; the fixture
/// operations first when they are registered.
pub open spec fn catalog_spec(with_fixtures: bool) -> Seq<(Seq<char>, u32, Capability, Mutability)> {
    if with_fixtures { fixture_spec() + rpg_spec() } else { rpg_spec() }
}

/// The RPG module's seven operations: six writes and one read.
pub open spec fn rpg_spec() -> Seq<(Seq<char>, u32, Capability, Mutability)> {
    seq![
        ("rpg.create_region"@, 1u32, Capability::ProjectWrite, Mutability::Write),
        ("rpg.mark_warp"@, 1u32, Capability::ProjectWrite, Mutability::Write),
        ("rpg.paint_area"@, 1u32, Capability::ProjectWrite, Mutability::Write),
        ("rpg.paint_path"@, 1u32, Capability::ProjectWrite, Mutability::Write),
        ("rpg.place_npc"@, 1u32, Capability::ProjectWrite, Mutability::Write),
        ("rpg.query_region"@, 1u32, Capability::ProjectRead, Mutability::Read),
        ("rpg.set_collision"@, 1u32, Capability::ProjectWrite, Mutability::Write),
    ]
}

pub open spec fn meta_view(m: OpMeta) -> (Seq<char>, u32, Capability, Mutability) {
    (m.id@, m.version, m.capability, m.mutability)
}

fn entry(id: &str, version: u32, capability: Capability, mutability: Mutability, summary: &str) -> (res: OpMeta)
    ensures
        meta_view(res) == (id@, version, capability, mutability),
        res.summary@ == summary@,
{
    OpMeta { id: string_of(&chars_of(id)), version, capability, mutability, summary: string_of(&chars_of(summary)) }
}

/// Every registered operation, write and read, in id order; the fixture
/// operations only when `with_fixtures`.
pub fn catalog(with_fixtures: bool) -> (res: Vec<OpMeta>)
    ensures
        Seq::new(res@.len(), |i: int| meta_view(res@[i])) == catalog_spec(with_fixtures),
{
    let mut out: Vec<OpMeta> = Vec::new();
    if with_fixtures {
        out.push(entry("fixture.forbidden", 1, Capability::NetworkCall, Mutability::Write, "denied-capability probe (test fixture)"));
        out.push(entry("fixture.get_note", 1, Capability::ProjectRead, Mutability::Read, "read a note entity (test fixture)"));
        out.push(entry("fixture.put_note", 1, Capability::ProjectWrite, Mutability::Write, "write a note entity (test fixture)"));
    }
    let ghost head = Seq::new(out@.len(), |i: int| meta_view(out@[i]));
    assert(head =~= if with_fixtures { fixture_spec() } else { Seq::empty() });
    let rpg = vec![
        entry(
            "rpg.create_region",
            1,
            Capability::ProjectWrite,
            Mutability::Write,
            "create a region: region.json plus terrain and collision layers",
        ),
        entry(
            "rpg.mark_warp",
            1,
            Capability::ProjectWrite,
            Mutability::Write,
            "mark a warp tile on a region pointing at a destination region",
        ),
        entry(
            "rpg.paint_area",
            1,
            Capability::ProjectWrite,
            Mutability::Write,
            "paint a rectangle of one terrain kind inside a region",
        ),
        entry(
            "rpg.paint_path",
            1,
            Capability::ProjectWrite,
            Mutability::Write,
            "paint an L-shaped path of one terrain kind between two points",
        ),
        entry("rpg.place_npc", 1, Capability::ProjectWrite, Mutability::Write, "create an npc entity and place it on a region tile"),
        entry("rpg.query_region", 1, Capability::ProjectRead, Mutability::Read, "read a region's text map, placements and warps"),
        entry(
            "rpg.set_collision",
            1,
            Capability::ProjectWrite,
            Mutability::Write,
            "set explicit collision overrides on a rectangle (survives later paints)",
        ),
    ];
    assert(Seq::new(rpg@.len(), |i: int| meta_view(rpg@[i])) =~= rpg_spec());
    let mut rest = rpg;
    let ghost start = out@;
    let mut i: usize = 0;
    let n = rest.len();
    while rest.len() > 0
        invariant
            i + rest@.len() == n,
            n == rpg_spec().len(),
            start.len() == head.len(),
            head == Seq::new(start.len(), |k: int| meta_view(start[k])),
            out@.len() == start.len() + i,
            forall|k: int| 0 <= k < start.len() ==> out@[k] == start[k],
            forall|k: int| 0 <= k < i ==> meta_view(#[trigger] out@[start.len() + k]) == rpg_spec()[k],
            forall|k: int| 0 <= k < rest@.len() ==> meta_view(#[trigger] rest@[k]) == rpg_spec()[i + k],
        decreases rest@.len(),
    {
        let ghost before = rest@;
        let e = rest.remove(0);
        assert(meta_view(e) == rpg_spec()[i as int]);
        assert forall|k: int| 0 <= k < rest@.len() implies meta_view(#[trigger] rest@[k]) == rpg_spec()[i + 1 + k] by {
            assert(rest@[k] == before[k + 1]);
        }
        out.push(e);
        i = i + 1;
    }
    let ghost all = Seq::new(out@.len(), |k: int| meta_view(out@[k]));
    let ghost expected = catalog_spec(with_fixtures);
    assert(expected =~= head + rpg_spec());
    assert forall|k: int| 0 <= k < all.len() implies all[k] == expected[k] by {
        if k < start.len() {
            assert(out@[k] == start[k]);
            assert(head[k] == meta_view(start[k]));
        } else {
            assert(meta_view(out@[start.len() + (k - start.len())]) == rpg_spec()[k - start.len()]);
        }
    }
    assert(all =~= expected);
    out
}

/// The capability the first catalog entry for `(id, version)` declares.
pub open spec fn lookup_capability(s: Seq<(Seq<char>, u32, Capability, Mutability)>, id: Seq<char>, version: u32) -> Option<
    Capability,
>
    decreases s.len(),
{
    if s.len() == 0 {
        None
    } else if s[0].0 == id && s[0].1 == version {
        Some(s[0].2)
    } else {
        lookup_capability(s.drop_first(), id, version)
    }
}

/// The capability the catalog declares for `(id, version)`, if the operation
/// is registered.
pub open spec fn capability_spec(id: Seq<char>, version: u32, with_fixtures: bool) -> Option<Capability> {
    lookup_capability(catalog_spec(with_fixtures), id, version)
}

/// The capability the catalog declares for `(id, version)`.
pub fn capability_of(id: &str, version: u32, with_fixtures: bool) -> (res: Option<Capability>)
    ensures
        res == capability_spec(id@, version, with_fixtures),
{
    let all = catalog(with_fixtures);
    let ghost c = catalog_spec(with_fixtures);
    let mut i: usize = 0;
    assert(c.skip(0) =~= c);
    while i < all.len()
        invariant
            i <= all@.len(),
            Seq::new(all@.len(), |k: int| meta_view(all@[k])) == c,
            c == catalog_spec(with_fixtures),
            lookup_capability(c, id@, version) == lookup_capability(c.skip(i as int), id@, version),
        decreases all@.len() - i,
    {
        assert(meta_view(all@[i as int]) == c[i as int]);
        assert(c.skip(i as int)[0] == c[i as int]);
        assert(c.skip(i as int).drop_first() =~= c.skip(i + 1));
        if chars_equal(&chars_of(all[i].id.as_str()), &chars_of(id)) && all[i].version == version {
            return Some(all[i].capability);
        }
        i = i + 1;
    }
    assert(c.skip(i as int).len() == 0);
    None
}

/// The version of the first catalog entry for `id`: every operation is
/// registered at one version.
pub open spec fn lookup_version(s: Seq<(Seq<char>, u32, Capability, Mutability)>, id: Seq<char>) -> Option<u32>
    decreases s.len(),
{
    if s.len() == 0 {
        None
    } else if s[0].0 == id {
        Some(s[0].1)
    } else {
        lookup_version(s.drop_first(), id)
    }
}

pub open spec fn latest_spec(id: Seq<char>, with_fixtures: bool) -> Option<u32> {
    lookup_version(catalog_spec(with_fixtures), id)
}

/// The latest registered version of operation `id`.
pub fn latest_version(id: &str, with_fixtures: bool) -> (res: Option<u32>)
    ensures
        res == latest_spec(id@, with_fixtures),
{
    let all = catalog(with_fixtures);
    let ghost c = catalog_spec(with_fixtures);
    let mut i: usize = 0;
    assert(c.skip(0) =~= c);
    while i < all.len()
        invariant
            i <= all@.len(),
            Seq::new(all@.len(), |k: int| meta_view(all@[k])) == c,
            c == catalog_spec(with_fixtures),
            lookup_version(c, id@) == lookup_version(c.skip(i as int), id@),
        decreases all@.len() - i,
    {
        assert(meta_view(all@[i as int]) == c[i as int]);
        assert(c.skip(i as int)[0] == c[i as int]);
        assert(c.skip(i as int).drop_first() =~= c.skip(i + 1));
        if chars_equal(&chars_of(all[i].id.as_str()), &chars_of(id)) {
            return Some(all[i].version);
        }
        i = i + 1;
    }
    assert(c.skip(i as int).len() == 0);
    None
}

} // verus!
