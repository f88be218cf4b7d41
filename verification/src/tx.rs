//! The transaction: staged writes, inverse data, id allocations. Writes
//! stage against a snapshot of the loaded project; every first write to a
//! path records that path's before-image as inverse data (null for a
//! creation), which rollback restores. Nothing touches disk until commit.

use vstd::prelude::*;

use crate::ids::{IdAllocator, IdKind, StableId};
use crate::ir::RelPath;
use crate::json::{
    Json, JsonView, insert_member, keys_sorted, lemma_lookup_at, lemma_view_members_len, lookup,
    view_members,
};
use crate::json::compare_keys;
use crate::json::KeyOrder;
use crate::op::FileChange;

verus! {

pub open spec fn opt_view(o: Option<Json>) -> Option<JsonView> {
    match o {
        Some(v) => Some(v@),
        None => None,
    }
}

/// A staged change as values: path, before-image, after-image.
pub open spec fn change_view(c: FileChange) -> (Seq<char>, Option<JsonView>, Option<JsonView>) {
    (c.path@, opt_view(c.before), opt_view(c.after))
}

pub open spec fn changes_view(s: Seq<FileChange>) -> Seq<(Seq<char>, Option<JsonView>, Option<JsonView>)> {
    Seq::new(s.len(), |i: int| change_view(s[i]))
}

/// No path is staged twice.
pub open spec fn paths_unique(cs: Seq<(Seq<char>, Option<JsonView>, Option<JsonView>)>) -> bool {
    forall|i: int, j: int| 0 <= i < j < cs.len() ==> (#[trigger] cs[i]).0 != (#[trigger] cs[j]).0
}

/// The staged after-image of `p`, if this transaction touched `p`.
pub open spec fn staged_after(
    cs: Seq<(Seq<char>, Option<JsonView>, Option<JsonView>)>,
    p: Seq<char>,
) -> Option<Option<JsonView>> {
    if exists|i: int| 0 <= i < cs.len() && #[trigger] cs[i].0 == p {
        Some(cs[choose|i: int| 0 <= i < cs.len() && #[trigger] cs[i].0 == p].2)
    } else {
        None
    }
}

pub open spec fn touched(cs: Seq<(Seq<char>, Option<JsonView>, Option<JsonView>)>, p: Seq<char>) -> bool {
    exists|i: int| 0 <= i < cs.len() && #[trigger] cs[i].0 == p
}

/// What rollback restores for a touched path: its before-image, `null`
/// when the transaction created it.
pub open spec fn before_or_null(before: Option<JsonView>) -> JsonView {
    match before {
        Some(v) => v,
        None => JsonView::Null,
    }
}

pub proof fn lemma_staged_at(cs: Seq<(Seq<char>, Option<JsonView>, Option<JsonView>)>, i: int)
    requires
        paths_unique(cs),
        0 <= i < cs.len(),
    ensures
        staged_after(cs, cs[i].0) == Some(cs[i].2),
        touched(cs, cs[i].0),
{
    let p = cs[i].0;
    assert(exists|j: int| 0 <= j < cs.len() && #[trigger] cs[j].0 == p);
    let j = choose|j: int| 0 <= j < cs.len() && #[trigger] cs[j].0 == p;
    if j < i {
        assert(cs[j].0 != cs[i].0);
    } else if j > i {
        assert(cs[i].0 != cs[j].0);
    }
}

/// An in-memory transaction over a project's files.
pub struct Transaction {
    files: Vec<(String, Json)>,
    staged: Vec<FileChange>,
    inverse: Vec<(String, Json)>,
    allocator: IdAllocator,
}

impl Transaction {
    /// The loaded project's files, in path order.
    pub closed spec fn snapshot(self) -> Seq<(Seq<char>, JsonView)> {
        view_members(self.files@)
    }

    /// The staged changes, in first-touch order.
    pub closed spec fn changes(self) -> Seq<(Seq<char>, Option<JsonView>, Option<JsonView>)> {
        changes_view(self.staged@)
    }

    /// The inverse data: each touched path with its before-image.
    pub closed spec fn inverse_members(self) -> Seq<(Seq<char>, JsonView)> {
        view_members(self.inverse@)
    }

    /// The last stable-id number handed out.
    pub closed spec fn counter(self) -> u64 {
        self.allocator@
    }

    /// The staged-over-project view of `p`.
    pub open spec fn read_view(self, p: Seq<char>) -> Option<JsonView> {
        match staged_after(self.changes(), p) {
            Some(after) => after,
            None => lookup(self.snapshot(), p),
        }
    }

    /// The transaction's invariant: files and inverse data in path order, no
    /// path staged twice, each change's before-image the snapshot's value,
    /// and the inverse data holding exactly the touched paths with their
    /// before-images.
    pub closed spec fn wf(self) -> bool {
        &&& keys_sorted(self.snapshot())
        &&& keys_sorted(self.inverse_members())
        &&& paths_unique(self.changes())
        &&& forall|i: int| 0 <= i < self.changes().len() ==> (#[trigger] self.changes()[i]).1 == lookup(self.snapshot(), self.changes()[i].0)
        &&& forall|p: Seq<char>| #[trigger] lookup(self.inverse_members(), p) == (if touched(self.changes(), p) {
            Some(before_or_null(lookup(self.snapshot(), p)))
        } else {
            None
        })
    }

    /// A transaction over the given files (a later entry for a path
    /// replaces an earlier one), with the id counter at
    /// `stable_id_counter`. Nothing is staged.
    pub fn new(files: Vec<(RelPath, Json)>, stable_id_counter: u64) -> (res: Transaction)
        ensures
            res.wf(),
            res.changes().len() == 0,
            res.counter() == stable_id_counter,
            forall|p: Seq<char>| #[trigger] res.read_view(p) == crate::json::assigned(
                Seq::new(files@.len(), |i: int| (files@[i].0@, files@[i].1@)),
                p,
            ),
    {
        let mut settings: Vec<(String, Json)> = Vec::new();
        let mut rest = files;
        let ghost all = Seq::new(rest@.len(), |i: int| (rest@[i].0@, rest@[i].1@));
        let total = rest.len();
        let mut done: usize = 0;
        while rest.len() > 0
            invariant
                done + rest@.len() == total,
                total == all.len(),
                settings@.len() == done,
                forall|j: int| 0 <= j < rest@.len() ==> (#[trigger] rest@[j]).0@ == all[done + j].0 && rest@[j].1@ == all[done + j].1,
                forall|j: int| 0 <= j < done ==> (#[trigger] settings@[j]).0@ == all[j].0 && settings@[j].1@ == all[j].1,
            decreases rest@.len(),
        {
            let ghost before = rest@;
            let (path, value) = rest.remove(0);
            assert(rest@ =~= before.subrange(1, before.len() as int));
            settings.push((path.as_str().to_string(), value));
            done = done + 1;
        }
        proof {
            lemma_view_members_len(settings@);
            assert(view_members(settings@) =~= all);
        }
        let object = Json::object(settings);
        let members = match object {
            Json::Object(m) => m,
            _ => Vec::new(),
        };
        let res = Transaction {
            files: members,
            staged: Vec::new(),
            inverse: Vec::new(),
            allocator: IdAllocator::new(stable_id_counter),
        };
        proof {
            assert(res.changes() =~= Seq::<(Seq<char>, Option<JsonView>, Option<JsonView>)>::empty());
            assert(res.inverse_members() =~= Seq::<(Seq<char>, JsonView)>::empty());
            assert forall|p: Seq<char>| #[trigger] res.read_view(p) == crate::json::assigned(all, p) by {
                assert(!touched(res.changes(), p));
                assert(staged_after(res.changes(), p) is None);
            }
        }
        res
    }
}


/// Two unique-path change lists that hold the same changes for `q` give
/// the same staged after-image for `q`; `f` and `g` match them up.
proof fn lemma_staged_via(
    a: Seq<(Seq<char>, Option<JsonView>, Option<JsonView>)>,
    b: Seq<(Seq<char>, Option<JsonView>, Option<JsonView>)>,
    q: Seq<char>,
    f: spec_fn(int) -> int,
    g: spec_fn(int) -> int,
)
    requires
        paths_unique(a),
        paths_unique(b),
        forall|i: int| #![trigger f(i)] 0 <= i < a.len() && a[i].0 == q ==> 0 <= f(i) < b.len() && b[f(i)] == a[i],
        forall|j: int| #![trigger g(j)] 0 <= j < b.len() && b[j].0 == q ==> 0 <= g(j) < a.len() && a[g(j)] == b[j],
    ensures
        staged_after(a, q) == staged_after(b, q),
        touched(a, q) == touched(b, q),
{
    if exists|i: int| 0 <= i < a.len() && #[trigger] a[i].0 == q {
        let i = choose|i: int| 0 <= i < a.len() && #[trigger] a[i].0 == q;
        lemma_staged_at(a, i);
        lemma_staged_at(b, f(i));
    } else if exists|j: int| 0 <= j < b.len() && #[trigger] b[j].0 == q {
        let j = choose|j: int| 0 <= j < b.len() && #[trigger] b[j].0 == q;
        assert(a[g(j)].0 == q);
    }
}

/// A copy of an optional value.
fn duplicate_opt(o: &Option<Json>) -> (res: Option<Json>)
    ensures
        opt_view(res) == opt_view(*o),
{
    match o {
        Some(v) => Some(v.duplicate()),
        None => None,
    }
}

/// The index of the staged change for `path`, if any.
fn find_change(staged: &Vec<FileChange>, path: &RelPath) -> (res: Option<usize>)
    ensures
        match res {
            Some(i) => i < staged@.len() && changes_view(staged@)[i as int].0 == path@,
            None => !touched(changes_view(staged@), path@),
        },
{
    let mut i: usize = 0;
    while i < staged.len()
        invariant
            i <= staged@.len(),
            forall|j: int| 0 <= j < i ==> #[trigger] changes_view(staged@)[j].0 != path@,
        decreases staged@.len() - i,
    {
        if staged[i].path.same(path) {
            return Some(i);
        }
        i = i + 1;
    }
    None
}

impl Transaction {
    /// The project's value at `path`, ignoring what is staged.
    fn snapshot_value(&self, path: &RelPath) -> (res: Option<Json>)
        requires
            self.wf(),
        ensures
            opt_view(res) == lookup(self.snapshot(), path@),
    {
        proof { lemma_view_members_len(self.files@); }
        match crate::json::find_member(&self.files, path.as_str()) {
            Some(i) => {
                proof { lemma_lookup_at(self.snapshot(), i as int); }
                Some(self.files[i].1.duplicate())
            },
            None => {
                assert(!(exists|i: int| 0 <= i < self.snapshot().len() && #[trigger] self.snapshot()[i].0 == path@));
                None
            },
        }
    }

    /// The staged-over-project view: the staged after-image if this
    /// transaction touched the path, else the loaded value.
    pub fn read(&self, path: &RelPath) -> (res: Option<Json>)
        requires
            self.wf(),
        ensures
            opt_view(res) == self.read_view(path@),
    {
        match find_change(&self.staged, path) {
            Some(i) => {
                proof { lemma_staged_at(self.changes(), i as int); }
                duplicate_opt(&self.staged[i].after)
            },
            None => self.snapshot_value(path),
        }
    }

    /// Stages `after` for `path`; the path's before-image is recorded as
    /// inverse data the first time it is touched.
    fn stage(&mut self, path: RelPath, after: Option<Json>)
        requires
            old(self).wf(),
        ensures
            final(self).wf(),
            final(self).snapshot() == old(self).snapshot(),
            final(self).counter() == old(self).counter(),
            final(self).read_view(path@) == opt_view(after),
            forall|q: Seq<char>| q != path@ ==> #[trigger] final(self).read_view(q) == old(self).read_view(q),
            touched(old(self).changes(), path@) ==> final(self).changes().len() == old(self).changes().len(),
            touched(old(self).changes(), path@) ==> forall|i: int| 0 <= i < old(self).changes().len() ==> #[trigger] final(self).changes()[i] == (if old(self).changes()[i].0 == path@ {
                (path@, old(self).changes()[i].1, opt_view(after))
            } else {
                old(self).changes()[i]
            }),
            !touched(old(self).changes(), path@) ==> final(self).changes() == old(self).changes().push(
                (path@, lookup(old(self).snapshot(), path@), opt_view(after)),
            ),
    {
        let ghost a = self.changes();
        let ghost snap = self.snapshot();
        let ghost p = path@;
        let ghost x = opt_view(after);
        let before = self.snapshot_value(&path);
        let inverse_value = match &before {
            Some(v) => v.duplicate(),
            None => Json::Null,
        };
        match find_change(&self.staged, &path) {
            Some(i) => {
                let kept = duplicate_opt(&self.staged[i].before);
                self.staged.set(i, FileChange { path: path.duplicate(), before: kept, after });
                proof {
                    let b = self.changes();
                    assert(b =~= a.update(i as int, (p, a[i as int].1, x)));
                    assert forall|j1: int, j2: int| 0 <= j1 < j2 < b.len() implies (#[trigger] b[j1]).0 != (#[trigger] b[j2]).0 by {
                        assert(a[j1].0 != a[j2].0);
                    }
                    lemma_staged_at(b, i as int);
                }
            },
            None => {
                self.staged.push(FileChange { path: path.duplicate(), before: before, after });
                proof {
                    let b = self.changes();
                    assert(b =~= a.push((p, lookup(snap, p), x)));
                    assert forall|j1: int, j2: int| 0 <= j1 < j2 < b.len() implies (#[trigger] b[j1]).0 != (#[trigger] b[j2]).0 by {
                        if j2 < a.len() {
                            assert(a[j1].0 != a[j2].0);
                        } else {
                            assert(b[j1] == a[j1]);
                        }
                    }
                    lemma_staged_at(b, a.len() as int);
                }
            },
        }
        let ghost b = self.changes();
        assert forall|q: Seq<char>| q != p implies #[trigger] staged_after(b, q) == staged_after(a, q) && touched(b, q) == touched(a, q) by {
            lemma_staged_via(a, b, q, |j: int| j, |j: int| j);
        }
        insert_member(&mut self.inverse, path.as_str().to_string(), inverse_value);
        proof {
            assert(b == self.changes());
            assert forall|q: Seq<char>| #[trigger] lookup(self.inverse_members(), q) == (if touched(b, q) {
                Some(before_or_null(lookup(snap, q)))
            } else {
                None
            }) by {
                if q != p {
                    assert(staged_after(b, q) == staged_after(a, q));
                    assert(touched(b, q) == touched(a, q));
                }
            }
            assert forall|q: Seq<char>| q != p implies #[trigger] self.read_view(q) == old(self).read_view(q) by {
                assert(staged_after(b, q) == staged_after(a, q));
            }
        }
    }

    /// Stages a write of `value` to `path`, recording the path's
    /// before-image as inverse data on first touch.
    pub fn write(&mut self, path: RelPath, value: Json)
        requires
            old(self).wf(),
        ensures
            final(self).wf(),
            final(self).snapshot() == old(self).snapshot(),
            final(self).counter() == old(self).counter(),
            final(self).read_view(path@) == Some(value@),
            forall|q: Seq<char>| q != path@ ==> #[trigger] final(self).read_view(q) == old(self).read_view(q),
            touched(old(self).changes(), path@) ==> final(self).changes().len() == old(self).changes().len(),
            touched(old(self).changes(), path@) ==> forall|i: int| 0 <= i < old(self).changes().len() ==> #[trigger] final(self).changes()[i] == (if old(self).changes()[i].0 == path@ {
                (path@, old(self).changes()[i].1, Some(value@))
            } else {
                old(self).changes()[i]
            }),
            !touched(old(self).changes(), path@) ==> final(self).changes() == old(self).changes().push(
                (path@, lookup(old(self).snapshot(), path@), Some(value@)),
            ),
    {
        self.stage(path, Some(value));
    }

    /// Stages a deletion of `path` (`after = None`).
    pub fn delete(&mut self, path: RelPath)
        requires
            old(self).wf(),
        ensures
            final(self).wf(),
            final(self).snapshot() == old(self).snapshot(),
            final(self).counter() == old(self).counter(),
            final(self).read_view(path@) == None::<JsonView>,
            forall|q: Seq<char>| q != path@ ==> #[trigger] final(self).read_view(q) == old(self).read_view(q),
            touched(old(self).changes(), path@) ==> final(self).changes().len() == old(self).changes().len(),
            touched(old(self).changes(), path@) ==> forall|i: int| 0 <= i < old(self).changes().len() ==> #[trigger] final(self).changes()[i] == (if old(self).changes()[i].0 == path@ {
                (path@, old(self).changes()[i].1, None)
            } else {
                old(self).changes()[i]
            }),
            !touched(old(self).changes(), path@) ==> final(self).changes() == old(self).changes().push(
                (path@, lookup(old(self).snapshot(), path@), None),
            ),
    {
        self.stage(path, None);
    }

    /// Allocates a stable id from the shared counter; the counter is
    /// persisted only by a commit and never reused within a transaction.
    pub fn alloc_id(&mut self, kind: IdKind) -> (id: StableId)
        requires
            old(self).wf(),
            old(self).counter() < u64::MAX,
        ensures
            final(self).wf(),
            final(self).counter() == old(self).counter() + 1,
            id == (StableId { kind, n: final(self).counter() }),
            final(self).snapshot() == old(self).snapshot(),
            final(self).changes() == old(self).changes(),
            final(self).inverse_members() == old(self).inverse_members(),
    {
        self.allocator.next(kind)
    }

    /// The id counter as a commit would persist it.
    pub fn stable_id_counter(&self) -> (res: u64)
        ensures
            res == self.counter(),
    {
        self.allocator.current()
    }

    /// The staged changes, in first-touch order.
    pub fn staged(&self) -> (res: &[FileChange])
        ensures
            changes_view(res@) == self.changes(),
    {
        self.staged.as_slice()
    }

    /// The accumulated inverse data: an object mapping each touched path to
    /// its before-image (null for creations).
    pub fn inverse(&self) -> (res: Json)
        ensures
            res@ == JsonView::Object(self.inverse_members()),
    {
        let mut out: Vec<(String, Json)> = Vec::new();
        let mut i: usize = 0;
        while i < self.inverse.len()
            invariant
                i <= self.inverse@.len(),
                out@.len() == i,
                forall|j: int| 0 <= j < i ==> (#[trigger] out@[j]).0@ == self.inverse@[j].0@ && out@[j].1@ == self.inverse@[j].1@,
            decreases self.inverse@.len() - i,
        {
            out.push((self.inverse[i].0.clone(), self.inverse[i].1.duplicate()));
            i = i + 1;
        }
        proof {
            lemma_view_members_len(out@);
            lemma_view_members_len(self.inverse@);
            assert(view_members(out@) =~= view_members(self.inverse@));
        }
        Json::Object(out)
    }
}

/// Law: the inverse data of a transaction is the project as it was before
/// the transaction, for exactly the paths it touched: the snapshot's value,
/// or `null` where the transaction created the file.
pub proof fn law_inverse_holds_the_before_images(tx: Transaction, p: Seq<char>)
    requires
        tx.wf(),
    ensures
        lookup(tx.inverse_members(), p) == (if touched(tx.changes(), p) {
            Some(before_or_null(lookup(tx.snapshot(), p)))
        } else {
            None
        }),
{
}

/// Law: every staged change's before-image is the loaded project's value
/// for its path, however many times the path was written since.
pub proof fn law_before_image_is_the_snapshot(tx: Transaction, i: int)
    requires
        tx.wf(),
        0 <= i < tx.changes().len(),
    ensures
        tx.changes()[i].1 == lookup(tx.snapshot(), tx.changes()[i].0),
{
}

} // verus!
