//! The repair corridor for an unreachable target: a path from the reached
//! set to the target that crosses as few solid tiles as possible (a 0-1
//! breadth-first search: entering a solid tile costs 1, a walkable one 0),
//! deterministic in seed and neighbour order.

use vstd::prelude::*;

use crate::json::{Json, JsonView, lemma_view_members_len, view_members};
use crate::op::PlanRequest;
use crate::ops::fix_request;
use crate::reachability::{Grid, adjacent, grid_wf, in_bounds, inside, neighbours};
use crate::schema::OWNER_MODULE;

verus! {

/// The cost of entering tile `t`: 1 when it is solid.
pub open spec fn cost(g: Grid, t: (u32, u32)) -> nat {
    if g.solid@[t.1 as int]@[t.0 as int] { 1 } else { 0 }
}

/// The solid tiles on `p`, counted with repetition.
pub open spec fn walls(g: Grid, p: Seq<(u32, u32)>) -> nat
    decreases p.len(),
{
    if p.len() == 0 {
        0
    } else {
        walls(g, p.drop_last()) + cost(g, p.last())
    }
}

/// A corridor to `target`: in-bounds tiles, each a neighbour of the next,
/// none of them reached, ending at `target`, the first next to a reached
/// tile.
pub open spec fn corridor(g: Grid, reached: Seq<(u32, u32)>, target: (u32, u32), p: Seq<(u32, u32)>) -> bool {
    &&& p.len() >= 1
    &&& p.last() == target
    &&& forall|i: int| 0 <= i < p.len() ==> in_bounds(g, #[trigger] p[i]) && !reached.contains(p[i])
    &&& forall|i: int| 0 <= i < p.len() - 1 ==> adjacent(#[trigger] p[i], p[i + 1])
    &&& exists|r: (u32, u32)| reached.contains(r) && #[trigger] adjacent(r, p[0])
}

/// The search's state for one tile: its best cost so far (`UNSEEN` when
/// none) and the tile it was reached from.
#[derive(Clone, Copy)]
struct Cell {
    dist: u64,
    px: u32,
    py: u32,
    linked: bool,
}

const UNSEEN: u64 = 0xffff_ffff_ffff_ffff;

spec fn at(m: Seq<Vec<Cell>>, t: (u32, u32)) -> Cell {
    m[t.1 as int]@[t.0 as int]
}

spec fn shaped(m: Seq<Vec<Cell>>, w: u32, h: u32) -> bool {
    &&& m.len() == h
    &&& forall|y: int| 0 <= y < h ==> #[trigger] m[y]@.len() == w
}

spec fn row_sum(r: Seq<Cell>) -> int
    decreases r.len(),
{
    if r.len() == 0 {
        0
    } else {
        row_sum(r.drop_last()) + r.last().dist
    }
}

spec fn mat_sum(m: Seq<Vec<Cell>>) -> int
    decreases m.len(),
{
    if m.len() == 0 {
        0
    } else {
        mat_sum(m.drop_last()) + row_sum(m.last()@)
    }
}

spec fn row_seen(r: Seq<Cell>) -> int
    decreases r.len(),
{
    if r.len() == 0 {
        0
    } else {
        row_seen(r.drop_last()) + if r.last().dist != UNSEEN { 1int } else { 0int }
    }
}

spec fn mat_seen(m: Seq<Vec<Cell>>) -> int
    decreases m.len(),
{
    if m.len() == 0 {
        0
    } else {
        mat_seen(m.drop_last()) + row_seen(m.last()@)
    }
}

proof fn lemma_row_update(r: Seq<Cell>, i: int, c: Cell)
    requires
        0 <= i < r.len(),
    ensures
        row_sum(r.update(i, c)) == row_sum(r) - r[i].dist + c.dist,
        row_seen(r.update(i, c)) == row_seen(r) - (if r[i].dist != UNSEEN { 1int } else { 0int }) + (if c.dist != UNSEEN { 1int } else { 0int }),
    decreases r.len(),
{
    if i < r.len() - 1 {
        lemma_row_update(r.drop_last(), i, c);
        assert(r.update(i, c).drop_last() =~= r.drop_last().update(i, c));
    } else {
        assert(r.update(i, c).drop_last() =~= r.drop_last());
        if r.len() > 1 {
            lemma_row_update(r.drop_last(), 0, c);
        }
    }
}

proof fn lemma_row_bounds(r: Seq<Cell>)
    ensures
        row_sum(r) >= 0,
        0 <= row_seen(r) <= r.len(),
    decreases r.len(),
{
    if r.len() > 0 {
        lemma_row_bounds(r.drop_last());
    }
}

proof fn lemma_mat_update(m: Seq<Vec<Cell>>, y: int, row: Vec<Cell>)
    requires
        0 <= y < m.len(),
    ensures
        mat_sum(m.update(y, row)) == mat_sum(m) - row_sum(m[y]@) + row_sum(row@),
        mat_seen(m.update(y, row)) == mat_seen(m) - row_seen(m[y]@) + row_seen(row@),
    decreases m.len(),
{
    if y < m.len() - 1 {
        lemma_mat_update(m.drop_last(), y, row);
        assert(m.update(y, row).drop_last() =~= m.drop_last().update(y, row));
    } else {
        assert(m.update(y, row).drop_last() =~= m.drop_last());
    }
}

proof fn lemma_mat_bounds(m: Seq<Vec<Cell>>, w: u32)
    requires
        forall|y: int| 0 <= y < m.len() ==> #[trigger] m[y]@.len() == w,
    ensures
        mat_sum(m) >= 0,
        0 <= mat_seen(m) <= m.len() * w,
    decreases m.len(),
{
    if m.len() > 0 {
        lemma_mat_bounds(m.drop_last(), w);
        lemma_row_bounds(m.last()@);
        assert((m.len() - 1) * w + w == m.len() * w) by (nonlinear_arith);
    }
}

proof fn lemma_row_seen_pos(r: Seq<Cell>, i: int)
    requires
        0 <= i < r.len(),
        r[i].dist != UNSEEN,
    ensures
        row_seen(r) >= 1,
    decreases r.len(),
{
    lemma_row_bounds(r.drop_last());
    if i < r.len() - 1 {
        lemma_row_seen_pos(r.drop_last(), i);
    }
}

proof fn lemma_mat_seen_pos(m: Seq<Vec<Cell>>, t: (u32, u32))
    requires
        t.1 < m.len(),
        t.0 < m[t.1 as int]@.len(),
        at(m, t).dist != UNSEEN,
    ensures
        mat_seen(m) >= 1,
    decreases m.len(),
{
    if t.1 < m.len() - 1 {
        lemma_mat_seen_pos(m.drop_last(), t);
        lemma_row_bounds(m.last()@);
    } else {
        lemma_row_seen_pos(m.last()@, t.0 as int);
        lemma_mat_seen_nonneg(m.drop_last());
    }
}

proof fn lemma_mat_seen_nonneg(m: Seq<Vec<Cell>>)
    ensures
        mat_seen(m) >= 0,
        mat_sum(m) >= 0,
    decreases m.len(),
{
    if m.len() > 0 {
        lemma_mat_seen_nonneg(m.drop_last());
        lemma_row_bounds(m.last()@);
    }
}

/// Sets the cell of tile `t`.
fn set_cell(m: &mut Vec<Vec<Cell>>, t: (u32, u32), c: Cell, Ghost(w): Ghost<u32>, Ghost(h): Ghost<u32>)
    requires
        shaped(old(m)@, w, h),
        t.0 < w,
        t.1 < h,
    ensures
        shaped(final(m)@, w, h),
        at(final(m)@, t) == c,
        forall|u: (u32, u32)| u.0 < w && u.1 < h && u != t ==> #[trigger] at(final(m)@, u) == at(old(m)@, u),
        mat_sum(final(m)@) == mat_sum(old(m)@) - at(old(m)@, t).dist + c.dist,
        mat_seen(final(m)@) == mat_seen(old(m)@) - (if at(old(m)@, t).dist != UNSEEN { 1int } else { 0int })
            + (if c.dist != UNSEEN { 1int } else { 0int }),
{
    let ghost before = m@;
    let y = t.1 as usize;
    let x = t.0 as usize;
    let mut row: Vec<Cell> = Vec::new();
    std::mem::swap(&mut row, &mut m[y]);
    let ghost old_row = row@;
    assert(old_row == before[y as int]@);
    row.set(x, c);
    proof {
        lemma_row_update(old_row, x as int, c);
    }
    m.set(y, row);
    proof {
        assert(m@ =~= before.update(y as int, m@[y as int]));
        lemma_mat_update(before, y as int, m@[y as int]);
        assert forall|u: (u32, u32)| u.0 < w && u.1 < h && u != t implies #[trigger] at(m@, u) == at(before, u) by {
            if u.1 == t.1 {
                assert(u.0 != t.0);
            }
        }
    }
}


spec fn seen(m: Seq<Vec<Cell>>, t: (u32, u32)) -> bool {
    at(m, t).dist != UNSEEN
}

/// Every neighbour of `t` is seen at no more than `t`'s cost plus the cost
/// of entering it.
spec fn relaxed(g: Grid, m: Seq<Vec<Cell>>, t: (u32, u32)) -> bool {
    forall|n: (u32, u32)| in_bounds(g, n) && #[trigger] adjacent(t, n) ==> seen(m, n) && at(m, n).dist <= at(m, t).dist + cost(g, n)
}

/// A linked tile's parent is an in-bounds, seen neighbour at no more than
/// its cost minus the cost of entering it; at equal cost the parent was
/// set earlier.
spec fn link_ok(g: Grid, m: Seq<Vec<Cell>>, stamp: Map<(u32, u32), int>, t: (u32, u32)) -> bool {
    let c = at(m, t);
    let p = (c.px, c.py);
    c.linked ==> {
        &&& in_bounds(g, p)
        &&& adjacent(t, p)
        &&& seen(m, p)
        &&& at(m, p).dist + cost(g, t) <= c.dist
        &&& (at(m, p).dist == c.dist ==> stamp[p] < stamp[t])
    }
}

proof fn lemma_all_seen(g: Grid, m: Seq<Vec<Cell>>, r: (u32, u32), t: (u32, u32))
    requires
        grid_wf(g),
        shaped(m, g.width, g.height),
        in_bounds(g, r),
        in_bounds(g, t),
        seen(m, r),
        forall|u: (u32, u32)| in_bounds(g, u) && seen(m, u) ==> #[trigger] relaxed(g, m, u),
    ensures
        seen(m, t),
    decreases (if t.0 >= r.0 { t.0 - r.0 } else { r.0 - t.0 }) + (if t.1 >= r.1 { t.1 - r.1 } else { r.1 - t.1 }),
{
    if t != r {
        let n: (u32, u32) = if t.0 < r.0 {
            ((t.0 + 1) as u32, t.1)
        } else if t.0 > r.0 {
            ((t.0 - 1) as u32, t.1)
        } else if t.1 < r.1 {
            (t.0, (t.1 + 1) as u32)
        } else {
            (t.0, (t.1 - 1) as u32)
        };
        lemma_all_seen(g, m, r, n);
        assert(relaxed(g, m, n));
        assert(adjacent(n, t));
    }
}

proof fn lemma_corridor_bound(
    g: Grid,
    m: Seq<Vec<Cell>>,
    reached: Seq<(u32, u32)>,
    target: (u32, u32),
    q: Seq<(u32, u32)>,
    k: int,
)
    requires
        grid_wf(g),
        shaped(m, g.width, g.height),
        forall|i: int| 0 <= i < reached.len() ==> in_bounds(g, #[trigger] reached[i]),
        forall|u: (u32, u32)| in_bounds(g, u) && reached.contains(u) ==> at(m, u).dist == 0,
        forall|u: (u32, u32)| in_bounds(g, u) && seen(m, u) ==> #[trigger] relaxed(g, m, u),
        corridor(g, reached, target, q),
        0 <= k < q.len(),
    ensures
        seen(m, q[k]),
        at(m, q[k]).dist <= walls(g, q.subrange(0, k + 1)),
    decreases k,
{
    assert(q.subrange(0, k + 1).drop_last() =~= q.subrange(0, k));
    if k == 0 {
        let r = choose|r: (u32, u32)| reached.contains(r) && #[trigger] adjacent(r, q[0]);
        let i = choose|i: int| 0 <= i < reached.len() && reached[i] == r;
        assert(in_bounds(g, reached[i]));
        assert(relaxed(g, m, r));
        assert(in_bounds(g, q[0]));
        assert(q.subrange(0, 0).len() == 0);
    } else {
        lemma_corridor_bound(g, m, reached, target, q, k - 1);
        assert(adjacent(q[k - 1], q[k]));
        assert(in_bounds(g, q[k - 1]));
        assert(relaxed(g, m, q[k - 1]));
        assert(in_bounds(g, q[k]));
    }
}

fn unseen_cells(w: u32, h: u32) -> (res: Vec<Vec<Cell>>)
    ensures
        shaped(res@, w, h),
        forall|t: (u32, u32)| t.0 < w && t.1 < h ==> #[trigger] at(res@, t) == (Cell { dist: UNSEEN, px: 0, py: 0, linked: false }),
        mat_seen(res@) == 0,
{
    let mut rows: Vec<Vec<Cell>> = Vec::new();
    let mut y: u32 = 0;
    while y < h
        invariant
            y <= h,
            rows@.len() == y,
            forall|j: int| 0 <= j < y ==> #[trigger] rows@[j]@.len() == w,
            forall|j: int, x: int| 0 <= j < y && 0 <= x < w ==> (#[trigger] rows@[j]@[x]) == (Cell { dist: UNSEEN, px: 0, py: 0, linked: false }),
            mat_seen(rows@) == 0,
        decreases h - y,
    {
        let mut row: Vec<Cell> = Vec::new();
        let mut x: u32 = 0;
        while x < w
            invariant
                x <= w,
                row@.len() == x,
                forall|i: int| 0 <= i < x ==> (#[trigger] row@[i]) == (Cell { dist: UNSEEN, px: 0, py: 0, linked: false }),
                row_seen(row@) == 0,
            decreases w - x,
        {
            let ghost before = row@;
            row.push(Cell { dist: UNSEEN, px: 0, py: 0, linked: false });
            assert(row@.drop_last() =~= before);
            x = x + 1;
        }
        let ghost before = rows@;
        rows.push(row);
        assert(rows@.drop_last() =~= before);
        y = y + 1;
    }
    rows
}

/// A `h × w` matrix marking the tiles of `tiles`.
fn tile_marks(tiles: &Vec<(u32, u32)>, w: u32, h: u32) -> (res: Vec<Vec<bool>>)
    requires
        forall|i: int| 0 <= i < tiles@.len() ==> (#[trigger] tiles@[i]).0 < w && tiles@[i].1 < h,
    ensures
        res@.len() == h,
        forall|y: int| 0 <= y < h ==> #[trigger] res@[y]@.len() == w,
        forall|t: (u32, u32)| t.0 < w && t.1 < h ==> (res@[t.1 as int]@[t.0 as int] <==> tiles@.contains(t)),
{
    let mut marks: Vec<Vec<bool>> = Vec::new();
    let mut y: u32 = 0;
    while y < h
        invariant
            y <= h,
            marks@.len() == y,
            forall|j: int| 0 <= j < y ==> #[trigger] marks@[j]@.len() == w,
            forall|j: int, x: int| 0 <= j < y && 0 <= x < w ==> !(#[trigger] marks@[j]@[x]),
        decreases h - y,
    {
        let mut row: Vec<bool> = Vec::new();
        let mut x: u32 = 0;
        while x < w
            invariant
                x <= w,
                row@.len() == x,
                forall|i: int| 0 <= i < x ==> !(#[trigger] row@[i]),
            decreases w - x,
        {
            row.push(false);
            x = x + 1;
        }
        marks.push(row);
        y = y + 1;
    }
    let mut i: usize = 0;
    while i < tiles.len()
        invariant
            i <= tiles@.len(),
            forall|k: int| 0 <= k < tiles@.len() ==> (#[trigger] tiles@[k]).0 < w && tiles@[k].1 < h,
            marks@.len() == h,
            forall|j: int| 0 <= j < h ==> #[trigger] marks@[j]@.len() == w,
            forall|t: (u32, u32)| t.0 < w && t.1 < h ==> (marks@[t.1 as int]@[t.0 as int] <==> tiles@.subrange(0, i as int).contains(t)),
        decreases tiles@.len() - i,
    {
        let t = tiles[i];
        let ghost before = marks@;
        let mut row: Vec<bool> = Vec::new();
        std::mem::swap(&mut row, &mut marks[t.1 as usize]);
        let ghost old_row = row@;
        assert(old_row == before[t.1 as int]@);
        row.set(t.0 as usize, true);
        marks.set(t.1 as usize, row);
        assert(marks@[t.1 as int]@ == old_row.update(t.0 as int, true));
        proof {
            assert forall|u: (u32, u32)| u.0 < w && u.1 < h implies (marks@[u.1 as int]@[u.0 as int] <==> tiles@.subrange(0, i + 1).contains(u)) by {
                let next = tiles@.subrange(0, i + 1);
                let prev = tiles@.subrange(0, i as int);
                assert(next =~= prev.push(t));
                if u == t {
                    assert(next[i as int] == t);
                } else {
                    if u.1 != t.1 {
                        assert(marks@[u.1 as int] == before[u.1 as int]);
                    }
                    assert(marks@[u.1 as int]@[u.0 as int] == before[u.1 as int]@[u.0 as int]);
                    assert(before[u.1 as int]@[u.0 as int] <==> prev.contains(u));
                    if next.contains(u) {
                        let k = choose|k: int| 0 <= k < next.len() && #[trigger] next[k] == u;
                        assert(prev[k] == u);
                    }
                    if prev.contains(u) {
                        let k = choose|k: int| 0 <= k < prev.len() && #[trigger] prev[k] == u;
                        assert(next[k] == u);
                    }
                }
            }
        }
        i = i + 1;
    }
    assert(tiles@.subrange(0, tiles@.len() as int) =~= tiles@);
    marks
}


spec fn is_seed(marks: Seq<Vec<bool>>, t: (u32, u32)) -> bool {
    marks[t.1 as int]@[t.0 as int]
}

/// The search's invariant over every in-bounds tile: seeds at cost 0 and
/// unlinked, every other seen tile linked soundly, costs below the number
/// of seen tiles.
spec fn state_ok(g: Grid, marks: Seq<Vec<bool>>, m: Seq<Vec<Cell>>, stamp: Map<(u32, u32), int>) -> bool {
    &&& shaped(m, g.width, g.height)
    &&& marks.len() == g.height
    &&& forall|y: int| 0 <= y < g.height ==> #[trigger] marks[y]@.len() == g.width
    &&& forall|t: (u32, u32)| #![trigger at(m, t)] in_bounds(g, t) ==> {
        &&& (is_seed(marks, t) ==> at(m, t).dist == 0 && !at(m, t).linked)
        &&& (seen(m, t) && !is_seed(marks, t) ==> at(m, t).linked)
        &&& link_ok(g, m, stamp, t)
        &&& (seen(m, t) ==> at(m, t).dist < mat_seen(m))
    }
    &&& forall|t: (u32, u32)| #[trigger] stamp[t] >= 0
}

/// Seeds every marked tile at cost 0, in column-major tile order.
fn seed(g: &Grid, marks: &Vec<Vec<bool>>) -> (res: (Vec<Vec<Cell>>, std::collections::VecDeque<(u32, u32)>))
    requires
        grid_wf(*g),
        marks@.len() == g.height,
        forall|y: int| 0 <= y < g.height ==> #[trigger] marks@[y]@.len() == g.width,
    ensures
        state_ok(*g, marks@, res.0@, Map::new(|t: (u32, u32)| true, |t: (u32, u32)| 0int)),
        forall|t: (u32, u32)| in_bounds(*g, t) ==> (#[trigger] seen(res.0@, t) <==> is_seed(marks@, t)),
        forall|t: (u32, u32)| in_bounds(*g, t) && seen(res.0@, t) ==> #[trigger] res.1@.contains(t),
        forall|i: int| 0 <= i < res.1@.len() ==> in_bounds(*g, #[trigger] res.1@[i]) && seen(res.0@, res.1@[i]),
{
    let w = g.width;
    let h = g.height;
    let mut cells = unseen_cells(w, h);
    let mut deque: std::collections::VecDeque<(u32, u32)> = std::collections::VecDeque::new();
    let mut x: u32 = 0;
    while x < w
        invariant
            grid_wf(*g),
            w == g.width,
            h == g.height,
            x <= w,
            marks@.len() == h,
            forall|y: int| 0 <= y < h ==> #[trigger] marks@[y]@.len() == w,
            shaped(cells@, w, h),
            forall|t: (u32, u32)| #![trigger at(cells@, t)] t.0 < w && t.1 < h ==> at(cells@, t) == (if is_seed(marks@, t) && t.0 < x {
                Cell { dist: 0, px: 0, py: 0, linked: false }
            } else {
                Cell { dist: UNSEEN, px: 0, py: 0, linked: false }
            }),
            forall|t: (u32, u32)| t.0 < w && t.1 < h && seen(cells@, t) ==> #[trigger] deque@.contains(t),
            forall|i: int| 0 <= i < deque@.len() ==> in_bounds(*g, #[trigger] deque@[i]) && seen(cells@, deque@[i]),
        decreases w - x,
    {
        let mut y: u32 = 0;
        while y < h
            invariant
                grid_wf(*g),
                w == g.width,
                h == g.height,
                x < w,
                y <= h,
                marks@.len() == h,
                forall|j: int| 0 <= j < h ==> #[trigger] marks@[j]@.len() == w,
                shaped(cells@, w, h),
                forall|t: (u32, u32)| #![trigger at(cells@, t)] t.0 < w && t.1 < h ==> at(cells@, t) == (if is_seed(marks@, t) && (t.0 < x || (t.0 == x && t.1 < y)) {
                    Cell { dist: 0, px: 0, py: 0, linked: false }
                } else {
                    Cell { dist: UNSEEN, px: 0, py: 0, linked: false }
                }),
                forall|t: (u32, u32)| t.0 < w && t.1 < h && seen(cells@, t) ==> #[trigger] deque@.contains(t),
                forall|i: int| 0 <= i < deque@.len() ==> in_bounds(*g, #[trigger] deque@[i]) && seen(cells@, deque@[i]),
            decreases h - y,
        {
            if marks[y as usize][x as usize] {
                let ghost before = cells@;
                let ghost dq = deque@;
                set_cell(&mut cells, (x, y), Cell { dist: 0, px: 0, py: 0, linked: false }, Ghost(w), Ghost(h));
                deque.push_back((x, y));
                proof {
                    assert forall|t: (u32, u32)| t.0 < w && t.1 < h && seen(cells@, t) implies #[trigger] deque@.contains(t) by {
                        if t == (x, y) {
                            assert(deque@[deque@.len() - 1] == t);
                        } else {
                            assert(at(cells@, t) == at(before, t));
                            assert(seen(before, t));
                            assert(dq.contains(t));
                            let k = choose|k: int| 0 <= k < dq.len() && dq[k] == t;
                            assert(deque@[k] == t);
                        }
                    }
                    assert forall|i: int| 0 <= i < deque@.len() implies in_bounds(*g, #[trigger] deque@[i]) && seen(cells@, deque@[i]) by {
                        if i < dq.len() {
                            assert(deque@[i] == dq[i]);
                            if dq[i] != (x, y) {
                                assert(at(cells@, dq[i]) == at(before, dq[i]));
                            }
                        }
                    }
                }
            }
            y = y + 1;
        }
        x = x + 1;
    }
    let ghost stamp = Map::new(|t: (u32, u32)| true, |t: (u32, u32)| 0int);
    proof {
        lemma_mat_bounds(cells@, w);
        assert forall|t: (u32, u32)| #![trigger at(cells@, t)] in_bounds(*g, t) implies {
            &&& (is_seed(marks@, t) ==> at(cells@, t).dist == 0 && !at(cells@, t).linked)
            &&& (seen(cells@, t) && !is_seed(marks@, t) ==> at(cells@, t).linked)
            &&& link_ok(*g, cells@, stamp, t)
            &&& (seen(cells@, t) ==> at(cells@, t).dist < mat_seen(cells@))
        } by {
            if seen(cells@, t) {
                lemma_mat_seen_pos(cells@, t);
            }
        }
    }
    (cells, deque)
}


spec fn zero_stamps() -> Map<(u32, u32), int> {
    Map::new(|t: (u32, u32)| true, |t: (u32, u32)| 0int)
}

fn cost_exec(g: &Grid, t: (u32, u32)) -> (res: u64)
    requires
        grid_wf(*g),
        in_bounds(*g, t),
    ensures
        res == cost(*g, t),
{
    if g.solid[t.1 as usize][t.0 as usize] { 1 } else { 0 }
}

/// Runs the 0-1 search to its fixpoint: afterwards every seen tile is
/// relaxed. Returns the (ghost) order in which tiles were last improved.
fn search(
    g: &Grid,
    marks: &Vec<Vec<bool>>,
    cells: &mut Vec<Vec<Cell>>,
    deque: &mut std::collections::VecDeque<(u32, u32)>,
) -> (stamp: Ghost<Map<(u32, u32), int>>)
    requires
        grid_wf(*g),
        state_ok(*g, marks@, old(cells)@, zero_stamps()),
        forall|t: (u32, u32)| in_bounds(*g, t) && seen(old(cells)@, t) && !old(deque)@.contains(t) ==> #[trigger] relaxed(*g, old(cells)@, t),
        forall|i: int| 0 <= i < old(deque)@.len() ==> in_bounds(*g, #[trigger] old(deque)@[i]) && seen(old(cells)@, old(deque)@[i]),
    ensures
        state_ok(*g, marks@, final(cells)@, stamp@),
        forall|t: (u32, u32)| in_bounds(*g, t) && seen(final(cells)@, t) ==> #[trigger] relaxed(*g, final(cells)@, t),
        forall|t: (u32, u32)| in_bounds(*g, t) && seen(old(cells)@, t) ==> #[trigger] seen(final(cells)@, t),
{
    let ghost mut stamp = zero_stamps();
    let ghost mut time: int = 1;
    let ghost c0 = cells@;
    let w = g.width;
    let h = g.height;
    while deque.len() > 0
        invariant
            grid_wf(*g),
            w == g.width,
            h == g.height,
            state_ok(*g, marks@, cells@, stamp),
            forall|t: (u32, u32)| #[trigger] stamp[t] < time,
            forall|t: (u32, u32)| in_bounds(*g, t) && seen(cells@, t) && !deque@.contains(t) ==> #[trigger] relaxed(*g, cells@, t),
            forall|i: int| 0 <= i < deque@.len() ==> in_bounds(*g, #[trigger] deque@[i]) && seen(cells@, deque@[i]),
            forall|t: (u32, u32)| in_bounds(*g, t) && seen(c0, t) ==> #[trigger] seen(cells@, t),
        decreases mat_sum(cells@), deque@.len(),
    {
        proof { lemma_mat_seen_nonneg(cells@); }
        let ghost sum0 = mat_sum(cells@);
        let ghost len0 = deque@.len();
        let ghost dq0 = deque@;
        let u = deque.pop_front().unwrap();
        assert(dq0[0] == u);
        assert(in_bounds(*g, u) && seen(cells@, u));
        let base = cells[u.1 as usize][u.0 as usize].dist;
        proof {
            lemma_mat_bounds(cells@, w);
            assert(at(cells@, u).dist < mat_seen(cells@));
            assert((h as int) * (w as int) <= 0xffff_fffe_0000_0001) by (nonlinear_arith)
                requires
                    h <= 0xffff_ffff,
                    w <= 0xffff_ffff,
            ;
            assert forall|t: (u32, u32)| in_bounds(*g, t) && seen(cells@, t) && !deque@.contains(t) && t != u implies #[trigger] relaxed(*g, cells@, t) by {
                if dq0.contains(t) {
                    let k = choose|k: int| 0 <= k < dq0.len() && dq0[k] == t;
                    assert(k != 0);
                    assert(deque@[k - 1] == t);
                }
            }
        }
        let nbrs = neighbours(g, u);
        let mut k: usize = 0;
        while k < nbrs.len()
            invariant
                grid_wf(*g),
                w == g.width,
                h == g.height,
                state_ok(*g, marks@, cells@, stamp),
                forall|t: (u32, u32)| #[trigger] stamp[t] < time,
                in_bounds(*g, u),
                seen(cells@, u),
                at(cells@, u).dist == base,
                base < (h as int) * (w as int),
                (h as int) * (w as int) <= 0xffff_fffe_0000_0001,
                k <= nbrs@.len(),
                forall|n: (u32, u32)| nbrs@.contains(n) <==> (in_bounds(*g, n) && adjacent(u, n)),
                forall|j: int| 0 <= j < k ==> seen(cells@, #[trigger] nbrs@[j]) && at(cells@, nbrs@[j]).dist <= base + cost(*g, nbrs@[j]),
                forall|t: (u32, u32)| in_bounds(*g, t) && seen(cells@, t) && !deque@.contains(t) && t != u ==> #[trigger] relaxed(*g, cells@, t),
                forall|i: int| 0 <= i < deque@.len() ==> in_bounds(*g, #[trigger] deque@[i]) && seen(cells@, deque@[i]),
                forall|t: (u32, u32)| in_bounds(*g, t) && seen(c0, t) ==> #[trigger] seen(cells@, t),
                mat_sum(cells@) <= sum0,
                mat_sum(cells@) < sum0 || deque@.len() < len0,
            decreases nbrs@.len() - k,
        {
            let n = nbrs[k];
            assert(nbrs@.contains(n));
            assert(in_bounds(*g, n));
            assert(cells@[n.1 as int]@.len() == w);
            proof {
                lemma_mat_bounds(cells@, w);
            }
            let c = base + cost_exec(g, n);
            let old_dist = cells[n.1 as usize][n.0 as usize].dist;
            if c < old_dist {
                let ghost before = cells@;
                let ghost stamp_before = stamp;
                let ghost dq = deque@;
                set_cell(cells, n, Cell { dist: c, px: u.0, py: u.1, linked: true }, Ghost(w), Ghost(h));
                proof {
                    stamp = stamp.insert(n, time);
                    time = time + 1;
                }
                if cost_exec(g, n) == 1 {
                    deque.push_back(n);
                } else {
                    deque.push_front(n);
                }
                proof {
                    assert(deque@.contains(n)) by {
                        if cost(*g, n) == 1 {
                            assert(deque@[deque@.len() - 1] == n);
                        } else {
                            assert(deque@[0] == n);
                        }
                    }
                    assert(!is_seed(marks@, n));
                    assert forall|t: (u32, u32)| #![trigger at(cells@, t)] in_bounds(*g, t) implies {
                        &&& (is_seed(marks@, t) ==> at(cells@, t).dist == 0 && !at(cells@, t).linked)
                        &&& (seen(cells@, t) && !is_seed(marks@, t) ==> at(cells@, t).linked)
                        &&& link_ok(*g, cells@, stamp, t)
                        &&& (seen(cells@, t) ==> at(cells@, t).dist < mat_seen(cells@))
                    } by {
                        assert(at(before, t).dist < mat_seen(before) || !seen(before, t));
                        if t != n {
                            assert(at(cells@, t) == at(before, t));
                            let p = (at(before, t).px, at(before, t).py);
                            if at(before, t).linked && p != n {
                                assert(at(cells@, p) == at(before, p));
                            }
                        } else {
                            assert(adjacent(n, u));
                        }
                    }
                    assert forall|t: (u32, u32)| in_bounds(*g, t) && seen(cells@, t) && !deque@.contains(t) && t != u implies #[trigger] relaxed(*g, cells@, t) by {
                        assert(t != n);
                        assert(at(cells@, t) == at(before, t));
                        if dq.contains(t) {
                            let q = choose|q: int| 0 <= q < dq.len() && dq[q] == t;
                            if cost(*g, n) == 1 {
                                assert(deque@[q] == t);
                            } else {
                                assert(deque@[q + 1] == t);
                            }
                        }
                        assert(relaxed(*g, before, t));
                        assert forall|m: (u32, u32)| in_bounds(*g, m) && #[trigger] adjacent(t, m) implies seen(cells@, m) && at(cells@, m).dist <= at(cells@, t).dist + cost(*g, m) by {
                            if m != n {
                                assert(at(cells@, m) == at(before, m));
                            }
                        }
                    }
                    assert forall|i: int| 0 <= i < deque@.len() implies in_bounds(*g, #[trigger] deque@[i]) && seen(cells@, deque@[i]) by {
                        let e = deque@[i];
                        if e != n {
                            if cost(*g, n) == 1 {
                                assert(e == dq[i]);
                            } else {
                                assert(e == dq[i - 1]);
                            }
                            assert(at(cells@, e) == at(before, e));
                        }
                    }
                    assert forall|j: int| 0 <= j < k implies seen(cells@, #[trigger] nbrs@[j]) && at(cells@, nbrs@[j]).dist <= base + cost(*g, nbrs@[j]) by {
                        assert(nbrs@.contains(nbrs@[j]));
                        assert(in_bounds(*g, nbrs@[j]));
                        assert(nbrs@[j].0 < w && nbrs@[j].1 < h);
                        if nbrs@[j] != n {
                            assert(at(cells@, nbrs@[j]) == at(before, nbrs@[j]));
                        }
                    }
                    assert forall|t: (u32, u32)| in_bounds(*g, t) && seen(c0, t) implies #[trigger] seen(cells@, t) by {
                        if t != n {
                            assert(at(cells@, t) == at(before, t));
                        }
                    }
                    assert(at(cells@, u) == at(before, u));
                }
            }
            k = k + 1;
        }
        proof {
            assert(relaxed(*g, cells@, u)) by {
                assert forall|m: (u32, u32)| in_bounds(*g, m) && #[trigger] adjacent(u, m) implies seen(cells@, m) && at(cells@, m).dist <= at(cells@, u).dist + cost(*g, m) by {
                    assert(nbrs@.contains(m));
                    let j = choose|j: int| 0 <= j < nbrs@.len() && nbrs@[j] == m;
                }
            }
            lemma_mat_seen_nonneg(cells@);
        }
    }
    Ghost(stamp)
}


proof fn lemma_walls_concat(g: Grid, a: Seq<(u32, u32)>, b: Seq<(u32, u32)>)
    ensures
        walls(g, a + b) == walls(g, a) + walls(g, b),
    decreases b.len(),
{
    if b.len() > 0 {
        lemma_walls_concat(g, a, b.drop_last());
        assert((a + b).drop_last() =~= a + b.drop_last());
    } else {
        assert(a + b =~= a);
    }
}

proof fn lemma_walls_reverse(g: Grid, p: Seq<(u32, u32)>)
    ensures
        walls(g, p.reverse()) == walls(g, p),
    decreases p.len(),
{
    if p.len() > 0 {
        lemma_walls_reverse(g, p.drop_last());
        assert(p.reverse() =~= seq![p.last()] + p.drop_last().reverse());
        lemma_walls_concat(g, seq![p.last()], p.drop_last().reverse());
        assert(seq![p.last()].drop_last() =~= Seq::<(u32, u32)>::empty());
        let one = seq![p.last()];
        assert(one.len() == 1);
        assert(one.last() == p.last());
        assert(walls(g, one.drop_last()) == 0);
        assert(walls(g, one) == walls(g, one.drop_last()) + cost(g, one.last()));
    } else {
        assert(p.reverse() =~= p);
    }
}

/// Follows the links from `target` back to a seed: the tiles passed, from
/// `target` on.
fn trace(
    g: &Grid,
    marks: &Vec<Vec<bool>>,
    cells: &Vec<Vec<Cell>>,
    Ghost(stamp): Ghost<Map<(u32, u32), int>>,
    target: (u32, u32),
) -> (res: Vec<(u32, u32)>)
    requires
        grid_wf(*g),
        state_ok(*g, marks@, cells@, stamp),
        in_bounds(*g, target),
        seen(cells@, target),
        !is_seed(marks@, target),
    ensures
        res@.len() >= 1,
        res@[0] == target,
        forall|i: int| 0 <= i < res@.len() ==> in_bounds(*g, #[trigger] res@[i]) && !is_seed(marks@, res@[i]),
        forall|i: int| 0 <= i < res@.len() - 1 ==> adjacent(#[trigger] res@[i], res@[i + 1]),
        exists|r: (u32, u32)| in_bounds(*g, r) && is_seed(marks@, r) && #[trigger] adjacent(res@.last(), r),
        walls(*g, res@) <= at(cells@, target).dist,
{
    let mut path: Vec<(u32, u32)> = Vec::new();
    let mut cur = target;
    while !marks[cur.1 as usize][cur.0 as usize]
        invariant
            grid_wf(*g),
            state_ok(*g, marks@, cells@, stamp),
            in_bounds(*g, target),
            in_bounds(*g, cur),
            seen(cells@, cur),
            path@.len() == 0 ==> cur == target,
            path@.len() > 0 ==> path@[0] == target && adjacent(path@.last(), cur),
            forall|i: int| 0 <= i < path@.len() ==> in_bounds(*g, #[trigger] path@[i]) && !is_seed(marks@, path@[i]),
            forall|i: int| 0 <= i < path@.len() - 1 ==> adjacent(#[trigger] path@[i], path@[i + 1]),
            walls(*g, path@) + at(cells@, cur).dist <= at(cells@, target).dist,
        decreases at(cells@, cur).dist, stamp[cur],
    {
        let c = cells[cur.1 as usize][cur.0 as usize];
        assert(c == at(cells@, cur));
        assert(c.linked);
        let ghost before = path@;
        path.push(cur);
        assert(path@.drop_last() =~= before);
        let next = (c.px, c.py);
        assert(link_ok(*g, cells@, stamp, cur));
        cur = next;
    }
    assert(is_seed(marks@, cur));
    path
}

/// A minimal-cost path from the reached set to `target`, as the list of
/// tiles strictly outside the reached set ending at `target`: it crosses as
/// few solid tiles as any such path. `None` when nothing is reached, the
/// target lies outside the region, or the target is already reached.
/// Seeds are visited in column-major tile order and neighbours left, up,
/// right, down; the first minimal link wins.
pub fn minimal_path(g: &Grid, reached: &Vec<(u32, u32)>, target: (u32, u32)) -> (res: Option<Vec<(u32, u32)>>)
    requires
        grid_wf(*g),
        forall|i: int| 0 <= i < reached@.len() ==> in_bounds(*g, #[trigger] reached@[i]),
    ensures
        match res {
            Some(path) => corridor(*g, reached@, target, path@)
                && forall|q: Seq<(u32, u32)>| corridor(*g, reached@, target, q) ==> walls(*g, path@) <= #[trigger] walls(*g, q),
            None => reached@.len() == 0 || !in_bounds(*g, target) || reached@.contains(target),
        },
{
    if reached.len() == 0 || !inside(g, target) {
        return None;
    }
    let marks = tile_marks(reached, g.width, g.height);
    if marks[target.1 as usize][target.0 as usize] {
        return None;
    }
    let (mut cells, mut deque) = seed(g, &marks);
    let stamp = search(g, &marks, &mut cells, &mut deque);
    proof {
        let r = reached@[0];
        assert(reached@.contains(r));
        assert(is_seed(marks@, r));
        assert(at(cells@, r).dist == 0);
        lemma_all_seen(*g, cells@, r, target);
    }
    let back = trace(g, &marks, &cells, stamp, target);
    let mut path: Vec<(u32, u32)> = Vec::new();
    let mut i: usize = back.len();
    while i > 0
        invariant
            i <= back@.len(),
            path@ == back@.subrange(i as int, back@.len() as int).reverse(),
        decreases i,
    {
        i = i - 1;
        let ghost before = path@;
        path.push(back[i]);
        assert(path@ =~= back@.subrange(i as int, back@.len() as int).reverse());
    }
    proof {
        let b = back@;
        let p = path@;
        assert(b.subrange(0, b.len() as int) =~= b);
        lemma_walls_reverse(*g, b);
        assert forall|t: (u32, u32)| in_bounds(*g, t) implies (is_seed(marks@, t) <==> reached@.contains(t)) by {}
        assert(p.last() == target);
        assert forall|k: int| 0 <= k < p.len() implies in_bounds(*g, #[trigger] p[k]) && !reached@.contains(p[k]) by {
            assert(p[k] == b[b.len() - 1 - k]);
            assert(in_bounds(*g, b[b.len() - 1 - k]));
        }
        assert forall|k: int| 0 <= k < p.len() - 1 implies adjacent(#[trigger] p[k], p[k + 1]) by {
            assert(p[k] == b[b.len() - 1 - k]);
            assert(p[k + 1] == b[b.len() - 2 - k]);
            assert(adjacent(b[b.len() - 2 - k], b[b.len() - 2 - k + 1]));
        }
        let r = choose|r: (u32, u32)| in_bounds(*g, r) && is_seed(marks@, r) && #[trigger] adjacent(b.last(), r);
        assert(p[0] == b.last());
        assert(reached@.contains(r));
        assert(adjacent(r, p[0]));
        assert(corridor(*g, reached@, target, p));
        assert forall|q: Seq<(u32, u32)>| corridor(*g, reached@, target, q) implies walls(*g, p) <= #[trigger] walls(*g, q) by {
            assert forall|u: (u32, u32)| in_bounds(*g, u) && reached@.contains(u) implies at(cells@, u).dist == 0 by {
                assert(is_seed(marks@, u));
            }
            lemma_corridor_bound(*g, cells@, reached@, target, q, q.len() - 1);
            assert(q.subrange(0, q.len() as int) =~= q);
        }
    }
    Some(path)
}


pub open spec fn solid_tile(g: Grid, t: (u32, u32)) -> bool {
    g.solid@[t.1 as int]@[t.0 as int]
}

/// `t` has a reached 4-neighbour.
pub open spec fn near_reached(g: Grid, reached: Seq<(u32, u32)>, t: (u32, u32)) -> bool {
    exists|n: (u32, u32)| in_bounds(g, n) && #[trigger] adjacent(t, n) && reached.contains(n)
}

/// The first solid tile of `p` next to the reached set.
pub open spec fn first_door(g: Grid, reached: Seq<(u32, u32)>, p: Seq<(u32, u32)>) -> Option<(u32, u32)>
    decreases p.len(),
{
    if p.len() == 0 {
        None
    } else if solid_tile(g, p[0]) && near_reached(g, reached, p[0]) {
        Some(p[0])
    } else {
        first_door(g, reached, p.drop_first())
    }
}

/// The door: the target itself when it is solid, else the first solid tile
/// of the corridor that touches the reached set.
pub open spec fn door_of(g: Grid, reached: Seq<(u32, u32)>, target: (u32, u32), p: Seq<(u32, u32)>) -> Option<(u32, u32)> {
    if solid_tile(g, target) {
        Some(target)
    } else {
        first_door(g, reached, p)
    }
}

/// The solid tiles of `p`, in order.
pub open spec fn solids_of(g: Grid, p: Seq<(u32, u32)>) -> Seq<(u32, u32)> {
    p.filter(|t: (u32, u32)| solid_tile(g, t))
}

/// The bounding box `(min x, min y, max x, max y)` of non-empty `s`.
pub open spec fn bounds_of(s: Seq<(u32, u32)>) -> (u32, u32, u32, u32)
    decreases s.len(),
{
    if s.len() <= 1 {
        (s[0].0, s[0].1, s[0].0, s[0].1)
    } else {
        let b = bounds_of(s.drop_last());
        let t = s.last();
        (
            if t.0 < b.0 { t.0 } else { b.0 },
            if t.1 < b.1 { t.1 } else { b.1 },
            if t.0 > b.2 { t.0 } else { b.2 },
            if t.1 > b.3 { t.1 } else { b.3 },
        )
    }
}

/// The repair rectangles `(x, y, w, h)` for a corridor, most specific
/// first: the door as one tile, then the breach (the bounding rectangle of
/// the corridor's solid tiles) when there is one and it differs from the
/// door.
pub open spec fn candidates_of(g: Grid, reached: Seq<(u32, u32)>, target: (u32, u32), p: Seq<(u32, u32)>) -> Seq<(u32, u32, u32, u32)> {
    let doors = match door_of(g, reached, target, p) {
        Some(d) => seq![(d.0, d.1, 1u32, 1u32)],
        None => Seq::empty(),
    };
    let sol = solids_of(g, p);
    if sol.len() == 0 {
        doors
    } else {
        let b = bounds_of(sol);
        let breach = (b.0, b.1, (b.2 - b.0 + 1) as u32, (b.3 - b.1 + 1) as u32);
        if doors.len() > 0 && doors[0] == breach {
            doors
        } else {
            doors.push(breach)
        }
    }
}


/// Whether `t` has a marked (reached) neighbour.
fn touches_reached(g: &Grid, marks: &Vec<Vec<bool>>, reached: Ghost<Seq<(u32, u32)>>, t: (u32, u32)) -> (res: bool)
    requires
        grid_wf(*g),
        in_bounds(*g, t),
        marks@.len() == g.height,
        forall|y: int| 0 <= y < g.height ==> #[trigger] marks@[y]@.len() == g.width,
        forall|u: (u32, u32)| in_bounds(*g, u) ==> (#[trigger] is_seed(marks@, u) <==> reached@.contains(u)),
    ensures
        res == near_reached(*g, reached@, t),
{
    let nbrs = neighbours(g, t);
    let mut k: usize = 0;
    while k < nbrs.len()
        invariant
            k <= nbrs@.len(),
            marks@.len() == g.height,
            forall|y: int| 0 <= y < g.height ==> #[trigger] marks@[y]@.len() == g.width,
            forall|n: (u32, u32)| nbrs@.contains(n) <==> (in_bounds(*g, n) && adjacent(t, n)),
            forall|u: (u32, u32)| in_bounds(*g, u) ==> (#[trigger] is_seed(marks@, u) <==> reached@.contains(u)),
            forall|j: int| 0 <= j < k ==> !reached@.contains(#[trigger] nbrs@[j]),
        decreases nbrs@.len() - k,
    {
        let n = nbrs[k];
        assert(nbrs@.contains(n));
        assert(in_bounds(*g, n));
        assert(marks@[n.1 as int]@.len() == g.width);
        if marks[n.1 as usize][n.0 as usize] {
            assert(is_seed(marks@, n));
            return true;
        }
        assert(!is_seed(marks@, n));
        k = k + 1;
    }
    proof {
        assert forall|n: (u32, u32)| in_bounds(*g, n) && #[trigger] adjacent(t, n) implies !reached@.contains(n) by {
            assert(nbrs@.contains(n));
            let j = choose|j: int| 0 <= j < nbrs@.len() && nbrs@[j] == n;
        }
    }
    false
}

fn solid_exec(g: &Grid, t: (u32, u32)) -> (res: bool)
    requires
        grid_wf(*g),
        in_bounds(*g, t),
    ensures
        res == solid_tile(*g, t),
{
    g.solid[t.1 as usize][t.0 as usize]
}

/// The repair rectangles `(x, y, w, h)` for an unreachable `target`, most
/// specific first: the door (one tile), then the breach (the bounding
/// rectangle of the corridor's solid tiles) when it differs from the door;
/// both taken from a corridor that crosses as few solid tiles as possible.
/// Empty when nothing is reached, the target is outside the region, or it
/// is already reached.
pub fn repair_rects(g: &Grid, reached: &Vec<(u32, u32)>, target: (u32, u32)) -> (res: Vec<(u32, u32, u32, u32)>)
    requires
        grid_wf(*g),
        forall|i: int| 0 <= i < reached@.len() ==> in_bounds(*g, #[trigger] reached@[i]),
    ensures
        (reached@.len() == 0 || !in_bounds(*g, target) || reached@.contains(target)) ==> res@.len() == 0,
        !(reached@.len() == 0 || !in_bounds(*g, target) || reached@.contains(target)) ==> exists|p: Seq<(u32, u32)>| {
            &&& corridor(*g, reached@, target, p)
            &&& (forall|q: Seq<(u32, u32)>| corridor(*g, reached@, target, q) ==> walls(*g, p) <= #[trigger] walls(*g, q))
            &&& res@ == #[trigger] candidates_of(*g, reached@, target, p)
        },
{
    let path = match minimal_path(g, reached, target) {
        Some(p) => p,
        None => {
            return Vec::new();
        },
    };
    let ghost p = path@;
    let marks = tile_marks(reached, g.width, g.height);
    let ghost rv = reached@;
    assert forall|u: (u32, u32)| in_bounds(*g, u) implies (#[trigger] is_seed(marks@, u) <==> rv.contains(u)) by {}
    // The door.
    let mut door: Option<(u32, u32)> = None;
    if solid_exec(g, target) {
        door = Some(target);
    } else {
        let mut i: usize = 0;
        assert(p.subrange(0, p.len() as int) =~= p);
        while i < path.len()
            invariant_except_break
                door is None,
            invariant
                grid_wf(*g),
                i <= p.len(),
                path@ == p,
                corridor(*g, rv, target, p),
                marks@.len() == g.height,
                forall|y: int| 0 <= y < g.height ==> #[trigger] marks@[y]@.len() == g.width,
                forall|u: (u32, u32)| in_bounds(*g, u) ==> (#[trigger] is_seed(marks@, u) <==> rv.contains(u)),
                first_door(*g, rv, p) == first_door(*g, rv, p.subrange(i as int, p.len() as int)),
            ensures
                door == first_door(*g, rv, p),
            decreases p.len() - i,
        {
            let t = path[i];
            assert(in_bounds(*g, p[i as int]));
            assert(marks@[t.1 as int]@.len() == g.width);
            let ghost rest = p.subrange(i as int, p.len() as int);
            assert(rest[0] == t);
            assert(rest.drop_first() =~= p.subrange(i + 1, p.len() as int));
            if solid_exec(g, t) && touches_reached(g, &marks, Ghost(rv), t) {
                door = Some(t);
                break;
            }
            i = i + 1;
        }
    }
    assert(door == door_of(*g, rv, target, p));
    let mut out: Vec<(u32, u32, u32, u32)> = Vec::new();
    match door {
        Some(d) => out.push((d.0, d.1, 1, 1)),
        None => {},
    }
    // The breach.
    let mut solids: Vec<(u32, u32)> = Vec::new();
    let mut i: usize = 0;
    while i < path.len()
        invariant
            grid_wf(*g),
            i <= p.len(),
            path@ == p,
            corridor(*g, rv, target, p),
            solids@ == p.subrange(0, i as int).filter(|t: (u32, u32)| solid_tile(*g, t)),
            forall|j: int| 0 <= j < solids@.len() ==> in_bounds(*g, #[trigger] solids@[j]),
        decreases p.len() - i,
    {
        let t = path[i];
        assert(in_bounds(*g, p[i as int]));
        assert(p.subrange(0, i + 1) =~= p.subrange(0, i as int).push(t));
        proof { p.subrange(0, i as int).lemma_filter_push(t, |t: (u32, u32)| solid_tile(*g, t)); }
        if solid_exec(g, t) {
            solids.push(t);
        }
        i = i + 1;
    }
    assert(p.subrange(0, p.len() as int) =~= p);
    assert(solids@ == solids_of(*g, p));
    if solids.len() > 0 {
        let mut min_x = solids[0].0;
        let mut min_y = solids[0].1;
        let mut max_x = solids[0].0;
        let mut max_y = solids[0].1;
        let mut k: usize = 1;
        let ghost sv = solids@;
        assert(in_bounds(*g, sv[0]));
        assert(sv.subrange(0, 1).len() == 1);
        assert(bounds_of(sv.subrange(0, 1)) == (sv[0].0, sv[0].1, sv[0].0, sv[0].1));
        while k < solids.len()
            invariant
                1 <= k <= sv.len(),
                solids@ == sv,
                (min_x, min_y, max_x, max_y) == bounds_of(sv.subrange(0, k as int)),
                min_x <= max_x,
                min_y <= max_y,
                max_x < g.width,
                max_y < g.height,
                forall|j: int| 0 <= j < sv.len() ==> in_bounds(*g, #[trigger] sv[j]),
            decreases sv.len() - k,
        {
            let t = solids[k];
            assert(in_bounds(*g, sv[k as int]));
            assert(sv.subrange(0, k + 1).drop_last() =~= sv.subrange(0, k as int));
            if t.0 < min_x { min_x = t.0; }
            if t.1 < min_y { min_y = t.1; }
            if t.0 > max_x { max_x = t.0; }
            if t.1 > max_y { max_y = t.1; }
            k = k + 1;
        }
        assert(sv.subrange(0, sv.len() as int) =~= sv);
        let breach = (min_x, min_y, max_x - min_x + 1, max_y - min_y + 1);
        let same_as_door = match door {
            Some(d) => d.0 == breach.0 && d.1 == breach.1 && breach.2 == 1 && breach.3 == 1,
            None => false,
        };
        let ghost before = out@;
        if !same_as_door {
            out.push(breach);
        }
        proof {
            let b = bounds_of(solids_of(*g, p));
            assert(b == (min_x, min_y, max_x, max_y));
            assert(out@ =~= candidates_of(*g, rv, target, p));
        }
    } else {
        assert(out@ =~= candidates_of(*g, rv, target, p));
    }
    out
}


/// The input of `rpg.set_collision` clearing the `w × h` rectangle at
/// `(x, y)` of region `handle`.
pub open spec fn clear_input(handle: Seq<char>, x: u32, y: u32, w: u32, h: u32) -> JsonView {
    JsonView::Object(seq![
        ("h"@, JsonView::UInt(h as u64)),
        ("region"@, JsonView::Str(handle)),
        ("solid"@, JsonView::Bool(false)),
        ("w"@, JsonView::UInt(w as u64)),
        ("x"@, JsonView::UInt(x as u64)),
        ("y"@, JsonView::UInt(y as u64)),
    ])
}

/// A request as values: op, version, input, actor.
pub open spec fn request_view(r: PlanRequest) -> (Seq<char>, u32, JsonView, Seq<char>) {
    (r.op_id@, r.op_version, r.input@, r.actor@)
}

/// The suggested fix clearing rectangle `rect` of region `handle`.
pub open spec fn clear_fix(handle: Seq<char>, rect: (u32, u32, u32, u32)) -> (Seq<char>, u32, JsonView, Seq<char>) {
    ("rpg.set_collision"@, 1u32, clear_input(handle, rect.0, rect.1, rect.2, rect.3), OWNER_MODULE@)
}

/// `rpg.set_collision` on a rectangle, clearing it: the only collision fix
/// the kernel surface can propose.
pub fn collision_fix(handle: &str, at: (u32, u32), w: u32, h: u32) -> (res: PlanRequest)
    ensures
        request_view(res) == clear_fix(handle@, (at.0, at.1, w, h)),
{
    let members = vec![
        ("h".to_string(), Json::UInt(h as u64)),
        ("region".to_string(), Json::Str(handle.to_string())),
        ("solid".to_string(), Json::Bool(false)),
        ("w".to_string(), Json::UInt(w as u64)),
        ("x".to_string(), Json::UInt(at.0 as u64)),
        ("y".to_string(), Json::UInt(at.1 as u64)),
    ];
    proof { lemma_view_members_len(members@); }
    assert(view_members(members@) =~= seq![
        ("h"@, JsonView::UInt(h as u64)),
        ("region"@, JsonView::Str(handle@)),
        ("solid"@, JsonView::Bool(false)),
        ("w"@, JsonView::UInt(w as u64)),
        ("x"@, JsonView::UInt(at.0 as u64)),
        ("y"@, JsonView::UInt(at.1 as u64)),
    ]);
    fix_request("rpg.set_collision", Json::Object(members))
}

/// Requests as values.
pub open spec fn requests_view(rs: Seq<PlanRequest>) -> Seq<(Seq<char>, u32, JsonView, Seq<char>)> {
    Seq::new(rs.len(), |i: int| request_view(rs[i]))
}

/// What repairing an unreachable `target` of region `handle` suggests:
/// nothing when the spawn reaches nothing, the target is out of bounds or
/// already reached; otherwise, along some corridor that breaks the fewest
/// walls, its door and then its breach when the two differ, each as a fix
/// clearing that rectangle.
pub open spec fn repairs(
    g: Grid,
    handle: Seq<char>,
    reached: Seq<(u32, u32)>,
    target: (u32, u32),
    fixes: Seq<(Seq<char>, u32, JsonView, Seq<char>)>,
) -> bool {
    &&& (reached.len() == 0 || !in_bounds(g, target) || reached.contains(target)) ==> fixes.len() == 0
    &&& !(reached.len() == 0 || !in_bounds(g, target) || reached.contains(target)) ==> exists|p: Seq<(u32, u32)>| {
        &&& corridor(g, reached, target, p)
        &&& (forall|q: Seq<(u32, u32)>| corridor(g, reached, target, q) ==> walls(g, p) <= #[trigger] walls(g, q))
        &&& fixes.len() == candidates_of(g, reached, target, p).len()
        &&& forall|i: int| 0 <= i < fixes.len() ==> #[trigger] fixes[i] == clear_fix(handle, candidates_of(g, reached, target, p)[i])
    }
}

/// The repair corridor candidates for an unreachable `target` of region
/// `handle`, most specific first: the door, then the breach when it
/// differs (see [`repair_rects`]), each as a `rpg.set_collision` fix.
pub fn repair_candidates(g: &Grid, handle: &str, reached: &Vec<(u32, u32)>, target: (u32, u32)) -> (res: Vec<PlanRequest>)
    requires
        grid_wf(*g),
        forall|i: int| 0 <= i < reached@.len() ==> in_bounds(*g, #[trigger] reached@[i]),
    ensures
        repairs(*g, handle@, reached@, target, requests_view(res@)),
{
    let rects = repair_rects(g, reached, target);
    let mut out: Vec<PlanRequest> = Vec::new();
    let mut i: usize = 0;
    while i < rects.len()
        invariant
            i <= rects@.len(),
            out@.len() == i,
            forall|j: int| 0 <= j < i ==> request_view(#[trigger] out@[j]) == clear_fix(handle@, rects@[j]),
        decreases rects@.len() - i,
    {
        let r = rects[i];
        out.push(collision_fix(handle, (r.0, r.1), r.2, r.3));
        i = i + 1;
    }
    proof {
        let fixes = requests_view(out@);
        if !(reached@.len() == 0 || !in_bounds(*g, target) || reached@.contains(target)) {
            let p = choose|p: Seq<(u32, u32)>| {
                &&& corridor(*g, reached@, target, p)
                &&& (forall|q: Seq<(u32, u32)>| corridor(*g, reached@, target, q) ==> walls(*g, p) <= #[trigger] walls(*g, q))
                &&& rects@ == candidates_of(*g, reached@, target, p)
            };
            assert(forall|i: int| 0 <= i < fixes.len() ==> #[trigger] fixes[i] == clear_fix(handle@, candidates_of(*g, reached@, target, p)[i]));
        }
    }
    out
}

} // verus!
