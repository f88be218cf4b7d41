//! Walkability over a region's collision grid: a 4-neighbour flood from the
//! spawn tile over walkable tiles. Every placed NPC and every warp tile must
//! be among the tiles it reaches.

use vstd::prelude::*;

verus! {

/// A region's walkable view: `solid[y][x]` for every tile of the
/// `width × height` region.
pub struct Grid {
    pub width: u32,
    pub height: u32,
    pub solid: Vec<Vec<bool>>,
}

/// The grid holds exactly `height` rows of `width` cells.
pub open spec fn grid_wf(g: Grid) -> bool {
    &&& g.solid@.len() == g.height
    &&& forall|y: int| 0 <= y < g.height ==> #[trigger] g.solid@[y]@.len() == g.width
}

pub open spec fn in_bounds(g: Grid, t: (u32, u32)) -> bool {
    t.0 < g.width && t.1 < g.height
}

pub open spec fn walkable(g: Grid, t: (u32, u32)) -> bool {
    in_bounds(g, t) && !g.solid@[t.1 as int]@[t.0 as int]
}

/// `a` and `b` are 4-neighbours.
pub open spec fn adjacent(a: (u32, u32), b: (u32, u32)) -> bool {
    ||| (a.0 == b.0 && (a.1 + 1 == b.1 || b.1 + 1 == a.1))
    ||| (a.1 == b.1 && (a.0 + 1 == b.0 || b.0 + 1 == a.0))
}

/// A walk: one or more walkable tiles, each a 4-neighbour of the next.
pub open spec fn is_walk(g: Grid, p: Seq<(u32, u32)>) -> bool {
    &&& p.len() >= 1
    &&& forall|i: int| 0 <= i < p.len() ==> walkable(g, #[trigger] p[i])
    &&& forall|i: int| 0 <= i < p.len() - 1 ==> adjacent(#[trigger] p[i], p[i + 1])
}

/// `t` can be walked to from `from` (which must itself be walkable).
pub open spec fn reachable(g: Grid, from: (u32, u32), t: (u32, u32)) -> bool {
    exists|p: Seq<(u32, u32)>| is_walk(g, p) && p[0] == from && #[trigger] p.last() == t
}

pub fn inside(g: &Grid, tile: (u32, u32)) -> (res: bool)
    ensures
        res == in_bounds(*g, tile),
{
    tile.0 < g.width && tile.1 < g.height
}

/// Out of bounds counts as solid.
pub fn solid_at(g: &Grid, tile: (u32, u32)) -> (res: bool)
    requires
        grid_wf(*g),
    ensures
        res == !walkable(*g, tile),
{
    !inside(g, tile) || g.solid[tile.1 as usize][tile.0 as usize]
}

/// The in-bounds 4-neighbours of `tile`: left, up, right, down.
pub fn neighbours(g: &Grid, tile: (u32, u32)) -> (res: Vec<(u32, u32)>)
    requires
        in_bounds(*g, tile),
    ensures
        res@.len() <= 4,
        forall|n: (u32, u32)| res@.contains(n) <==> (in_bounds(*g, n) && adjacent(tile, n)),
{
    let mut out: Vec<(u32, u32)> = Vec::new();
    if tile.0 > 0 {
        out.push((tile.0 - 1, tile.1));
    }
    if tile.1 > 0 {
        out.push((tile.0, tile.1 - 1));
    }
    if tile.0 + 1 < g.width {
        out.push((tile.0 + 1, tile.1));
    }
    if tile.1 + 1 < g.height {
        out.push((tile.0, tile.1 + 1));
    }
    proof {
        assert forall|n: (u32, u32)| out@.contains(n) <==> (in_bounds(*g, n) && adjacent(tile, n)) by {
            if in_bounds(*g, n) && adjacent(tile, n) {
                if n.0 + 1 == tile.0 {
                    assert(out@[0] == n);
                } else if n.1 + 1 == tile.1 {
                    if tile.0 > 0 { assert(out@[1] == n); } else { assert(out@[0] == n); }
                } else if n.0 == tile.0 + 1 {
                    let k = (if tile.0 > 0 { 1int } else { 0int }) + (if tile.1 > 0 { 1int } else { 0int });
                    assert(out@[k] == n);
                } else {
                    let k = (if tile.0 > 0 { 1int } else { 0int }) + (if tile.1 > 0 { 1int } else { 0int })
                        + (if tile.0 + 1 < g.width { 1int } else { 0int });
                    assert(out@[k] == n);
                }
            }
        }
    }
    out
}


/// Cells of `row` still `false`.
pub open spec fn count_false(row: Seq<bool>) -> nat
    decreases row.len(),
{
    if row.len() == 0 {
        0
    } else {
        count_false(row.drop_last()) + if row.last() { 0nat } else { 1nat }
    }
}

/// Cells of the matrix still `false`.
pub open spec fn unseen(rows: Seq<Vec<bool>>) -> nat
    decreases rows.len(),
{
    if rows.len() == 0 {
        0
    } else {
        unseen(rows.drop_last()) + count_false(rows.last()@)
    }
}

proof fn lemma_count_false_flip(row: Seq<bool>, x: int)
    requires
        0 <= x < row.len(),
        !row[x],
    ensures
        count_false(row.update(x, true)) + 1 == count_false(row),
    decreases row.len(),
{
    let r2 = row.update(x, true);
    if x == row.len() - 1 {
        assert(r2.drop_last() =~= row.drop_last());
    } else {
        assert(r2.drop_last() =~= row.drop_last().update(x, true));
        lemma_count_false_flip(row.drop_last(), x);
    }
}

proof fn lemma_unseen_replace(rows: Seq<Vec<bool>>, y: int, r: Vec<bool>)
    requires
        0 <= y < rows.len(),
    ensures
        unseen(rows.update(y, r)) + count_false(rows[y]@) == unseen(rows) + count_false(r@),
    decreases rows.len(),
{
    let r2 = rows.update(y, r);
    if y == rows.len() - 1 {
        assert(r2.drop_last() =~= rows.drop_last());
    } else {
        assert(r2.drop_last() =~= rows.drop_last().update(y, r));
        lemma_unseen_replace(rows.drop_last(), y, r);
    }
}

/// Marks `(x, y)` seen.
fn mark_seen(seen: &mut Vec<Vec<bool>>, x: usize, y: usize)
    requires
        y < old(seen)@.len(),
        x < old(seen)@[y as int]@.len(),
        !old(seen)@[y as int]@[x as int],
    ensures
        final(seen)@.len() == old(seen)@.len(),
        forall|j: int| 0 <= j < old(seen)@.len() && j != y ==> #[trigger] final(seen)@[j] == old(seen)@[j],
        final(seen)@[y as int]@ == old(seen)@[y as int]@.update(x as int, true),
        unseen(final(seen)@) + 1 == unseen(old(seen)@),
{
    let ghost before = seen@;
    let mut row: Vec<bool> = Vec::new();
    std::mem::swap(&mut row, &mut seen[y]);
    let ghost old_row = row@;
    row.set(x, true);
    proof {
        lemma_count_false_flip(old_row, x as int);
    }
    seen.set(y, row);
    proof {
        assert(old_row == before[y as int]@);
        lemma_unseen_replace(before, y as int, seen@[y as int]);
        assert(seen@ =~= before.update(y as int, seen@[y as int]));
    }
}

/// A `height × width` matrix of `false`.
fn unseen_matrix(width: u32, height: u32) -> (res: Vec<Vec<bool>>)
    ensures
        res@.len() == height,
        forall|y: int| 0 <= y < height ==> #[trigger] res@[y]@.len() == width,
        forall|y: int, x: int| 0 <= y < height && 0 <= x < width ==> !(#[trigger] res@[y]@[x]),
{
    let mut rows: Vec<Vec<bool>> = Vec::new();
    let mut y: u32 = 0;
    while y < height
        invariant
            y <= height,
            rows@.len() == y,
            forall|j: int| 0 <= j < y ==> #[trigger] rows@[j]@.len() == width,
            forall|j: int, x: int| 0 <= j < y && 0 <= x < width ==> !(#[trigger] rows@[j]@[x]),
        decreases height - y,
    {
        let mut row: Vec<bool> = Vec::new();
        let mut x: u32 = 0;
        while x < width
            invariant
                x <= width,
                row@.len() == x,
                forall|i: int| 0 <= i < x ==> !(#[trigger] row@[i]),
            decreases width - x,
        {
            row.push(false);
            x = x + 1;
        }
        rows.push(row);
        y = y + 1;
    }
    rows
}

/// A set of tiles containing `from` and closed under walkable 4-neighbours
/// contains every tile reachable from `from`.
proof fn lemma_closed_covers_reachable(g: Grid, from: (u32, u32), q: Seq<(u32, u32)>, t: (u32, u32))
    requires
        q.contains(from),
        forall|i: int, n: (u32, u32)| 0 <= i < q.len() && walkable(g, n) && #[trigger] adjacent(q[i], n) ==> q.contains(n),
        reachable(g, from, t),
    ensures
        q.contains(t),
{
    let p = choose|p: Seq<(u32, u32)>| is_walk(g, p) && p[0] == from && #[trigger] p.last() == t;
    lemma_walk_prefix_covered(g, q, p, p.len() - 1);
}

proof fn lemma_walk_prefix_covered(g: Grid, q: Seq<(u32, u32)>, p: Seq<(u32, u32)>, k: int)
    requires
        is_walk(g, p),
        q.contains(p[0]),
        forall|i: int, n: (u32, u32)| 0 <= i < q.len() && walkable(g, n) && #[trigger] adjacent(q[i], n) ==> q.contains(n),
        0 <= k < p.len(),
    ensures
        q.contains(p[k]),
    decreases k,
{
    if k > 0 {
        lemma_walk_prefix_covered(g, q, p, k - 1);
        let i = choose|i: int| 0 <= i < q.len() && q[i] == p[k - 1];
        assert(adjacent(p[k - 1], p[k]));
        assert(walkable(g, p[k]));
        assert(adjacent(q[i], p[k]));
    }
}

/// The tiles a 4-neighbour flood from `spawn` reaches over walkable tiles,
/// each once; empty when the spawn tile is solid or out of bounds.
pub fn bfs_reached(g: &Grid, spawn: (u32, u32)) -> (res: Vec<(u32, u32)>)
    requires
        grid_wf(*g),
    ensures
        res@.no_duplicates(),
        forall|t: (u32, u32)| res@.contains(t) <==> reachable(*g, spawn, t),
{
    if solid_at(g, spawn) {
        proof {
            assert forall|t: (u32, u32)| !reachable(*g, spawn, t) by {
                if reachable(*g, spawn, t) {
                    let p = choose|p: Seq<(u32, u32)>| is_walk(*g, p) && p[0] == spawn && #[trigger] p.last() == t;
                    assert(walkable(*g, p[0]));
                }
            }
        }
        return Vec::new();
    }
    let mut seen = unseen_matrix(g.width, g.height);
    mark_seen(&mut seen, spawn.0 as usize, spawn.1 as usize);
    let mut queue: Vec<(u32, u32)> = Vec::new();
    queue.push(spawn);
    proof {
        let p = seq![spawn];
        assert(is_walk(*g, p) && p[0] == spawn && p.last() == spawn);
        assert(reachable(*g, spawn, spawn));
    }
    let mut head: usize = 0;
    while head < queue.len()
        invariant
            grid_wf(*g),
            seen@.len() == g.height,
            forall|y: int| 0 <= y < g.height ==> #[trigger] seen@[y]@.len() == g.width,
            forall|t: (u32, u32)| in_bounds(*g, t) ==> (seen@[t.1 as int]@[t.0 as int] <==> queue@.contains(t)),
            forall|i: int| 0 <= i < queue@.len() ==> walkable(*g, #[trigger] queue@[i]) && reachable(*g, spawn, queue@[i]),
            queue@.no_duplicates(),
            queue@.len() >= 1,
            queue@[0] == spawn,
            head <= queue@.len(),
            forall|i: int, n: (u32, u32)| 0 <= i < head && walkable(*g, n) && #[trigger] adjacent(queue@[i], n) ==> queue@.contains(n),
        decreases unseen(seen@) + queue@.len() - head,
    {
        let tile = queue[head];
        let ns = neighbours(g, tile);
        let ghost measure = unseen(seen@) + queue@.len();
        let mut j: usize = 0;
        while j < ns.len()
            invariant
                grid_wf(*g),
                head < queue@.len(),
                tile == queue@[head as int],
                walkable(*g, tile),
                reachable(*g, spawn, tile),
                forall|n: (u32, u32)| ns@.contains(n) <==> (in_bounds(*g, n) && adjacent(tile, n)),
                j <= ns@.len(),
                seen@.len() == g.height,
                forall|y: int| 0 <= y < g.height ==> #[trigger] seen@[y]@.len() == g.width,
                forall|t: (u32, u32)| in_bounds(*g, t) ==> (seen@[t.1 as int]@[t.0 as int] <==> queue@.contains(t)),
                forall|i: int| 0 <= i < queue@.len() ==> walkable(*g, #[trigger] queue@[i]) && reachable(*g, spawn, queue@[i]),
                queue@.no_duplicates(),
                queue@.len() >= 1,
                queue@[0] == spawn,
                forall|i: int, n: (u32, u32)| 0 <= i < head && walkable(*g, n) && #[trigger] adjacent(queue@[i], n) ==> queue@.contains(n),
                forall|k: int| 0 <= k < j && walkable(*g, #[trigger] ns@[k]) ==> queue@.contains(ns@[k]),
                unseen(seen@) + queue@.len() == measure,
            decreases ns@.len() - j,
        {
            let n = ns[j];
            assert(ns@.contains(n));
            assert(in_bounds(*g, n));
            assert(g.solid@[n.1 as int]@.len() == g.width);
            assert(seen@[n.1 as int]@.len() == g.width);
            let ghost q0 = queue@;
            if !g.solid[n.1 as usize][n.0 as usize] && !seen[n.1 as usize][n.0 as usize] {
                mark_seen(&mut seen, n.0 as usize, n.1 as usize);
                queue.push(n);
                proof {
                    let p = choose|p: Seq<(u32, u32)>| is_walk(*g, p) && p[0] == spawn && #[trigger] p.last() == tile;
                    let p2 = p.push(n);
                    assert forall|i: int| 0 <= i < p2.len() implies walkable(*g, #[trigger] p2[i]) by {
                        if i < p.len() { assert(p2[i] == p[i]); }
                    }
                    assert forall|i: int| 0 <= i < p2.len() - 1 implies adjacent(#[trigger] p2[i], p2[i + 1]) by {
                        if i < p.len() - 1 {
                            assert(p2[i] == p[i] && p2[i + 1] == p[i + 1]);
                        } else {
                            assert(p2[i] == tile && p2[i + 1] == n);
                        }
                    }
                    assert(p2.last() == n);
                    assert(reachable(*g, spawn, n));
                    assert forall|a: int, b: int| 0 <= a < b < queue@.len() implies queue@[a] != queue@[b] by {
                        if b == queue@.len() - 1 {
                            assert(q0.contains(queue@[a]));
                        }
                    }
                    assert forall|t: (u32, u32)| queue@.contains(t) <==> (q0.contains(t) || t == n) by {
                        if queue@.contains(t) {
                            let k = choose|k: int| 0 <= k < queue@.len() && queue@[k] == t;
                            if k < q0.len() { assert(q0[k] == t); }
                        }
                        if q0.contains(t) {
                            let k = choose|k: int| 0 <= k < q0.len() && q0[k] == t;
                            assert(queue@[k] == t);
                        }
                        if t == n { assert(queue@[queue@.len() - 1] == n); }
                    }
                    assert forall|t: (u32, u32)| in_bounds(*g, t) implies (seen@[t.1 as int]@[t.0 as int] <==> queue@.contains(t)) by {
                        if t == n {
                        } else if t.1 == n.1 {
                            assert(t.0 != n.0);
                        }
                    }
                }
            } else {
                proof {
                    if walkable(*g, n) {
                        assert(queue@.contains(n));
                    }
                }
            }
            j = j + 1;
        }
        proof {
            assert forall|i: int, n: (u32, u32)| 0 <= i < head + 1 && walkable(*g, n) && #[trigger] adjacent(queue@[i], n) implies queue@.contains(n) by {
                if i == head {
                    assert(ns@.contains(n));
                    let k = choose|k: int| 0 <= k < ns@.len() && ns@[k] == n;
                }
            }
        }
        head = head + 1;
    }
    proof {
        assert forall|t: (u32, u32)| queue@.contains(t) <==> reachable(*g, spawn, t) by {
            if reachable(*g, spawn, t) {
                assert(queue@[0] == spawn);
                lemma_closed_covers_reachable(*g, spawn, queue@, t);
            }
            if queue@.contains(t) {
                let k = choose|k: int| 0 <= k < queue@.len() && queue@[k] == t;
            }
        }
    }
    queue
}

} // verus!
