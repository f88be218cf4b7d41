use std::collections::BTreeSet;

use systole::corridor::{minimal_path, repair_candidates, repair_rects};
use systole::json::format_line;
use systole::reachability::{bfs_reached, neighbours, Grid};

/// A `w × h` open grid with the listed solid tiles.
fn grid(w: u32, h: u32, walls: &[(u32, u32)]) -> Grid {
    let mut solid = vec![vec![false; w as usize]; h as usize];
    for &(x, y) in walls {
        solid[y as usize][x as usize] = true;
    }
    Grid { width: w, height: h, solid }
}

/// The outline of the `[x, x+w) × [y, y+h)` rectangle.
fn ring(x: u32, y: u32, w: u32, h: u32) -> Vec<(u32, u32)> {
    let mut out = BTreeSet::new();
    for i in x..x + w {
        out.insert((i, y));
        out.insert((i, y + h - 1));
    }
    for j in y..y + h {
        out.insert((x, j));
        out.insert((x + w - 1, j));
    }
    out.into_iter().collect()
}

fn walls_on(g: &Grid, path: &[(u32, u32)]) -> usize {
    path.iter().filter(|t| g.solid[t.1 as usize][t.0 as usize]).count()
}

#[test]
fn the_flood_reaches_every_open_tile_outside_a_ring() {
    let g = grid(16, 16, &ring(4, 4, 3, 3));
    let reached: BTreeSet<(u32, u32)> = bfs_reached(&g, (1, 1)).into_iter().collect();
    assert_eq!(reached.len(), 16 * 16 - 9);
    assert!(!reached.contains(&(5, 5)));
    assert!(reached.contains(&(15, 15)));
}

#[test]
fn a_blocked_spawn_reaches_nothing() {
    let g = grid(4, 4, &[(1, 1)]);
    assert!(bfs_reached(&g, (1, 1)).is_empty());
    assert!(bfs_reached(&g, (9, 9)).is_empty());
}

#[test]
fn neighbours_stay_inside_the_region() {
    let g = grid(3, 3, &[]);
    assert_eq!(neighbours(&g, (0, 0)), vec![(1, 0), (0, 1)]);
    assert_eq!(neighbours(&g, (1, 1)), vec![(0, 1), (1, 0), (2, 1), (1, 2)]);
}

#[test]
fn the_corridor_into_a_ring_crosses_one_wall() {
    let g = grid(16, 16, &ring(4, 4, 3, 3));
    let reached = bfs_reached(&g, (1, 1));
    let path = minimal_path(&g, &reached, (5, 5)).expect("a corridor exists");
    assert_eq!(*path.last().unwrap(), (5, 5));
    assert_eq!(walls_on(&g, &path), 1);
    let set: BTreeSet<(u32, u32)> = reached.iter().copied().collect();
    assert!(path.iter().all(|t| !set.contains(t)));
    assert!(minimal_path(&g, &reached, (1, 2)).is_none(), "a reached target needs no corridor");
    assert!(minimal_path(&g, &reached, (16, 0)).is_none(), "an out-of-bounds target has none");
    assert!(minimal_path(&g, &Vec::new(), (5, 5)).is_none(), "nothing reached, no corridor");
}

#[test]
fn a_two_thick_wall_needs_a_breach_not_a_door() {
    let mut walls: Vec<(u32, u32)> = Vec::new();
    for x in 4..9 {
        for y in 4..9 {
            if (x, y) != (6, 6) {
                walls.push((x, y));
            }
        }
    }
    let g = grid(16, 16, &walls);
    let reached = bfs_reached(&g, (1, 1));
    let path = minimal_path(&g, &reached, (6, 6)).unwrap();
    assert_eq!(walls_on(&g, &path), 2);
    let rects = repair_rects(&g, &reached, (6, 6));
    assert_eq!(rects.len(), 2, "door then breach: {rects:?}");
    assert_eq!((rects[0].2, rects[0].3), (1, 1));
    let (w, h) = (rects[1].2, rects[1].3);
    assert!(w == 2 || h == 2, "the breach spans two solid tiles: {rects:?}");
}

#[test]
fn a_one_thick_ring_gets_only_a_door() {
    let g = grid(16, 16, &ring(4, 4, 3, 3));
    let reached = bfs_reached(&g, (1, 1));
    let rects = repair_rects(&g, &reached, (5, 5));
    assert_eq!(rects.len(), 1);
    assert_eq!((rects[0].2, rects[0].3), (1, 1));
    let fixes = repair_candidates(&g, "town", &reached, (5, 5));
    assert_eq!(fixes.len(), 1);
    assert_eq!(fixes[0].op_id, "rpg.set_collision");
    assert_eq!(fixes[0].op_version, 1);
    assert_eq!(fixes[0].actor, "systole.rpg");
    let input = String::from_utf8(format_line(&fixes[0].input)).unwrap();
    assert!(input.starts_with(r#"{"h":1,"region":"town","solid":false,"w":1,"#), "{input}");
}

#[test]
fn a_solid_target_is_its_own_door() {
    let g = grid(5, 5, &[(3, 3)]);
    let reached = bfs_reached(&g, (0, 0));
    let rects = repair_rects(&g, &reached, (3, 3));
    assert_eq!(rects, vec![(3, 3, 1, 1)]);
    assert!(repair_rects(&g, &reached, (1, 1)).is_empty());
}
