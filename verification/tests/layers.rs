use systole::layers::{apply_collision_override, collision_file, derive_rows, effective_solid, paint_terrain, recompute_collision, terrain_file, Overrides};
use systole::schema::Terrain;

fn text(rows: &[Vec<char>]) -> Vec<String> {
    rows.iter().map(|r| r.iter().collect()).collect()
}

#[test]
fn derived_rows_apply_overrides_over_terrain_defaults() {
    let terrain = terrain_file(4, 2, Terrain::Grass);
    let mut overrides = Overrides::new();
    overrides.set(1, 0, true);
    assert_eq!(text(&derive_rows(&terrain.rows, &overrides)), vec![".#..", "...."]);
    assert!(effective_solid(&terrain.rows, &overrides, 1, 0));
    assert!(!effective_solid(&terrain.rows, &overrides, 0, 0));
}

#[test]
fn painting_walls_recomputes_collision_and_counts_changes() {
    let mut terrain = terrain_file(3, 2, Terrain::Grass);
    let mut collision = collision_file(3, 2, &terrain);
    let tiles = vec![(0, 0), (1, 0), (0, 0)];
    let changed = paint_terrain(&mut terrain, &vec![(0, 0), (1, 0)], Terrain::Wall);
    assert_eq!(changed, 2);
    recompute_collision(&mut collision, &terrain, &tiles[..2].to_vec());
    assert_eq!(text(&terrain.rows), vec!["##.", "..."]);
    assert_eq!(text(&collision.rows), vec!["##.", "..."]);
    assert_eq!(paint_terrain(&mut terrain, &vec![(0, 0)], Terrain::Wall), 0, "repainting changes nothing");
}

#[test]
fn collision_overrides_survive_a_repaint() {
    let mut terrain = terrain_file(3, 3, Terrain::Grass);
    let mut collision = collision_file(3, 3, &terrain);
    assert_eq!(apply_collision_override(&mut collision, 1, 1, 1, 1, true), Ok(1));
    assert_eq!(apply_collision_override(&mut collision, 1, 1, 1, 1, true), Ok(0), "idempotent");
    paint_terrain(&mut terrain, &vec![(1, 1)], Terrain::Path);
    recompute_collision(&mut collision, &terrain, &vec![(1, 1)]);
    assert_eq!(text(&collision.rows), vec!["...", ".#.", "..."]);
    assert_eq!(apply_collision_override(&mut collision, 0, 0, 3, 1, true), Ok(3));
    assert_eq!(text(&collision.rows), vec!["###", ".#.", "..."]);
}

#[test]
fn malformed_overrides_are_reported() {
    let terrain = terrain_file(2, 2, Terrain::Grass);
    let mut collision = collision_file(2, 2, &terrain);
    collision.overrides = None;
    assert_eq!(
        apply_collision_override(&mut collision, 0, 0, 1, 1, true),
        Err("collision overrides must be an object".to_string())
    );
}
