use std::collections::BTreeSet;

use systole::schema::{
    collision_path, glyph_solid, l_path_tiles, npc_path, point_inside, rect_inside, rect_tiles, region_path, terrain_path,
    valid_handle, Facing, Terrain,
};

#[test]
fn handles_match_the_handle_grammar() {
    assert!(valid_handle("town"));
    assert!(valid_handle("route_1"));
    assert!(!valid_handle("Town"));
    assert!(!valid_handle("_town"));
    assert!(!valid_handle(""));
    assert!(!valid_handle("town!"));
}

#[test]
fn rects_must_have_area_and_fit() {
    assert!(rect_inside(0, 0, 4, 4, 16, 16));
    assert!(rect_inside(15, 15, 1, 1, 16, 16));
    assert!(!rect_inside(14, 15, 4, 2, 16, 16));
    assert!(!rect_inside(0, 0, 0, 4, 16, 16));
    assert!(!rect_inside(0, 0, 4, 0, 16, 16));
}

#[test]
fn l_path_bends_horizontal_then_vertical() {
    let tiles: BTreeSet<(u32, u32)> = l_path_tiles([1, 1], [3, 4]).into_iter().collect();
    assert_eq!(tiles, BTreeSet::from([(1, 1), (2, 1), (3, 1), (3, 2), (3, 3), (3, 4)]));
}

#[test]
fn handles_are_bounded_in_length() {
    assert!(valid_handle(&"a".repeat(64)));
    assert!(!valid_handle(&"a".repeat(65)));
    assert!(!valid_handle("1town"));
    assert!(valid_handle("t0wn_2"));
}

#[test]
fn a_backwards_l_path_covers_the_same_corner() {
    let tiles: BTreeSet<(u32, u32)> = l_path_tiles([3, 4], [1, 1]).into_iter().collect();
    assert_eq!(tiles, BTreeSet::from([(1, 4), (2, 4), (3, 4), (1, 1), (1, 2), (1, 3)]));
    assert_eq!(l_path_tiles([2, 2], [2, 2]), vec![(2, 2)]);
}

#[test]
fn rect_tiles_cover_the_rect_once() {
    let tiles = rect_tiles(1, 2, 3, 2);
    assert_eq!(tiles.len(), 6);
    let set: BTreeSet<(u32, u32)> = tiles.into_iter().collect();
    assert_eq!(set, BTreeSet::from([(1, 2), (2, 2), (3, 2), (1, 3), (2, 3), (3, 3)]));
    assert!(rect_tiles(0, 0, 0, 5).is_empty());
}

#[test]
fn points_are_inside_only_below_the_size() {
    assert!(point_inside(0, 0, 1, 1));
    assert!(!point_inside(1, 0, 1, 1));
    assert!(!point_inside(0, 0, 0, 0));
}

#[test]
fn terrain_kinds_map_to_glyphs_and_solidity() {
    assert_eq!(Terrain::from_kind("wall"), Some(Terrain::Wall));
    assert_eq!(Terrain::from_kind("lava"), None);
    assert_eq!(Terrain::Wall.glyph(), '#');
    assert!(Terrain::Wall.solid());
    assert!(Terrain::Water.solid());
    assert!(!Terrain::Grass.solid());
    assert_eq!(Terrain::Path.kind(), "path");
    for t in [Terrain::Grass, Terrain::Path, Terrain::Water, Terrain::Wall] {
        assert_eq!(glyph_solid(t.glyph()), t.solid());
    }
}

#[test]
fn object_paths_follow_the_layout() {
    assert_eq!(region_path("region_00001").as_str(), "regions/region_00001/region.json");
    assert_eq!(terrain_path("region_00001").as_str(), "regions/region_00001/layers/terrain.json");
    assert_eq!(collision_path("region_00001").as_str(), "regions/region_00001/layers/collision.json");
    assert_eq!(npc_path("ent_00002").as_str(), "entities/npc/ent_00002.json");
    assert_eq!(Facing::default_facing().name(), "down");
}

#[test]
fn a_region_path_declares_its_region() {
    let path = region_path("region_00001");
    assert_eq!(path.as_str(), "regions/region_00001/region.json");
    assert_eq!(
        systole::reference::object_file(&path),
        Some(("region_00001".to_string(), "region".to_string()))
    );
    let other = region_path("region_00042");
    assert_eq!(systole::reference::object_file(&other), Some(("region_00042".to_string(), "region".to_string())));
}
