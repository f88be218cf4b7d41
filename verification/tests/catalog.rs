use systole::capability::Capability;
use systole::catalog::{capability_of, latest_version};
use systole::op::Mutability;

#[test]
fn catalog() {
    let ids: Vec<String> = systole::catalog::catalog(false).into_iter().map(|m| m.id).collect();
    assert_eq!(
        ids,
        vec![
            "rpg.create_region",
            "rpg.mark_warp",
            "rpg.paint_area",
            "rpg.paint_path",
            "rpg.place_npc",
            "rpg.query_region",
            "rpg.set_collision",
        ]
    );
    let reads: Vec<String> =
        systole::catalog::catalog(false).into_iter().filter(|m| m.mutability == Mutability::Read).map(|m| m.id).collect();
    assert_eq!(reads, vec!["rpg.query_region"]);
}

#[test]
fn the_fixture_operations_come_first_when_registered() {
    let ids: Vec<String> = systole::catalog::catalog(true).into_iter().map(|m| m.id).collect();
    assert_eq!(ids.len(), 10);
    assert_eq!(&ids[..3], &["fixture.forbidden", "fixture.get_note", "fixture.put_note"]);
}

#[test]
fn lookups_find_capabilities_and_versions() {
    assert_eq!(capability_of("rpg.paint_area", 1, false), Some(Capability::ProjectWrite));
    assert_eq!(capability_of("rpg.query_region", 1, false), Some(Capability::ProjectRead));
    assert_eq!(capability_of("rpg.paint_area", 2, false), None);
    assert_eq!(capability_of("fixture.forbidden", 1, false), None);
    assert_eq!(capability_of("fixture.forbidden", 1, true), Some(Capability::NetworkCall));
    assert_eq!(latest_version("rpg.mark_warp", false), Some(1));
    assert_eq!(latest_version("core.nothing", true), None);
}
