use systole::op::OpError;
use systole::ops::{
    invalid, CreateRegion, CreateRegionRequest, PaintArea, PaintAreaRequest, RegionEntry, RegionIndex, SetCollision,
    SetCollisionRequest,
};

fn index() -> RegionIndex {
    RegionIndex {
        regions: vec![RegionEntry { handle: "town".into(), stable_id: "region_00001".into(), width: 16, height: 16 }],
    }
}

fn message(e: OpError) -> String {
    match e {
        OpError::InvalidRequest(m) => m,
        other => panic!("expected an invalid request, got {other:?}"),
    }
}

#[test]
fn request_errors_carry_their_code() {
    assert_eq!(message(invalid("rpg.region.not_found", "no region")), "rpg.region.not_found: no region");
}

#[test]
fn create_region_refuses_bad_handles_sizes_and_terrain() {
    let op = CreateRegion;
    let req = |id: &str, w: u32, h: u32, fill: Option<&str>| CreateRegionRequest {
        id: id.into(),
        width: w,
        height: h,
        fill: fill.map(str::to_string),
        spawn: None,
    };
    assert!(op.validate_request(&req("town", 16, 16, None)).is_ok());
    assert_eq!(
        message(op.validate_request(&req("Town", 16, 16, None)).unwrap_err()),
        "rpg.region.invalid_id: region id \"Town\" must match [a-z][a-z0-9_]*"
    );
    assert_eq!(
        message(op.validate_request(&req("town", 0, 16, None)).unwrap_err()),
        "spatial.rect_out_of_bounds: region dimensions 0x16 must be within 1..=256"
    );
    assert_eq!(
        message(op.validate_request(&req("town", 16, 16, Some("lava"))).unwrap_err()),
        "rpg.terrain.unknown_kind: unknown terrain kind \"lava\""
    );
}

#[test]
fn create_region_clamps_the_spawn_and_defaults_the_fill() {
    let plan = CreateRegion
        .materialize(CreateRegionRequest { id: "town".into(), width: 4, height: 3, fill: None, spawn: Some([9, 1]) })
        .unwrap();
    assert_eq!(plan.fill, "grass");
    assert_eq!(plan.spawn, [3, 1]);
}

#[test]
fn paint_area_resolves_the_region_and_checks_the_rect() {
    let ok = PaintArea
        .materialize(&index(), PaintAreaRequest { region: "town".into(), x: 0, y: 0, w: 4, h: 4, terrain: "wall".into() })
        .unwrap();
    assert_eq!(ok.region_stable_id, "region_00001");
    let out = PaintArea
        .materialize(&index(), PaintAreaRequest { region: "town".into(), x: 14, y: 15, w: 4, h: 2, terrain: "wall".into() })
        .unwrap_err();
    assert_eq!(message(out), "spatial.rect_out_of_bounds: rect (14,15)+4x2 exceeds region \"town\" bounds 16x16");
    let missing = SetCollision
        .materialize(&index(), SetCollisionRequest { region: "nowhere".into(), x: 0, y: 0, w: 1, h: 1, solid: true })
        .unwrap_err();
    assert_eq!(message(missing), "rpg.region.not_found: no region with id \"nowhere\"");
}
