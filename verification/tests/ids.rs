use systole::ids::{IdAllocator, IdKind, StableId};

#[test]
fn stable_id_round_trips_through_its_string_form() {
    let id = StableId::try_from("region_00007".to_string()).unwrap();
    assert_eq!(id.kind, IdKind::Region);
    assert_eq!(id.n, 7);
    assert_eq!(id.to_string(), "region_00007");
    assert!(StableId::try_from("nope".to_string()).is_err());

    let warp = StableId::try_from("warp_00003".to_string()).unwrap();
    assert_eq!(warp.kind, IdKind::Warp);
    assert_eq!(warp.to_string(), "warp_00003");
}

#[test]
fn stable_id_renders_with_five_digit_padding() {
    assert_eq!(StableId { kind: IdKind::Ent, n: 41 }.to_string(), "ent_00041");
    assert_eq!(StableId { kind: IdKind::Region, n: 3 }.to_string(), "region_00003");
    assert_eq!(StableId { kind: IdKind::Flag, n: 12 }.to_string(), "flag_00012");

    // One shared counter advances across kinds and never repeats a number.
    let mut alloc = IdAllocator::new(0);
    assert_eq!(alloc.next(IdKind::Ent).to_string(), "ent_00001");
    assert_eq!(alloc.next(IdKind::Region).to_string(), "region_00002");
    assert_eq!(alloc.next(IdKind::Ent).to_string(), "ent_00003");
}

#[test]
fn a_parsed_id_renders_back_to_its_text() {
    for text in ["ent_00001", "region_00042", "flag_99999", "warp_123456"] {
        let id = StableId::try_from(text.to_string()).unwrap();
        assert_eq!(id.to_string(), text);
    }
}

#[test]
fn malformed_ids_are_refused_with_the_input() {
    for text in ["ent_", "_00001", "npc_00001", "ent_0x1", "ent00001", "ent_+", "ent_-1", ""] {
        let err = StableId::try_from(text.to_string()).unwrap_err();
        assert_eq!(err.0, text);
    }
    // The number parses as `u64` does: a leading `+` is accepted.
    assert_eq!(StableId::try_from("ent_+1".to_string()).unwrap(), StableId { kind: IdKind::Ent, n: 1 });
}

#[test]
fn prefixes_name_each_kind() {
    assert_eq!(IdKind::Ent.prefix(), "ent");
    assert_eq!(IdKind::Region.prefix(), "region");
    assert_eq!(IdKind::Flag.prefix(), "flag");
    assert_eq!(IdKind::Warp.prefix(), "warp");
}

#[test]
fn allocations_from_any_start_are_consecutive_across_kinds() {
    let mut alloc = IdAllocator::new(40);
    let kinds = [IdKind::Region, IdKind::Ent, IdKind::Warp, IdKind::Ent, IdKind::Flag];
    let ids: Vec<StableId> = kinds.iter().map(|k| alloc.next(*k)).collect();
    for (i, id) in ids.iter().enumerate() {
        assert_eq!(id.n, 41 + i as u64);
        assert_eq!(id.kind, kinds[i]);
    }
    assert_eq!(alloc.current(), 45);
    assert_eq!(ids[2].to_string(), "warp_00043");
}
