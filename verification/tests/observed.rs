use systole::ir::RelPath;
use systole::json::Json;
use systole::observed::{highest_stable_id, observed_stable_id_counter};

fn text(s: &str) -> Json {
    Json::Str(s.to_string())
}

#[test]
fn the_highest_stable_id_anywhere_in_a_value_is_found() {
    let v = Json::object(vec![
        ("stable_id".to_string(), text("ent_00002")),
        (
            "placements".to_string(),
            Json::Array(vec![Json::object(vec![("stable_id".to_string(), text("warp_00041"))]), text("note")]),
        ),
        ("label".to_string(), text("region_x")),
    ]);
    assert_eq!(highest_stable_id(&v, 0), 41);
    assert_eq!(highest_stable_id(&v, 50), 50);
    assert_eq!(highest_stable_id(&text("flag_7"), 3), 7);
    assert_eq!(highest_stable_id(&text("entity_7"), 3), 3);
    assert_eq!(highest_stable_id(&Json::UInt(99), 3), 3);
}

#[test]
fn the_observed_counter_covers_every_file_and_never_falls() {
    let files = vec![
        (RelPath::new("entities/npc/ent_00002.json".to_string()), Json::object(vec![("stable_id".to_string(), text("ent_00002"))])),
        (RelPath::new("regions/region_00009/region.json".to_string()), Json::object(vec![("stable_id".to_string(), text("region_00009"))])),
    ];
    assert_eq!(observed_stable_id_counter(&files, 3), 9);
    assert_eq!(observed_stable_id_counter(&files, 12), 12);
    assert_eq!(observed_stable_id_counter(&vec![], 5), 5);
}
