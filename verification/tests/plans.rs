use bifrost_api::plans::{
    check_dims, check_new_plan, first_out_of_bounds, outside_grid_message, placed_light_candidates,
    placement_out_of_bounds, push_int, room_binding, validate_plan_rooms, BoundRegion, Mount,
    PlacedLight, PlacementVertices, PlanRoomInput, RoomBinding, Wall, WallDir, MAX_DIM,
};

#[test]
fn layouts_must_stay_inside_the_grid() {
    let walls = vec![
        Wall { x: 4, y: 0, dir: WallDir::V },
        Wall { x: 0, y: 3, dir: WallDir::H },
    ];
    // A column wall may sit on the right edge, a row wall on the bottom edge.
    assert_eq!(first_out_of_bounds(&vec![(0, 0), (3, 2)], &walls, 4, 3), None);
    assert_eq!(first_out_of_bounds(&vec![(0, 0), (4, 0), (-1, 0)], &walls, 4, 3), Some((4, 0)));
    let bad_wall = vec![Wall { x: 4, y: 0, dir: WallDir::H }];
    assert_eq!(first_out_of_bounds(&vec![], &bad_wall, 4, 3), Some((4, 0)));
}

#[test]
fn grid_messages_name_the_coordinate() {
    assert_eq!(outside_grid_message("tile", -1, 7, 4, 3), "tile (-1, 7) is outside the 4x3 grid");
    let mut s = String::from("n=");
    push_int(&mut s, -42);
    assert_eq!(s, "n=-42");
}

#[test]
fn plan_sizes_and_names_are_checked() {
    assert_eq!(check_dims(1, MAX_DIM), None);
    assert_eq!(check_dims(0, 5), Some("width and height must be between 1 and 128".to_string()));
    assert_eq!(check_dims(5, 129).is_some(), true);
    assert_eq!(check_new_plan("  Ground floor ", 10, 8), Ok("Ground floor".to_string()));
    assert_eq!(check_new_plan("  ", 10, 8), Err("plan name is required".to_string()));
    assert_eq!(check_new_plan("x", 10, 0), Err("width and height must be between 1 and 128".to_string()));
}

#[test]
fn placements_check_every_vertex() {
    let strip = PlacementVertices { x: 0, y: 0, points: Some(vec![(1, 1), (9, 9), (2, 2)]) };
    assert_eq!(placement_out_of_bounds(&strip, 4, 4), Some((9, 9)));
    let bulb = PlacementVertices { x: 5, y: 0, points: None };
    assert_eq!(placement_out_of_bounds(&bulb, 4, 4), Some((5, 0)));
    let ok = PlacementVertices { x: 1, y: 1, points: Some(vec![(2, 2)]) };
    assert_eq!(placement_out_of_bounds(&ok, 4, 4), None);
}

#[test]
fn room_regions_need_a_name_and_tiles_on_the_grid() {
    let r = |name: &str, tiles: Vec<(i64, i64)>| PlanRoomInput { id: String::new(), name: name.into(), tiles };
    assert_eq!(validate_plan_rooms(&vec![r("Den", vec![(0, 0)])], 4, 4), Ok(()));
    assert_eq!(validate_plan_rooms(&vec![r("Den", vec![]), r(" ", vec![])], 4, 4), Err("room name is required".to_string()));
    assert_eq!(
        validate_plan_rooms(&vec![r("Den", vec![(0, 0), (4, 1)])], 4, 4),
        Err("room tile (4, 1) is outside the 4x4 grid".to_string())
    );
}

#[test]
fn regions_keep_or_find_their_room() {
    assert_eq!(
        room_binding(Some(("Den".into(), Some("room1".into()))), "Den"),
        RoomBinding::Keep { room_id: "room1".into(), rename: false }
    );
    assert_eq!(
        room_binding(Some(("Den".into(), Some("room1".into()))), "Study"),
        RoomBinding::Keep { room_id: "room1".into(), rename: true }
    );
    assert_eq!(room_binding(Some(("Den".into(), None)), "Den"), RoomBinding::FindOrCreate);
    assert_eq!(room_binding(None, "Den"), RoomBinding::FindOrCreate);
}

#[test]
fn lights_placed_in_bound_regions_become_candidates() {
    let regions = vec![
        BoundRegion { room_id: Some("r1".into()), tiles: vec![(0, 0), (1, 0)] },
        BoundRegion { room_id: None, tiles: vec![(2, 2)] },
        BoundRegion { room_id: Some("r2".into()), tiles: vec![(3, 3)] },
    ];
    let lights = vec![
        PlacedLight { light_id: "a".into(), x: 1, y: 0 },
        PlacedLight { light_id: "b".into(), x: 2, y: 2 },
        PlacedLight { light_id: "c".into(), x: 3, y: 3 },
        PlacedLight { light_id: "d".into(), x: 0, y: 0 },
    ];
    assert_eq!(
        placed_light_candidates(&regions, &lights),
        vec![
            ("r1".to_string(), "a".to_string()),
            ("r1".to_string(), "d".to_string()),
            ("r2".to_string(), "c".to_string())
        ]
    );
}

#[test]
fn mounts_roundtrip_through_their_names() {
    for m in [Mount::C, Mount::N, Mount::S, Mount::E, Mount::W] {
        assert_eq!(Mount::from_db(m.as_str()), m);
    }
    assert_eq!(Mount::from_db("zz"), Mount::C);
    assert_eq!(WallDir::H.as_str(), "h");
    assert_eq!(WallDir::V.as_str(), "v");
}

#[test]
fn stored_wall_directions_read_back() {
    assert_eq!(WallDir::from_db("h"), WallDir::H);
    assert_eq!(WallDir::from_db("v"), WallDir::V);
    assert_eq!(WallDir::from_db("x"), WallDir::V);
}
