use lab_builder::input::{
    keyboard_input_system, movement_offset, placement_offset, ui_camera_index, Direction, InputKeys, SelectedTile,
    TileType,
};
use lab_builder::RelativePosition;

fn no_keys() -> InputKeys {
    InputKeys { wall: false, floor: false, up: false, down: false, left: false, right: false }
}

#[test]
fn default_selection_is_wall() {
    assert_eq!(SelectedTile::default().tile_type, TileType::Wall);
}

#[test]
fn bracket_keys_select_tile_kind() {
    let mut s = SelectedTile::default();
    keyboard_input_system(&mut s, &InputKeys { floor: true, ..no_keys() });
    assert_eq!(s.tile_type, TileType::Floor);
    keyboard_input_system(&mut s, &no_keys());
    assert_eq!(s.tile_type, TileType::Floor);
    keyboard_input_system(&mut s, &InputKeys { wall: true, ..no_keys() });
    assert_eq!(s.tile_type, TileType::Wall);
    keyboard_input_system(&mut s, &InputKeys { wall: true, floor: true, ..no_keys() });
    assert_eq!(s.tile_type, TileType::Floor);
}

#[test]
fn movement_keys_and_priority() {
    let mut s = SelectedTile::default();
    assert_eq!(keyboard_input_system(&mut s, &no_keys()), Direction::Stationary);
    assert_eq!(keyboard_input_system(&mut s, &InputKeys { up: true, ..no_keys() }), Direction::Up);
    assert_eq!(keyboard_input_system(&mut s, &InputKeys { down: true, ..no_keys() }), Direction::Down);
    assert_eq!(keyboard_input_system(&mut s, &InputKeys { left: true, ..no_keys() }), Direction::Left);
    assert_eq!(keyboard_input_system(&mut s, &InputKeys { right: true, ..no_keys() }), Direction::Right);
    assert_eq!(keyboard_input_system(&mut s, &InputKeys { up: true, down: true, ..no_keys() }), Direction::Down);
    assert_eq!(keyboard_input_system(&mut s, &InputKeys { up: true, left: true, ..no_keys() }), Direction::Left);
    assert_eq!(
        keyboard_input_system(&mut s, &InputKeys { up: true, down: true, left: true, right: true, ..no_keys() }),
        Direction::Right
    );
}

#[test]
fn movement_offsets_are_player_speed() {
    assert_eq!(movement_offset(Direction::Up), (0, 48));
    assert_eq!(movement_offset(Direction::Down), (0, -48));
    assert_eq!(movement_offset(Direction::Left), (-48, 0));
    assert_eq!(movement_offset(Direction::Right), (48, 0));
    assert_eq!(movement_offset(Direction::Stationary), (0, 0));
}

#[test]
fn opposite_moves_cancel() {
    for (a, b) in [(Direction::Up, Direction::Down), (Direction::Left, Direction::Right)] {
        let (ax, ay) = movement_offset(a);
        let (bx, by) = movement_offset(b);
        assert_eq!((ax + bx, ay + by), (0, 0));
    }
}

#[test]
fn placement_offsets() {
    assert_eq!(placement_offset(Direction::Left), (-1, 0));
    assert_eq!(placement_offset(Direction::Up), (1, 0));
    assert_eq!(placement_offset(Direction::Down), (0, -1));
    assert_eq!(placement_offset(Direction::Right), (0, 1));
    assert_eq!(placement_offset(Direction::Stationary), (1, 0));
}

#[test]
fn ui_camera_is_last_named() {
    let names = vec![
        Some("UiCamera".to_string()),
        None,
        Some("Camera2d".to_string()),
        Some("UiCamera".to_string()),
        Some("uicamera".to_string()),
    ];
    assert_eq!(ui_camera_index(&names), Some(3));
    assert_eq!(ui_camera_index(&vec![None, Some("Camera3d".to_string())]), None);
    assert_eq!(ui_camera_index(&Vec::new()), None);
}

#[test]
fn relative_positions_are_distinct() {
    assert_ne!(RelativePosition::LeftOf, RelativePosition::RightOf);
    assert_eq!(RelativePosition::Current, RelativePosition::Current);
}
