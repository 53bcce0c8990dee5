use lab_builder::selection::{builder_keyboard_system, builder_keys_handled, BuilderAction, BuilderKeys, TileSelection};

fn no_keys() -> BuilderKeys {
    BuilderKeys {
        next_category: false,
        previous_category: false,
        next_tile: false,
        previous_tile: false,
        raise_level: false,
        lower_level: false,
    }
}

fn categories() -> Vec<String> {
    vec!["walls".to_string(), "floors".to_string(), "props".to_string()]
}

fn counts() -> Vec<usize> {
    vec![4, 2, 1]
}

fn select(category: &str, tile: usize) -> TileSelection {
    TileSelection { category: category.to_string(), tile }
}

#[test]
fn next_category_starts_at_first_tile() {
    let mut s = select("walls", 3);
    let r = builder_keyboard_system(&mut s, &BuilderKeys { next_category: true, ..no_keys() }, &categories(), &counts());
    assert_eq!(r, BuilderAction::Nothing);
    assert_eq!(s.category, "floors");
    assert_eq!(s.tile, 0);
}

#[test]
fn next_category_wraps_round() {
    let mut s = select("props", 0);
    builder_keyboard_system(&mut s, &BuilderKeys { next_category: true, ..no_keys() }, &categories(), &counts());
    assert_eq!(s.category, "walls");
}

#[test]
fn previous_category_wraps_round() {
    let mut s = select("walls", 2);
    builder_keyboard_system(&mut s, &BuilderKeys { previous_category: true, ..no_keys() }, &categories(), &counts());
    assert_eq!(s.category, "props");
    assert_eq!(s.tile, 0);
    builder_keyboard_system(&mut s, &BuilderKeys { previous_category: true, ..no_keys() }, &categories(), &counts());
    assert_eq!(s.category, "floors");
}

#[test]
fn next_then_previous_category_in_one_frame_returns() {
    let mut s = select("floors", 1);
    let keys = BuilderKeys { next_category: true, previous_category: true, ..no_keys() };
    builder_keyboard_system(&mut s, &keys, &categories(), &counts());
    assert_eq!(s.category, "floors");
    assert_eq!(s.tile, 0);
}

#[test]
fn cycling_through_all_categories_returns() {
    let mut s = select("floors", 0);
    for _ in 0..3 {
        builder_keyboard_system(&mut s, &BuilderKeys { next_category: true, ..no_keys() }, &categories(), &counts());
    }
    assert_eq!(s.category, "floors");
}

#[test]
fn next_tile_wraps_within_category() {
    let mut s = select("walls", 2);
    let keys = BuilderKeys { next_tile: true, ..no_keys() };
    assert_eq!(builder_keyboard_system(&mut s, &keys, &categories(), &counts()), BuilderAction::ShowTile);
    assert_eq!(s.tile, 3);
    builder_keyboard_system(&mut s, &keys, &categories(), &counts());
    assert_eq!(s.tile, 0);
}

#[test]
fn next_tile_from_out_of_range_index() {
    let mut s = select("floors", 7);
    builder_keyboard_system(&mut s, &BuilderKeys { next_tile: true, ..no_keys() }, &categories(), &counts());
    assert_eq!(s.tile, 0);
    let mut s = select("walls", usize::MAX);
    builder_keyboard_system(&mut s, &BuilderKeys { next_tile: true, ..no_keys() }, &categories(), &counts());
    assert_eq!(s.tile, 0);
}

#[test]
fn previous_tile_stops_at_first() {
    let mut s = select("walls", 1);
    let keys = BuilderKeys { previous_tile: true, ..no_keys() };
    assert_eq!(builder_keyboard_system(&mut s, &keys, &categories(), &counts()), BuilderAction::ShowTile);
    assert_eq!(s.tile, 0);
    builder_keyboard_system(&mut s, &keys, &categories(), &counts());
    assert_eq!(s.tile, 0);
}

#[test]
fn next_then_previous_tile_returns() {
    let mut s = select("walls", 1);
    builder_keyboard_system(&mut s, &BuilderKeys { next_tile: true, ..no_keys() }, &categories(), &counts());
    builder_keyboard_system(&mut s, &BuilderKeys { previous_tile: true, ..no_keys() }, &categories(), &counts());
    assert_eq!(s.tile, 1);
}

#[test]
fn next_tile_wins_over_previous_tile_and_levels() {
    let mut s = select("walls", 0);
    let keys = BuilderKeys { next_tile: true, previous_tile: true, raise_level: true, lower_level: true, ..no_keys() };
    assert_eq!(builder_keyboard_system(&mut s, &keys, &categories(), &counts()), BuilderAction::ShowTile);
    assert_eq!(s.tile, 1);
}

#[test]
fn tile_keys_use_the_new_category() {
    let mut s = select("walls", 3);
    let keys = BuilderKeys { next_category: true, next_tile: true, ..no_keys() };
    builder_keyboard_system(&mut s, &keys, &categories(), &counts());
    assert_eq!(s.category, "floors");
    assert_eq!(s.tile, 1);
}

#[test]
fn level_keys() {
    let mut s = select("walls", 2);
    let up = BuilderKeys { raise_level: true, ..no_keys() };
    let down = BuilderKeys { lower_level: true, ..no_keys() };
    let both = BuilderKeys { raise_level: true, lower_level: true, ..no_keys() };
    assert_eq!(builder_keyboard_system(&mut s, &up, &categories(), &counts()), BuilderAction::RaiseLevel);
    assert_eq!(builder_keyboard_system(&mut s, &down, &categories(), &counts()), BuilderAction::LowerLevel);
    assert_eq!(builder_keyboard_system(&mut s, &both, &categories(), &counts()), BuilderAction::RaiseLevel);
    assert_eq!(s.tile, 2);
    assert_eq!(s.category, "walls");
}

#[test]
fn no_keys_change_nothing_even_for_unknown_category() {
    let mut s = select("unknown", 5);
    assert_eq!(builder_keyboard_system(&mut s, &no_keys(), &categories(), &counts()), BuilderAction::Nothing);
    assert_eq!(s.category, "unknown");
    assert_eq!(s.tile, 5);
}

#[test]
fn duplicate_categories_use_first_place() {
    let cats = vec!["a".to_string(), "b".to_string(), "a".to_string(), "c".to_string()];
    let cnt = vec![1, 1, 1, 1];
    let mut s = select("a", 0);
    builder_keyboard_system(&mut s, &BuilderKeys { next_category: true, ..no_keys() }, &cats, &cnt);
    assert_eq!(s.category, "b");
    builder_keyboard_system(&mut s, &BuilderKeys { next_category: true, ..no_keys() }, &cats, &cnt);
    assert_eq!(s.category, "a");
    builder_keyboard_system(&mut s, &BuilderKeys { next_category: true, ..no_keys() }, &cats, &cnt);
    assert_eq!(s.category, "b");
}

#[test]
fn handled_frames() {
    let cats = categories();
    let cnt = counts();
    assert!(builder_keys_handled(&select("walls", 0), &no_keys(), &cats, &cnt));
    assert!(builder_keys_handled(&select("unknown", 0), &no_keys(), &cats, &cnt));
    assert!(!builder_keys_handled(&select("unknown", 0), &BuilderKeys { next_tile: true, ..no_keys() }, &cats, &cnt));
    assert!(!builder_keys_handled(&select("unknown", 0), &BuilderKeys { next_category: true, ..no_keys() }, &cats, &cnt));
    assert!(builder_keys_handled(&select("props", 0), &BuilderKeys { next_tile: true, ..no_keys() }, &cats, &cnt));
    assert!(!builder_keys_handled(&select("floors", 5), &BuilderKeys { previous_tile: true, ..no_keys() }, &cats, &cnt));
    assert!(builder_keys_handled(&select("floors", 2), &BuilderKeys { previous_tile: true, ..no_keys() }, &cats, &cnt));
    assert!(builder_keys_handled(&select("floors", 5), &BuilderKeys { next_category: true, previous_tile: true, ..no_keys() }, &cats, &cnt));
    let empty = vec![4, 0, 1];
    assert!(!builder_keys_handled(&select("walls", 0), &BuilderKeys { next_category: true, next_tile: true, ..no_keys() }, &cats, &empty));
    assert!(!builder_keys_handled(&select("walls", 0), &no_keys(), &cats, &vec![1]));
}
