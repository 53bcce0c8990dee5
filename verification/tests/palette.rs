use lab_builder::names::{compare_names, NameOrder};
use lab_builder::palette::{make_tile_palette_system, SpriteInfo, TileComponents, TilePalette};

/// What a tile does in these tests.
#[derive(Clone, Copy, Debug, PartialEq, Eq)]
enum Interaction {
    Passable,
    Blocking(u32),
}

fn sprite(name: &str) -> SpriteInfo {
    SpriteInfo { name: name.to_string() }
}

fn tile(name: &str, code: u32) -> TileComponents<Interaction> {
    TileComponents { sprite: sprite(name), interaction: Interaction::Blocking(code) }
}

fn names(p: &TilePalette<Interaction>) -> Vec<String> {
    p.tile_names().into_iter().cloned().collect()
}

#[test]
fn empty_palette_has_nothing() {
    let p: TilePalette<Interaction> = TilePalette::new();
    assert!(p.tile_names().is_empty());
    assert!(p.iter().is_empty());
    assert_eq!(p.get_interaction("wall".to_string()), None);
}

#[test]
fn update_then_lookup_gives_interaction() {
    let mut p = TilePalette::new();
    p.update(&tile("wall", 3));
    assert_eq!(p.get_interaction("wall".to_string()), Some(Interaction::Blocking(3)));
    assert_eq!(p.get_interaction("floor".to_string()), None);
}

#[test]
fn update_replaces_existing_entry() {
    let mut p = TilePalette::new();
    p.update(&tile("wall", 3));
    p.update(&tile("floor", 1));
    p.update(&tile("wall", 9));
    assert_eq!(p.get_interaction("wall".to_string()), Some(Interaction::Blocking(9)));
    assert_eq!(p.get_interaction("floor".to_string()), Some(Interaction::Blocking(1)));
    assert_eq!(names(&p), vec!["floor".to_string(), "wall".to_string()]);
}

#[test]
fn update_twice_is_update_once() {
    let mut once = TilePalette::new();
    once.update(&tile("door", 2));
    let mut twice = TilePalette::new();
    twice.update(&tile("door", 2));
    twice.update(&tile("door", 2));
    assert_eq!(names(&once), names(&twice));
    assert_eq!(twice.get_interaction("door".to_string()), Some(Interaction::Blocking(2)));
}

#[test]
fn names_come_in_string_order() {
    let mut p = TilePalette::new();
    for (n, c) in [("water", 1), ("Wall", 2), ("apple", 3), ("wall", 4), ("wa", 5), ("", 6)] {
        p.update(&tile(n, c));
    }
    let got = names(&p);
    let mut expected = got.clone();
    expected.sort();
    assert_eq!(got, expected);
    assert_eq!(got, vec!["", "Wall", "apple", "wa", "wall", "water"]);
    let walked: Vec<Interaction> = p.iter().into_iter().map(|t| t.interaction).collect();
    let expected: Vec<Interaction> = [6, 2, 3, 5, 4, 1].into_iter().map(Interaction::Blocking).collect();
    assert_eq!(walked, expected);
}

#[test]
fn names_order_matches_string_order_beyond_ascii() {
    let mut p = TilePalette::new();
    for n in ["zebra", "éclair", "eclair", "日本", "Ωmega"] {
        p.update(&tile(n, 0));
    }
    let got = names(&p);
    let mut expected = got.clone();
    expected.sort();
    assert_eq!(got, expected);
}

#[test]
fn compare_names_orders_like_strings() {
    let cases = [("a", "b"), ("ab", "a"), ("same", "same"), ("", "x"), ("x", ""), ("é", "z")];
    for (a, b) in cases {
        let expected = match a.cmp(b) {
            std::cmp::Ordering::Less => NameOrder::Less,
            std::cmp::Ordering::Equal => NameOrder::Equal,
            std::cmp::Ordering::Greater => NameOrder::Greater,
        };
        assert_eq!(compare_names(&a.to_string(), &b.to_string()), expected);
    }
}

#[test]
fn palette_from_library_keeps_first_sprite_and_existing_entries() {
    let mut p = TilePalette::new();
    p.update(&tile("grass", 5));
    let library = vec![sprite("stone"), sprite("grass"), sprite("sand"), sprite("stone")];
    make_tile_palette_system(&library, &mut p, Interaction::Passable);
    assert_eq!(names(&p), vec!["grass", "sand", "stone"]);
    assert_eq!(p.get_interaction("grass".to_string()), Some(Interaction::Blocking(5)));
    assert_eq!(p.get_interaction("stone".to_string()), Some(Interaction::Passable));
    assert_eq!(p.get_interaction("sand".to_string()), Some(Interaction::Passable));
}

#[test]
fn palette_from_library_twice_is_once() {
    let library = vec![sprite("b"), sprite("a"), sprite("b")];
    let mut once = TilePalette::new();
    make_tile_palette_system(&library, &mut once, Interaction::Passable);
    let mut twice = TilePalette::new();
    make_tile_palette_system(&library, &mut twice, Interaction::Passable);
    make_tile_palette_system(&library, &mut twice, Interaction::Passable);
    assert_eq!(names(&once), names(&twice));
    assert_eq!(names(&once), vec!["a", "b"]);
}

#[test]
fn palette_from_empty_library_is_unchanged() {
    let mut p = TilePalette::new();
    p.update(&tile("x", 1));
    make_tile_palette_system(&Vec::new(), &mut p, Interaction::Passable);
    assert_eq!(names(&p), vec!["x"]);
}

#[test]
fn cloned_tile_is_equal() {
    let t = tile("lava", 4);
    let c = t.clone();
    assert_eq!(c.sprite.name, "lava");
    assert_eq!(c.interaction, Interaction::Blocking(4));
}

#[test]
fn default_and_cloned_palettes() {
    let d: TilePalette<Interaction> = TilePalette::default();
    assert!(d.iter().is_empty());
    let mut p = TilePalette::new();
    p.update(&tile("b", 1));
    p.update(&tile("a", 2));
    let c = p.clone();
    assert_eq!(names(&c), vec!["a", "b"]);
    assert_eq!(c.get_interaction("a".to_string()), Some(Interaction::Blocking(2)));
}
