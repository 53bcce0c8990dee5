use vstd::prelude::*;

verus! {

/// The direction in which the player moves during one frame.
#[derive(Clone, Copy, Debug, PartialEq, Eq, Structural)]
pub enum Direction {
    Left,
    Up,
    Down,
    Right,
    Stationary,
}

/// The kind of tile that is placed. A wall chosen from the keyboard has
/// hardness 1; a floor has none.
#[derive(Clone, Copy, Debug, PartialEq, Eq, Structural)]
pub enum TileType {
    Wall,
    Floor,
}

/// The kind of tile that the player places next.
#[derive(Clone, Copy, Debug, PartialEq, Eq, Structural)]
pub struct SelectedTile {
    pub tile_type: TileType,
}

impl Default for SelectedTile {
    /// A wall is selected at first.
    fn default() -> (r: SelectedTile)
        ensures
            r.tile_type == TileType::Wall,
    {
        SelectedTile { tile_type: TileType::Wall }
    }
}

/// The keys of the player's keyboard pressed during one frame.
#[derive(Clone, Copy, Debug, PartialEq, Eq, Structural)]
pub struct InputKeys {
    /// Right bracket: select walls.
    pub wall: bool,
    /// Left bracket: select floors.
    pub floor: bool,
    /// W.
    pub up: bool,
    /// S.
    pub down: bool,
    /// A.
    pub left: bool,
    /// D.
    pub right: bool,
}

/// Pixels the player travels for one key press.
pub const PLAYER_SPEED: i32 = 48;

/// The tile kind selected after a frame: floor wins over wall.
pub open spec fn selected_after(tile_type: TileType, keys: InputKeys) -> TileType {
    if keys.floor {
        TileType::Floor
    } else if keys.wall {
        TileType::Wall
    } else {
        tile_type
    }
}

/// The movement of a frame: D wins over A, A over S, S over W.
pub open spec fn movement_of(keys: InputKeys) -> Direction {
    if keys.right {
        Direction::Right
    } else if keys.left {
        Direction::Left
    } else if keys.down {
        Direction::Down
    } else if keys.up {
        Direction::Up
    } else {
        Direction::Stationary
    }
}

/// The displacement of the player, in pixels, for one movement.
pub open spec fn spec_movement_offset(dir: Direction) -> (int, int) {
    match dir {
        Direction::Up => (0, PLAYER_SPEED as int),
        Direction::Down => (0, -PLAYER_SPEED),
        Direction::Left => (-PLAYER_SPEED, 0),
        Direction::Right => (PLAYER_SPEED as int, 0),
        Direction::Stationary => (0, 0),
    }
}

/// Where, in tiles from the player's cell, a tile placed with F2 goes for the
/// direction of the player's last move.
pub open spec fn spec_placement_offset(dir: Direction) -> (int, int) {
    match dir {
        Direction::Left => (-1, 0),
        Direction::Up => (1, 0),
        Direction::Down => (0, -1),
        Direction::Right => (0, 1),
        Direction::Stationary => (1, 0),
    }
}

/// Handles the player's keys of one frame: updates the selected tile kind
/// and returns the direction in which the player moves.
pub fn keyboard_input_system(selected_tile: &mut SelectedTile, keys: &InputKeys) -> (r: Direction)
    ensures
        final(selected_tile).tile_type == selected_after(old(selected_tile).tile_type, *keys),
        r == movement_of(*keys),
{
    let mut movement = Direction::Stationary;
    if keys.wall {
        selected_tile.tile_type = TileType::Wall;
    }
    if keys.floor {
        selected_tile.tile_type = TileType::Floor;
    }
    if keys.up {
        movement = Direction::Up;
    }
    if keys.down {
        movement = Direction::Down;
    }
    if keys.left {
        movement = Direction::Left;
    }
    if keys.right {
        movement = Direction::Right;
    }
    movement
}

/// How far, in pixels, the player moves in `dir` during one frame.
pub fn movement_offset(dir: Direction) -> (r: (i32, i32))
    ensures
        (r.0 as int, r.1 as int) == spec_movement_offset(dir),
{
    match dir {
        Direction::Up => (0, PLAYER_SPEED),
        Direction::Down => (0, -PLAYER_SPEED),
        Direction::Left => (-PLAYER_SPEED, 0),
        Direction::Right => (PLAYER_SPEED, 0),
        Direction::Stationary => (0, 0),
    }
}

/// Where, in tiles from the player's cell, a tile placed with F2 goes.
pub fn placement_offset(dir: Direction) -> (r: (i32, i32))
    ensures
        (r.0 as int, r.1 as int) == spec_placement_offset(dir),
{
    match dir {
        Direction::Left => (-1, 0),
        Direction::Up => (1, 0),
        Direction::Down => (0, -1),
        Direction::Right => (0, 1),
        Direction::Stationary => (1, 0),
    }
}

/// The camera is named "UiCamera".
pub open spec fn is_ui_camera(name: Option<String>) -> bool {
    name matches Some(n) && n@ == "UiCamera"@
}

/// `i` is the last place of a camera named "UiCamera".
pub open spec fn is_last_ui_camera(names: Seq<Option<String>>, i: int) -> bool {
    &&& 0 <= i < names.len()
    &&& is_ui_camera(names[i])
    &&& forall|j: int|
        i < j < names.len() ==> !is_ui_camera(#[trigger] names[j])
}

/// The camera whose place gives the offset of the mouse: the last one named
/// "UiCamera", if there is one. `names[i]` is the name of camera `i`.
pub fn ui_camera_index(names: &Vec<Option<String>>) -> (r: Option<usize>)
    ensures
        match r {
            Some(i) => is_last_ui_camera(names@, i as int),
            None => forall|j: int|
                0 <= j < names@.len() ==> !is_ui_camera(#[trigger] names@[j]),
        },
{
    let ui = String::from_str("UiCamera");
    let mut found: Option<usize> = None;
    let mut i: usize = 0;
    while i < names.len()
        invariant
            ui@ == "UiCamera"@,
            i <= names.len(),
            match found {
                Some(k) => is_last_ui_camera(names@.take(i as int), k as int),
                None => forall|j: int|
                    0 <= j < i ==> !is_ui_camera(#[trigger] names@[j]),
            },
        decreases names.len() - i,
    {
        let is_ui = match &names[i] {
            Some(n) => *n == ui,
            None => false,
        };
        if is_ui {
            found = Some(i);
        }
        i = i + 1;
    }
    assert(names@.take(names.len() as int) =~= names@);
    found
}

/// A move followed by the move in the opposite direction brings the player
/// back; standing still does not move the player; every other move is one
/// step of 48 pixels along one axis.
pub proof fn law_opposite_moves_cancel()
    ensures
        spec_movement_offset(Direction::Up).0 + spec_movement_offset(Direction::Down).0 == 0,
        spec_movement_offset(Direction::Up).1 + spec_movement_offset(Direction::Down).1 == 0,
        spec_movement_offset(Direction::Left).0 + spec_movement_offset(Direction::Right).0 == 0,
        spec_movement_offset(Direction::Left).1 + spec_movement_offset(Direction::Right).1 == 0,
        spec_movement_offset(Direction::Stationary) == (0int, 0int),
        forall|d: Direction|
            d != Direction::Stationary ==> {
                let o = #[trigger] spec_movement_offset(d);
                (o.0 == 0 && (o.1 == 48 || o.1 == -48)) || (o.1 == 0 && (o.0 == 48 || o.0 == -48))
            },
{
}

/// Without a bracket key the selected tile kind stays; with both, floor is
/// selected.
pub proof fn law_selection_keys(tile_type: TileType, keys: InputKeys)
    ensures
        !keys.wall && !keys.floor ==> selected_after(tile_type, keys) == tile_type,
        keys.floor ==> selected_after(tile_type, keys) == TileType::Floor,
        keys.wall && !keys.floor ==> selected_after(tile_type, keys) == TileType::Wall,
{
}


/// The movement keys in the order in which they are read, each later one
/// overriding: D wins; A wins unless D is pressed; S wins unless A or D is;
/// W only counts alone; no key is no movement. The bracket keys never move
/// the player.
pub proof fn law_movement_priority(keys: InputKeys)
    ensures
        keys.right ==> movement_of(keys) == Direction::Right,
        keys.left && !keys.right ==> movement_of(keys) == Direction::Left,
        keys.down && !keys.left && !keys.right ==> movement_of(keys) == Direction::Down,
        keys.up && !keys.down && !keys.left && !keys.right ==> movement_of(keys) == Direction::Up,
        !keys.up && !keys.down && !keys.left && !keys.right ==> movement_of(keys) == Direction::Stationary,
        movement_of(keys) == movement_of(InputKeys { wall: !keys.wall, floor: !keys.floor, ..keys }),
{
}

/// Only a camera named exactly "UiCamera" gives the mouse its offset: the
/// chosen camera has that name, no later camera has it, and a camera without a
/// name or with another name is never chosen.
pub proof fn law_ui_camera_named(names: Seq<Option<String>>, i: int, n: String)
    ensures
        is_ui_camera(Some(n)) <==> n@ == "UiCamera"@,
        !is_ui_camera(None),
        is_last_ui_camera(names, i) ==> (names[i] is Some && names[i]->0@ == "UiCamera"@),
        is_last_ui_camera(names, i) ==> forall|j: int|
            i < j < names.len() ==> !(#[trigger] names[j] is Some && names[j]->0@ == "UiCamera"@),
{
    if is_last_ui_camera(names, i) {
        assert forall|j: int| i < j < names.len() implies !(#[trigger] names[j] is Some && names[j]->0@ == "UiCamera"@) by {
            assert(!is_ui_camera(names[j]));
        }
    }
}


/// Up and Right move towards larger coordinates, Down and Left towards
/// smaller ones, on the y axis for Up and Down and on the x axis for Left and
/// Right; a tile placed with F2 lands on a neighbouring cell, one tile along
/// one axis.
pub proof fn law_move_directions(d: Direction)
    ensures
        spec_movement_offset(Direction::Up).0 == 0 && spec_movement_offset(Direction::Up).1 > 0,
        spec_movement_offset(Direction::Down).0 == 0 && spec_movement_offset(Direction::Down).1 < 0,
        spec_movement_offset(Direction::Left).1 == 0 && spec_movement_offset(Direction::Left).0 < 0,
        spec_movement_offset(Direction::Right).1 == 0 && spec_movement_offset(Direction::Right).0 > 0,
        ({
            let o = spec_placement_offset(d);
            (o.0 == 0 && (o.1 == 1 || o.1 == -1)) || (o.1 == 0 && (o.0 == 1 || o.0 == -1))
        }),
{
}

} // verus!
