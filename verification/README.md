# lab_builder

The logic of a tile-based level builder and of the player's keyboard, verified
with Verus.

- `src/names.rs`: the order of tile names (the order of `String`) and a
  comparison proved to follow it.
- `src/palette.rs`: the tile palette, a map from sprite names to tile
  components kept in name order; storing, looking up, listing, and filling it
  from a sprite library.
- `src/selection.rs`: the builder's keys: moving through categories and tiles
  and changing level, as a step from one selection to the next.
- `src/input.rs`: the player's keys: the tile kind to place, the direction of
  movement, the offsets of a move and of a placed tile, and the camera that
  gives the mouse its offset.
- `app/`: the Bevy plugins and systems that read input and the world, call the
  library, and spawn or move entities.
