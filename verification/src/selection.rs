use vstd::prelude::*;

verus! {

/// The tile chosen in the builder: a category of the palette and the index of
/// a tile within it.
#[derive(Debug)]
pub struct TileSelection {
    pub category: String,
    pub tile: usize,
}

/// The builder keys pressed during one frame.
#[derive(Clone, Copy, Debug, PartialEq, Eq, Structural)]
pub struct BuilderKeys {
    /// Apostrophe: the next category.
    pub next_category: bool,
    /// Semicolon: the previous category.
    pub previous_category: bool,
    /// Right bracket: the next tile of the category.
    pub next_tile: bool,
    /// Left bracket: the previous tile of the category.
    pub previous_tile: bool,
    /// Plus: one level up.
    pub raise_level: bool,
    /// Minus: one level down.
    pub lower_level: bool,
}

/// What the builder has to do after the keys of a frame were handled.
#[derive(Clone, Copy, Debug, PartialEq, Eq, Structural)]
pub enum BuilderAction {
    /// Nothing more.
    Nothing,
    /// Replace the tile under the mouse by the selected tile.
    ShowTile,
    /// Put tiles one level higher.
    RaiseLevel,
    /// Put tiles one level lower.
    LowerLevel,
}

/// The names of the categories.
pub open spec fn category_names(cats: Seq<String>) -> Seq<Seq<char>> {
    cats.map_values(|s: String| s@)
}

/// `i` is the first place of `c` in `cats`.
pub open spec fn is_first_index(cats: Seq<Seq<char>>, c: Seq<char>, i: int) -> bool {
    &&& 0 <= i < cats.len()
    &&& cats[i] == c
    &&& forall|j: int| 0 <= j < i ==> cats[j] != c
}

/// The first place of `c` in `cats`.
pub open spec fn first_index(cats: Seq<Seq<char>>, c: Seq<char>) -> int {
    choose|i: int| is_first_index(cats, c, i)
}

/// The category after `c`, wrapping round at the end.
pub open spec fn next_category(cats: Seq<Seq<char>>, c: Seq<char>) -> Seq<char> {
    cats[(first_index(cats, c) + 1) % (cats.len() as int)]
}

/// The category before `c`, wrapping round at the start.
pub open spec fn previous_category(cats: Seq<Seq<char>>, c: Seq<char>) -> Seq<char> {
    let p = first_index(cats, c);
    if p != 0 {
        cats[p - 1]
    } else {
        cats[cats.len() - 1]
    }
}

/// The tile after `tile` in a category of `count` tiles, wrapping round.
pub open spec fn next_tile(tile: int, count: int) -> int {
    (tile + 1) % count
}

/// The tile before `tile`; the first tile stays.
pub open spec fn previous_tile(tile: int) -> int {
    if tile != 0 {
        tile - 1
    } else {
        tile
    }
}

/// The category once the category keys were handled.
pub open spec fn category_after_keys(
    category: Seq<char>,
    keys: BuilderKeys,
    cats: Seq<Seq<char>>,
) -> Seq<char> {
    let c1 = if keys.next_category {
        next_category(cats, category)
    } else {
        category
    };
    if keys.previous_category {
        previous_category(cats, c1)
    } else {
        c1
    }
}

/// The tile once the category keys were handled: a new category starts at
/// its first tile.
pub open spec fn tile_after_category_keys(tile: int, keys: BuilderKeys) -> int {
    if keys.next_category || keys.previous_category {
        0
    } else {
        tile
    }
}

/// The number of tiles of category `c`.
pub open spec fn tile_count(cats: Seq<Seq<char>>, counts: Seq<usize>, c: Seq<char>) -> int {
    counts[first_index(cats, c)] as int
}

/// The selection and action after one frame of builder keys.
pub open spec fn builder_step(
    category: Seq<char>,
    tile: int,
    keys: BuilderKeys,
    cats: Seq<Seq<char>>,
    counts: Seq<usize>,
) -> (Seq<char>, int, BuilderAction) {
    let c = category_after_keys(category, keys, cats);
    let t = tile_after_category_keys(tile, keys);
    if keys.next_tile {
        (c, next_tile(t, tile_count(cats, counts, c)), BuilderAction::ShowTile)
    } else if keys.previous_tile {
        (c, previous_tile(t), BuilderAction::ShowTile)
    } else if keys.raise_level {
        (c, t, BuilderAction::RaiseLevel)
    } else if keys.lower_level {
        (c, t, BuilderAction::LowerLevel)
    } else {
        (c, t, BuilderAction::Nothing)
    }
}

/// The frames the builder handles: the selected category is one of the
/// categories whenever a category or tile key is pressed, a category has
/// tiles when the next tile is asked for, and the previous tile of a category
/// is one of its tiles.
pub open spec fn builder_keys_accepted(
    category: Seq<char>,
    tile: int,
    keys: BuilderKeys,
    cats: Seq<Seq<char>>,
    counts: Seq<usize>,
) -> bool {
    let c = category_after_keys(category, keys, cats);
    let t = tile_after_category_keys(tile, keys);
    &&& cats.len() == counts.len()
    &&& (keys.next_category || keys.previous_category || keys.next_tile || keys.previous_tile)
        ==> cats.contains(category)
    &&& keys.next_tile ==> tile_count(cats, counts, c) > 0
    &&& (!keys.next_tile && keys.previous_tile) ==> previous_tile(t) < tile_count(cats, counts, c)
}

/// A name that occurs in `cats` has a first place there.
pub proof fn lemma_first_index(cats: Seq<Seq<char>>, c: Seq<char>, j: int)
    requires
        0 <= j < cats.len(),
        cats[j] == c,
    ensures
        is_first_index(cats, c, first_index(cats, c)),
        first_index(cats, c) <= j,
    decreases j,
{
    if exists|k: int| 0 <= k < j && cats[k] == c {
        let k = choose|k: int| 0 <= k < j && cats[k] == c;
        lemma_first_index(cats, c, k);
    } else {
        assert(is_first_index(cats, c, j));
        lemma_first_index_unique(cats, c, j);
    }
}

/// The first place of a name is unique.
pub proof fn lemma_first_index_unique(cats: Seq<Seq<char>>, c: Seq<char>, i: int)
    requires
        is_first_index(cats, c, i),
    ensures
        first_index(cats, c) == i,
{
    let k = first_index(cats, c);
    assert(is_first_index(cats, c, k));
    if k < i {
        assert(cats[k] == c);
    } else if i < k {
        assert(cats[i] == c);
    }
}

proof fn lemma_contains_first_index(cats: Seq<Seq<char>>, c: Seq<char>)
    requires
        cats.contains(c),
    ensures
        is_first_index(cats, c, first_index(cats, c)),
{
    let j = choose|j: int| 0 <= j < cats.len() && cats[j] == c;
    lemma_first_index(cats, c, j);
}

/// Moving to the next or previous category stays among the categories.
pub proof fn lemma_category_moves_stay(cats: Seq<Seq<char>>, c: Seq<char>)
    requires
        cats.contains(c),
    ensures
        cats.contains(next_category(cats, c)),
        cats.contains(previous_category(cats, c)),
{
    lemma_contains_first_index(cats, c);
    let n = cats.len() as int;
    let p = first_index(cats, c);
    let q = (p + 1) % n;
    assert(0 <= q < n) by (nonlinear_arith)
        requires
            q == (p + 1) % n,
            n > 0,
    ;
    assert(cats[q] == next_category(cats, c));
    if p != 0 {
        assert(cats[p - 1] == previous_category(cats, c));
    } else {
        assert(cats[n - 1] == previous_category(cats, c));
    }
}

/// The first place of `c` among the categories, if it is one.
fn category_position(categories: &Vec<String>, c: &String) -> (r: Option<usize>)
    ensures
        match r {
            Some(i) => is_first_index(category_names(categories@), c@, i as int),
            None => !category_names(categories@).contains(c@),
        },
{
    let ghost cats = category_names(categories@);
    let mut i: usize = 0;
    while i < categories.len()
        invariant
            cats == category_names(categories@),
            i <= categories.len(),
            forall|j: int| 0 <= j < i ==> cats[j] != c@,
        decreases categories.len() - i,
    {
        if categories[i] == *c {
            return Some(i);
        }
        i = i + 1;
    }
    proof {
        if cats.contains(c@) {
            let j = choose|j: int| 0 <= j < cats.len() && cats[j] == c@;
            assert(cats[j] == c@);
        }
    }
    None
}

/// Whether `builder_keyboard_system` handles this frame (see
/// `builder_keys_accepted`); where it does not, the frame is one on which the
/// builder has no category or tile to go to.
pub fn builder_keys_handled(
    selection: &TileSelection,
    keys: &BuilderKeys,
    categories: &Vec<String>,
    tile_counts: &Vec<usize>,
) -> (r: bool)
    ensures
        r == builder_keys_accepted(
            selection.category@,
            selection.tile as int,
            *keys,
            category_names(categories@),
            tile_counts@,
        ),
{
    let ghost cats = category_names(categories@);
    let ghost c0 = selection.category@;
    if categories.len() != tile_counts.len() {
        return false;
    }
    if !(keys.next_category || keys.previous_category || keys.next_tile || keys.previous_tile) {
        return true;
    }
    let mut idx = match category_position(categories, &selection.category) {
        Some(p) => p,
        None => {
            return false;
        },
    };
    proof {
        lemma_first_index_unique(cats, c0, idx as int);
        lemma_category_moves_stay(cats, c0);
    }
    let n = categories.len();
    if keys.next_category {
        let next = (idx + 1) % n;
        idx = match category_position(categories, &categories[next]) {
            Some(p) => p,
            None => {
                assert(cats[next as int] == categories@[next as int]@);
                return false;
            },
        };
        proof {
            lemma_first_index_unique(cats, cats[next as int], idx as int);
        }
    }
    let ghost c1 = cats[idx as int];
    assert(c1 == (if keys.next_category {
        next_category(cats, c0)
    } else {
        c0
    }));
    assert(first_index(cats, c1) == idx);
    if keys.previous_category {
        let back = if idx != 0 {
            idx - 1
        } else {
            n - 1
        };
        idx = match category_position(categories, &categories[back]) {
            Some(p) => p,
            None => {
                assert(cats[back as int] == categories@[back as int]@);
                return false;
            },
        };
        proof {
            lemma_first_index_unique(cats, cats[back as int], idx as int);
        }
    }
    let ghost c2 = cats[idx as int];
    assert(c2 == category_after_keys(c0, *keys, cats));
    assert(first_index(cats, c2) == idx);
    let tile = if keys.next_category || keys.previous_category {
        0
    } else {
        selection.tile
    };
    let count = tile_counts[idx];
    if keys.next_tile {
        count > 0
    } else if keys.previous_tile {
        let back = if tile != 0 {
            tile - 1
        } else {
            tile
        };
        back < count
    } else {
        true
    }
}

/// Handles the builder keys of one frame: the category keys move through the
/// categories (wrapping round) and start at the first tile, then at most one
/// of next tile, previous tile, level up and level down is acted on, in that
/// order of precedence. `tile_counts[k]` is the number of tiles of
/// `categories[k]`.
pub fn builder_keyboard_system(
    selection: &mut TileSelection,
    keys: &BuilderKeys,
    categories: &Vec<String>,
    tile_counts: &Vec<usize>,
) -> (r: BuilderAction)
    requires
        builder_keys_accepted(
            old(selection).category@,
            old(selection).tile as int,
            *keys,
            category_names(categories@),
            tile_counts@,
        ),
    ensures
        (final(selection).category@, final(selection).tile as int, r) == builder_step(
            old(selection).category@,
            old(selection).tile as int,
            *keys,
            category_names(categories@),
            tile_counts@,
        ),
{
    let ghost cats = category_names(categories@);
    let ghost c0 = selection.category@;
    proof {
        if keys.next_category || keys.previous_category || keys.next_tile || keys.previous_tile {
            lemma_category_moves_stay(cats, c0);
        }
    }
    if keys.next_category {
        let pos = match category_position(categories, &selection.category) {
            Some(p) => p,
            None => {
                assert(false);
                0
            },
        };
        proof {
            lemma_first_index_unique(cats, c0, pos as int);
        }
        let n = categories.len();
        selection.tile = 0;
        let next = (pos + 1) % n;
        selection.category = categories[next].clone();
        assert(selection.category@ == cats[next as int]);
    }
    let ghost c1 = selection.category@;
    assert(c1 == (if keys.next_category {
        next_category(cats, c0)
    } else {
        c0
    }));
    if keys.previous_category {
        let pos = match category_position(categories, &selection.category) {
            Some(p) => p,
            None => {
                assert(false);
                0
            },
        };
        proof {
            lemma_first_index_unique(cats, c1, pos as int);
        }
        selection.tile = 0;
        if pos != 0 {
            selection.category = categories[pos - 1].clone();
            assert(selection.category@ == cats[pos - 1]);
        } else {
            let last = categories.len() - 1;
            selection.category = categories[last].clone();
            assert(selection.category@ == cats[last as int]);
        }
    }
    let ghost c2 = selection.category@;
    let ghost t1 = selection.tile as int;
    assert(c2 == category_after_keys(c0, *keys, cats));
    if keys.next_tile {
        let pos = match category_position(categories, &selection.category) {
            Some(p) => p,
            None => {
                assert(false);
                0
            },
        };
        proof {
            lemma_first_index_unique(cats, c2, pos as int);
        }
        let len = tile_counts[pos];
        proof {
            vstd::arithmetic::div_mod::lemma_add_mod_noop(t1, 1, len as int);
            vstd::arithmetic::div_mod::lemma_mod_bound(t1, len as int);
            if len > 1 {
                vstd::arithmetic::div_mod::lemma_small_mod(1, len as nat);
            } else {
                assert(((t1 % 1) + 1) % 1 == 0) by (nonlinear_arith);
                assert((t1 + 1) % 1 == 0) by (nonlinear_arith);
            }
        }
        selection.tile = (selection.tile % len + 1) % len;
        BuilderAction::ShowTile
    } else if keys.previous_tile {
        if selection.tile != 0 {
            selection.tile = selection.tile - 1;
        }
        BuilderAction::ShowTile
    } else if keys.raise_level {
        BuilderAction::RaiseLevel
    } else if keys.lower_level {
        BuilderAction::LowerLevel
    } else {
        BuilderAction::Nothing
    }
}

/// The category `k` steps after `c`.
pub open spec fn category_steps(cats: Seq<Seq<char>>, c: Seq<char>, k: nat) -> Seq<char>
    decreases k,
{
    if k == 0 {
        c
    } else {
        next_category(cats, category_steps(cats, c, (k - 1) as nat))
    }
}

/// With distinct categories, the previous category undoes the next one and
/// the next undoes the previous.
pub proof fn law_next_previous_category(cats: Seq<Seq<char>>, c: Seq<char>)
    requires
        cats.no_duplicates(),
        cats.contains(c),
    ensures
        previous_category(cats, next_category(cats, c)) == c,
        next_category(cats, previous_category(cats, c)) == c,
{
    lemma_contains_first_index(cats, c);
    let n = cats.len() as int;
    let p = first_index(cats, c);
    lemma_first_index_unique(cats, c, p);
    let q = (p + 1) % n;
    if p + 1 < n {
        assert(q == p + 1) by (nonlinear_arith)
            requires
                q == (p + 1) % n,
                0 <= p,
                p + 1 < n,
        ;
    } else {
        vstd::arithmetic::div_mod::lemma_mod_self_0(n);
    }
    lemma_index_of_distinct(cats, q);
    let r = if p != 0 {
        p - 1
    } else {
        n - 1
    };
    lemma_index_of_distinct(cats, r);
    let s = (r + 1) % n;
    if r + 1 < n {
        assert(s == r + 1) by (nonlinear_arith)
            requires
                s == (r + 1) % n,
                0 <= r,
                r + 1 < n,
        ;
    } else {
        vstd::arithmetic::div_mod::lemma_mod_self_0(n);
    }
}

proof fn lemma_index_of_distinct(cats: Seq<Seq<char>>, q: int)
    requires
        cats.no_duplicates(),
        0 <= q < cats.len(),
    ensures
        first_index(cats, cats[q]) == q,
{
    assert(is_first_index(cats, cats[q], q));
    lemma_first_index_unique(cats, cats[q], q);
}

proof fn lemma_category_steps(cats: Seq<Seq<char>>, c: Seq<char>, k: nat)
    requires
        cats.no_duplicates(),
        cats.contains(c),
    ensures
        category_steps(cats, c, k) == cats[(first_index(cats, c) + k) % (cats.len() as int)],
    decreases k,
{
    lemma_contains_first_index(cats, c);
    let n = cats.len() as int;
    let p = first_index(cats, c);
    if k > 0 {
        lemma_category_steps(cats, c, (k - 1) as nat);
        let q = (p + k - 1) % n;
        assert(0 <= q < n) by (nonlinear_arith)
            requires
                q == (p + k - 1) % n,
                n > 0,
        ;
        lemma_index_of_distinct(cats, q);
        vstd::arithmetic::div_mod::lemma_add_mod_noop(p + k - 1, 1, n);
        if n > 1 {
            vstd::arithmetic::div_mod::lemma_small_mod(1, n as nat);
        } else {
            assert((q + 1) % n == 0 && (p + k) % n == 0) by (nonlinear_arith)
                requires
                    n == 1,
            ;
        }
    } else {
        vstd::arithmetic::div_mod::lemma_small_mod(p as nat, n as nat);
    }
}

/// With distinct categories, moving `k` categories on from `c` lands `k`
/// places further, wrapping round; after as many moves as there are
/// categories the selection is back at `c`.
pub proof fn law_category_cycle(cats: Seq<Seq<char>>, c: Seq<char>, k: nat)
    requires
        cats.no_duplicates(),
        cats.contains(c),
    ensures
        category_steps(cats, c, k) == cats[(first_index(cats, c) + k) % (cats.len() as int)],
        category_steps(cats, c, cats.len()) == c,
{
    lemma_contains_first_index(cats, c);
    let n = cats.len() as int;
    let p = first_index(cats, c);
    lemma_category_steps(cats, c, k);
    lemma_category_steps(cats, c, cats.len());
    assert((p + n) % n == p) by (nonlinear_arith)
        requires
            0 <= p < n,
    ;
}

/// The previous tile undoes the next tile, and the next the previous, inside a
/// category of `count` tiles.
pub proof fn law_next_previous_tile(tile: int, count: int)
    ensures
        0 <= tile && tile + 1 < count ==> previous_tile(next_tile(tile, count)) == tile,
        0 < tile < count ==> next_tile(previous_tile(tile), count) == tile,
{
    if 0 <= tile && tile + 1 < count {
        vstd::arithmetic::div_mod::lemma_small_mod((tile + 1) as nat, count as nat);
    }
    if 0 < tile < count {
        vstd::arithmetic::div_mod::lemma_small_mod(tile as nat, count as nat);
    }
}

/// A frame of builder keys keeps the selection among the categories, starts a
/// changed category at its first tile, and leaves the tile inside its
/// category whenever a tile key was pressed.
pub proof fn law_builder_step_keeps_selection(
    category: Seq<char>,
    tile: int,
    keys: BuilderKeys,
    cats: Seq<Seq<char>>,
    counts: Seq<usize>,
)
    requires
        builder_keys_accepted(category, tile, keys, cats, counts),
        cats.contains(category),
        0 <= tile,
    ensures
        cats.contains(builder_step(category, tile, keys, cats, counts).0),
        (keys.next_category || keys.previous_category) && !keys.next_tile && !keys.previous_tile
            ==> builder_step(category, tile, keys, cats, counts).1 == 0,
        keys.next_tile || keys.previous_tile ==> 0 <= builder_step(category, tile, keys, cats, counts).1
            < tile_count(cats, counts, builder_step(category, tile, keys, cats, counts).0),
{
    lemma_category_moves_stay(cats, category);
    let c1 = if keys.next_category {
        next_category(cats, category)
    } else {
        category
    };
    lemma_category_moves_stay(cats, c1);
    let c = category_after_keys(category, keys, cats);
    let t = tile_after_category_keys(tile, keys);
    let n = tile_count(cats, counts, c);
    if keys.next_tile {
        vstd::arithmetic::div_mod::lemma_mod_bound(t + 1, n);
    }
}


/// Only the one key pressed.
pub open spec fn only_key(keys: BuilderKeys, next_category: bool, previous_category: bool, next_tile: bool, previous_tile: bool) -> bool {
    &&& keys.next_category == next_category
    &&& keys.previous_category == previous_category
    &&& keys.next_tile == next_tile
    &&& keys.previous_tile == previous_tile
    &&& !keys.raise_level
    &&& !keys.lower_level
}

/// The tile keys inside a category of `count` tiles whose first place among
/// the categories is `k`: the next tile of the last tile is the first, every
/// other tile is followed by the one after it; the previous tile of the first
/// is the first, every other is preceded by the one before it; the category
/// stays and the preview tile is shown.
pub proof fn law_tile_keys(
    category: Seq<char>,
    tile: int,
    keys: BuilderKeys,
    cats: Seq<Seq<char>>,
    counts: Seq<usize>,
    k: int,
)
    requires
        0 <= k < cats.len(),
        cats.len() == counts.len(),
        cats[k] == category,
        forall|j: int| 0 <= j < k ==> cats[j] != category,
        counts[k] > 0,
        0 <= tile < counts[k],
    ensures
        only_key(keys, false, false, true, false) ==> builder_step(category, tile, keys, cats, counts)
            == (category, if tile + 1 == counts[k] as int { 0int } else { tile + 1 }, BuilderAction::ShowTile),
        only_key(keys, false, false, false, true) ==> builder_step(category, tile, keys, cats, counts)
            == (category, if tile == 0 { 0int } else { tile - 1 }, BuilderAction::ShowTile),
        only_key(keys, false, false, true, false) && tile + 1 == counts[k] as int ==> builder_step(
            category,
            tile,
            keys,
            cats,
            counts,
        ).1 == 0,
        only_key(keys, false, false, true, false) ==> builder_keys_accepted(category, tile, keys, cats, counts),
        only_key(keys, false, false, false, true) ==> builder_keys_accepted(category, tile, keys, cats, counts),
{
    assert(is_first_index(cats, category, k));
    lemma_first_index_unique(cats, category, k);
    assert(cats.contains(category));
    let n = counts[k] as int;
    if tile + 1 == n {
        vstd::arithmetic::div_mod::lemma_mod_self_0(n);
    } else {
        vstd::arithmetic::div_mod::lemma_small_mod((tile + 1) as nat, n as nat);
    }
}

/// The next tile is always a tile of the category; inside the category it is
/// the one after, and after the last it is the first.
pub proof fn law_next_tile_wraps(tile: int, count: int)
    requires
        count > 0,
        tile >= 0,
    ensures
        0 <= next_tile(tile, count) < count,
        next_tile(count - 1, count) == 0,
        tile + 1 < count ==> next_tile(tile, count) == tile + 1,
{
    vstd::arithmetic::div_mod::lemma_mod_self_0(count);
    vstd::arithmetic::div_mod::lemma_mod_bound(tile + 1, count);
    if tile + 1 < count {
        vstd::arithmetic::div_mod::lemma_small_mod((tile + 1) as nat, count as nat);
    }
}

/// The category keys with categories `cats` and `category` first at place
/// `k`: the next category is the one at place `k + 1`, or the first after the
/// last; the previous is the one at place `k - 1`, or the last before the
/// first; either starts at the first tile.
pub proof fn law_category_keys(
    category: Seq<char>,
    tile: int,
    keys: BuilderKeys,
    cats: Seq<Seq<char>>,
    counts: Seq<usize>,
    k: int,
)
    requires
        0 <= k < cats.len(),
        cats.len() == counts.len(),
        cats[k] == category,
        forall|j: int| 0 <= j < k ==> cats[j] != category,
    ensures
        only_key(keys, true, false, false, false) ==> builder_step(category, tile, keys, cats, counts)
            == (if k + 1 < cats.len() { cats[k + 1] } else { cats[0] }, 0int, BuilderAction::Nothing),
        only_key(keys, false, true, false, false) ==> builder_step(category, tile, keys, cats, counts)
            == (if k > 0 { cats[k - 1] } else { cats[cats.len() - 1] }, 0int, BuilderAction::Nothing),
        only_key(keys, true, false, false, false) ==> builder_keys_accepted(category, tile, keys, cats, counts),
        only_key(keys, false, true, false, false) ==> builder_keys_accepted(category, tile, keys, cats, counts),
{
    assert(is_first_index(cats, category, k));
    lemma_first_index_unique(cats, category, k);
    law_frames_without_tile_keys_accepted(category, tile, keys, cats, counts);
    let n = cats.len() as int;
    if k + 1 < n {
        vstd::arithmetic::div_mod::lemma_small_mod((k + 1) as nat, n as nat);
    } else {
        vstd::arithmetic::div_mod::lemma_mod_self_0(n);
    }
}

/// Every frame without a tile key whose category is one of the categories,
/// with a count for each category, is handled.
pub proof fn law_frames_without_tile_keys_accepted(
    category: Seq<char>,
    tile: int,
    keys: BuilderKeys,
    cats: Seq<Seq<char>>,
    counts: Seq<usize>,
)
    ensures
        cats.len() == counts.len() && cats.contains(category) && !keys.next_tile && !keys.previous_tile
            ==> builder_keys_accepted(category, tile, keys, cats, counts),
{
}

} // verus!
