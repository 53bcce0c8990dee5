use vstd::prelude::*;

use crate::names::{compare_names, lemma_name_lt_irreflexive, lemma_name_lt_transitive, name_lt, NameOrder};

verus! {

/// The part of a sprite that the palette reads: its name.
#[derive(Debug)]
pub struct SpriteInfo {
    pub name: String,
}

impl Clone for SpriteInfo {
    fn clone(&self) -> (r: SpriteInfo)
        ensures
            r == *self,
    {
        SpriteInfo { name: self.name.clone() }
    }
}

/// The components of a tile, kept in the palette under the sprite's name;
/// `interaction` says what the tile does when something meets it.
#[derive(Debug)]
pub struct TileComponents<I> {
    pub sprite: SpriteInfo,
    pub interaction: I,
}

impl<I: Copy> Clone for TileComponents<I> {
    fn clone(&self) -> (r: TileComponents<I>)
        ensures
            r == *self,
    {
        TileComponents { sprite: self.sprite.clone(), interaction: self.interaction }
    }
}

/// The key under which a tile is kept.
pub open spec fn entry_name<I>(c: TileComponents<I>) -> Seq<char> {
    c.sprite.name@
}

/// The components a fresh palette entry gets for a sprite.
pub open spec fn tile_for_sprite<I>(sprite: SpriteInfo, interaction: I) -> TileComponents<I> {
    TileComponents { sprite, interaction }
}

/// Entries in strictly increasing name order (so no name twice).
pub open spec fn names_sorted<I>(s: Seq<TileComponents<I>>) -> bool {
    forall|i: int, j: int|
        0 <= i < j < s.len() ==> name_lt(#[trigger] entry_name(s[i]), #[trigger] entry_name(s[j]))
}

/// The map from names to components that a sequence of entries stands for.
pub open spec fn entries_map<I>(s: Seq<TileComponents<I>>) -> Map<Seq<char>, TileComponents<I>> {
    Map::new(
        |k: Seq<char>| exists|i: int| 0 <= i < s.len() && #[trigger] entry_name(s[i]) == k,
        |k: Seq<char>| s[choose|i: int| 0 <= i < s.len() && #[trigger] entry_name(s[i]) == k],
    )
}

/// The interaction stored under `name`, if any.
pub open spec fn interaction_of<I>(m: Map<Seq<char>, TileComponents<I>>, name: Seq<char>) -> Option<I> {
    if m.dom().contains(name) {
        Some(m[name].interaction)
    } else {
        None
    }
}

/// A palette after `comp` was stored under its sprite's name.
pub open spec fn updated<I>(m: Map<Seq<char>, TileComponents<I>>, comp: TileComponents<I>) -> Map<
    Seq<char>,
    TileComponents<I>,
> {
    m.insert(entry_name(comp), comp)
}

/// A palette after one sprite of the library was offered to it: a name that
/// is already there keeps its entry.
pub open spec fn with_sprite<I>(
    m: Map<Seq<char>, TileComponents<I>>,
    sprite: SpriteInfo,
    interaction: I,
) -> Map<
    Seq<char>,
    TileComponents<I>,
> {
    if m.dom().contains(sprite.name@) {
        m
    } else {
        m.insert(sprite.name@, tile_for_sprite(sprite, interaction))
    }
}

/// A palette after the sprites of a library were offered to it in order.
pub open spec fn with_sprites<I>(
    m: Map<Seq<char>, TileComponents<I>>,
    sprites: Seq<SpriteInfo>,
    interaction: I,
) -> Map<
    Seq<char>,
    TileComponents<I>,
>
    decreases sprites.len(),
{
    if sprites.len() == 0 {
        m
    } else {
        with_sprite(with_sprites(m, sprites.drop_last(), interaction), sprites.last(), interaction)
    }
}

/// In a sorted sequence of entries, an entry is what its name maps to.
pub proof fn lemma_entries_map_index<I>(s: Seq<TileComponents<I>>, i: int)
    requires
        names_sorted(s),
        0 <= i < s.len(),
    ensures
        entries_map(s).dom().contains(entry_name(s[i])),
        entries_map(s)[entry_name(s[i])] == s[i],
{
    let k = entry_name(s[i]);
    assert(entries_map(s).dom().contains(k));
    let j = choose|j: int| 0 <= j < s.len() && #[trigger] entry_name(s[j]) == k;
    lemma_name_lt_irreflexive(k);
    if j < i {
        assert(name_lt(entry_name(s[j]), entry_name(s[i])));
    } else if i < j {
        assert(name_lt(entry_name(s[i]), entry_name(s[j])));
    }
}

proof fn lemma_entries_map_set<I>(s: Seq<TileComponents<I>>, i: int, c: TileComponents<I>)
    requires
        names_sorted(s),
        0 <= i < s.len(),
        entry_name(s[i]) == entry_name(c),
    ensures
        names_sorted(s.update(i, c)),
        entries_map(s.update(i, c)) == entries_map(s).insert(entry_name(c), c),
{
    let t = s.update(i, c);
    assert(names_sorted(t)) by {
        assert forall|a: int, b: int| 0 <= a < b < t.len() implies name_lt(
            #[trigger] entry_name(t[a]),
            #[trigger] entry_name(t[b]),
        ) by {
            assert(name_lt(entry_name(s[a]), entry_name(s[b])));
        }
    }
    let m1 = entries_map(t);
    let m2 = entries_map(s).insert(entry_name(c), c);
    assert forall|k: Seq<char>| m1.dom().contains(k) <==> m2.dom().contains(k) by {
        if m1.dom().contains(k) {
            let j = choose|j: int| 0 <= j < t.len() && #[trigger] entry_name(t[j]) == k;
            if j != i {
                assert(entry_name(s[j]) == k);
            }
        }
        if m2.dom().contains(k) && k != entry_name(c) {
            let j = choose|j: int| 0 <= j < s.len() && #[trigger] entry_name(s[j]) == k;
            assert(entry_name(t[j]) == k);
        }
        if k == entry_name(c) {
            assert(entry_name(t[i]) == k);
        }
    }
    assert forall|k: Seq<char>| #[trigger] m1.dom().contains(k) implies m1[k] == m2[k] by {
        let j = choose|j: int| 0 <= j < t.len() && #[trigger] entry_name(t[j]) == k;
        lemma_entries_map_index(t, j);
        lemma_name_lt_irreflexive(k);
        if j != i {
            if j < i {
                assert(name_lt(entry_name(t[j]), entry_name(t[i])));
            } else {
                assert(name_lt(entry_name(t[i]), entry_name(t[j])));
            }
            lemma_entries_map_index(s, j);
        }
    }
    assert(m1 =~= m2);
}

proof fn lemma_entries_map_insert<I>(s: Seq<TileComponents<I>>, i: int, c: TileComponents<I>)
    requires
        names_sorted(s),
        0 <= i <= s.len(),
        forall|j: int| 0 <= j < i ==> name_lt(#[trigger] entry_name(s[j]), entry_name(c)),
        forall|j: int| i <= j < s.len() ==> name_lt(entry_name(c), #[trigger] entry_name(s[j])),
    ensures
        names_sorted(s.insert(i, c)),
        entries_map(s.insert(i, c)) == entries_map(s).insert(entry_name(c), c),
{
    let t = s.insert(i, c);
    assert(names_sorted(t)) by {
        assert forall|a: int, b: int| 0 <= a < b < t.len() implies name_lt(
            #[trigger] entry_name(t[a]),
            #[trigger] entry_name(t[b]),
        ) by {
            if b < i {
                assert(name_lt(entry_name(s[a]), entry_name(s[b])));
            } else if b == i {
            } else if a < i {
                assert(name_lt(entry_name(s[a]), entry_name(s[b - 1])));
            } else if a == i {
            } else {
                assert(name_lt(entry_name(s[a - 1]), entry_name(s[b - 1])));
            }
        }
    }
    let m1 = entries_map(t);
    let m2 = entries_map(s).insert(entry_name(c), c);
    assert forall|k: Seq<char>| m1.dom().contains(k) <==> m2.dom().contains(k) by {
        if m1.dom().contains(k) {
            let j = choose|j: int| 0 <= j < t.len() && #[trigger] entry_name(t[j]) == k;
            if j < i {
                assert(entry_name(s[j]) == k);
            } else if j > i {
                assert(entry_name(s[j - 1]) == k);
            }
        }
        if m2.dom().contains(k) && k != entry_name(c) {
            let j = choose|j: int| 0 <= j < s.len() && #[trigger] entry_name(s[j]) == k;
            if j < i {
                assert(entry_name(t[j]) == k);
            } else {
                assert(entry_name(t[j + 1]) == k);
            }
        }
        if k == entry_name(c) {
            assert(entry_name(t[i]) == k);
        }
    }
    assert forall|k: Seq<char>| #[trigger] m1.dom().contains(k) implies m1[k] == m2[k] by {
        let j = choose|j: int| 0 <= j < t.len() && #[trigger] entry_name(t[j]) == k;
        lemma_entries_map_index(t, j);
        lemma_name_lt_irreflexive(k);
        if j < i {
            assert(name_lt(entry_name(t[j]), entry_name(t[i])));
            lemma_entries_map_index(s, j);
        } else if j > i {
            assert(name_lt(entry_name(t[i]), entry_name(t[j])));
            lemma_entries_map_index(s, j - 1);
        }
    }
    assert(m1 =~= m2);
}

/// The tiles that can be placed, by sprite name, in name order.
pub struct TilePalette<I> {
    components: Vec<TileComponents<I>>,
}

impl<I: Copy> View for TilePalette<I> {
    type V = Map<Seq<char>, TileComponents<I>>;

    open spec fn view(&self) -> Map<Seq<char>, TileComponents<I>> {
        entries_map(self.entries())
    }
}

impl<I: Copy> TilePalette<I> {
    /// The entries in the order in which they are walked.
    pub closed spec fn entries(&self) -> Seq<TileComponents<I>> {
        self.components@
    }

    /// Well-formedness: entries in strictly increasing name order.
    pub closed spec fn wf(&self) -> bool {
        names_sorted(self.components@)
    }

    /// An empty palette.
    pub fn new() -> (r: TilePalette<I>)
        ensures
            r.wf(),
            r@ == Map::<Seq<char>, TileComponents<I>>::empty(),
            r.entries().len() == 0,
    {
        let r = TilePalette { components: Vec::new() };
        assert(r@ =~= Map::<Seq<char>, TileComponents<I>>::empty());
        r
    }

    /// Finds `name`: `(true, i)` where entry `i` has it, else `(false, i)` where
    /// `i` is the place at which an entry with that name belongs.
    fn find(&self, name: &String) -> (r: (bool, usize))
        requires
            self.wf(),
        ensures
            r.1 <= self.entries().len(),
            r.0 ==> r.1 < self.entries().len() && entry_name(self.entries()[r.1 as int]) == name@,
            r.0 <==> self@.dom().contains(name@),
            !r.0 ==> forall|j: int|
                0 <= j < r.1 ==> name_lt(#[trigger] entry_name(self.entries()[j]), name@),
            !r.0 ==> forall|j: int|
                r.1 <= j < self.entries().len() ==> name_lt(
                    name@,
                    #[trigger] entry_name(self.entries()[j]),
                ),
    {
        let ghost s = self.components@;
        let mut i: usize = 0;
        while i < self.components.len()
            invariant
                s == self.components@,
                names_sorted(s),
                i <= s.len(),
                forall|j: int| 0 <= j < i ==> name_lt(#[trigger] entry_name(s[j]), name@),
            decreases s.len() - i,
        {
            match compare_names(&self.components[i].sprite.name, name) {
                NameOrder::Equal => {
                    proof {
                        lemma_entries_map_index(s, i as int);
                    }
                    return (true, i);
                },
                NameOrder::Greater => {
                    proof {
                        assert forall|j: int| i <= j < s.len() implies name_lt(
                            name@,
                            #[trigger] entry_name(s[j]),
                        ) by {
                            if j > i {
                                assert(name_lt(entry_name(s[i as int]), entry_name(s[j])));
                                lemma_name_lt_transitive(name@, entry_name(s[i as int]), entry_name(s[j]));
                            }
                        }
                        self.lemma_absent(name@, i as int);
                    }
                    return (false, i);
                },
                NameOrder::Less => {},
            }
            i = i + 1;
        }
        proof {
            self.lemma_absent(name@, i as int);
        }
        (false, i)
    }

    proof fn lemma_absent(&self, name: Seq<char>, i: int)
        requires
            0 <= i <= self.entries().len(),
            forall|j: int| 0 <= j < i ==> name_lt(#[trigger] entry_name(self.entries()[j]), name),
            forall|j: int|
                i <= j < self.entries().len() ==> name_lt(name, #[trigger] entry_name(self.entries()[j])),
        ensures
            !self@.dom().contains(name),
    {
        if self@.dom().contains(name) {
            let s = self.entries();
            let j = choose|j: int| 0 <= j < s.len() && #[trigger] entry_name(s[j]) == name;
            lemma_name_lt_irreflexive(name);
        }
    }

    /// The interaction of the tile named `name`, if the palette has one.
    pub fn get_interaction(&self, name: String) -> (r: Option<I>)
        requires
            self.wf(),
        ensures
            r == interaction_of(self@, name@),
    {
        let (found, i) = self.find(&name);
        if found {
            proof {
                lemma_entries_map_index(self.components@, i as int);
            }
            Some(self.components[i].interaction)
        } else {
            None
        }
    }

    /// The names of the tiles, in increasing order.
    pub fn tile_names(&self) -> (r: Vec<&String>)
        requires
            self.wf(),
        ensures
            names_sorted(self.entries()),
            r.len() == self.entries().len(),
            forall|i: int| 0 <= i < r.len() ==> (#[trigger] r[i])@ == entry_name(self.entries()[i]),
    {
        let mut r: Vec<&String> = Vec::new();
        let mut i: usize = 0;
        while i < self.components.len()
            invariant
                i <= self.components.len(),
                r.len() == i,
                forall|j: int| 0 <= j < i ==> (#[trigger] r[j])@ == entry_name(self.components@[j]),
            decreases self.components.len() - i,
        {
            r.push(&self.components[i].sprite.name);
            i = i + 1;
        }
        r
    }

    /// The tiles, in increasing name order.
    pub fn iter(&self) -> (r: Vec<&TileComponents<I>>)
        requires
            self.wf(),
        ensures
            names_sorted(self.entries()),
            r.len() == self.entries().len(),
            forall|i: int| 0 <= i < r.len() ==> *(#[trigger] r[i]) == self.entries()[i],
    {
        let mut r: Vec<&TileComponents<I>> = Vec::new();
        let mut i: usize = 0;
        while i < self.components.len()
            invariant
                i <= self.components.len(),
                r.len() == i,
                forall|j: int| 0 <= j < i ==> *(#[trigger] r[j]) == self.components@[j],
            decreases self.components.len() - i,
        {
            r.push(&self.components[i]);
            i = i + 1;
        }
        r
    }

    /// Stores a copy of `comp` under its sprite's name, replacing what was there.
    pub fn update(&mut self, comp: &TileComponents<I>)
        requires
            old(self).wf(),
        ensures
            final(self).wf(),
            final(self)@ == updated(old(self)@, *comp),
    {
        let (found, i) = self.find(&comp.sprite.name);
        let ghost s = self.components@;
        if found {
            proof {
                lemma_entries_map_set(s, i as int, *comp);
            }
            self.components.set(i, comp.clone());
        } else {
            proof {
                lemma_entries_map_insert(s, i as int, *comp);
            }
            self.components.insert(i, comp.clone());
        }
    }
}

impl<I: Copy> Default for TilePalette<I> {
    /// An empty palette.
    fn default() -> (r: TilePalette<I>)
        ensures
            r.wf(),
            r@ == Map::<Seq<char>, TileComponents<I>>::empty(),
            r.entries().len() == 0,
    {
        TilePalette::new()
    }
}

impl<I: Copy> Clone for TilePalette<I> {
    /// A palette with the same entries.
    fn clone(&self) -> (r: TilePalette<I>)
        ensures
            r.entries() == self.entries(),
            r.wf() == self.wf(),
            r@ == self@,
    {
        let mut components: Vec<TileComponents<I>> = Vec::new();
        let mut i: usize = 0;
        while i < self.components.len()
            invariant
                i <= self.components.len(),
                components@ == self.components@.take(i as int),
            decreases self.components.len() - i,
        {
            components.push(self.components[i].clone());
            assert(self.components@.take(i + 1) =~= self.components@.take(i as int).push(self.components@[i as int]));
            i = i + 1;
        }
        assert(self.components@.take(i as int) =~= self.components@);
        TilePalette { components }
    }
}

/// Fills the palette from the sprites of a library, in the library's order: a
/// sprite whose name the palette has already keeps the entry there.
pub fn make_tile_palette_system<I: Copy>(sprites: &Vec<SpriteInfo>, palette: &mut TilePalette<I>, interaction: I)
    requires
        old(palette).wf(),
    ensures
        final(palette).wf(),
        final(palette)@ == with_sprites(old(palette)@, sprites@, interaction),
{
    let ghost m0 = palette@;
    let mut i: usize = 0;
    while i < sprites.len()
        invariant
            i <= sprites.len(),
            palette.wf(),
            palette@ == with_sprites(m0, sprites@.take(i as int), interaction),
        decreases sprites.len() - i,
    {
        assert(sprites@.take(i + 1).drop_last() =~= sprites@.take(i as int));
        let sprite = &sprites[i];
        let (found, p) = palette.find(&sprite.name);
        if !found {
            let comp = TileComponents { sprite: sprite.clone(), interaction };
            let ghost s = palette.components@;
            proof {
                lemma_entries_map_insert(s, p as int, comp);
            }
            palette.components.insert(p, comp);
        }
        i = i + 1;
    }
    assert(sprites@.take(sprites.len() as int) =~= sprites@);
}


/// After a tile is stored, looking up its name gives its interaction, and
/// looking up any other name gives what it gave before.
pub proof fn law_update_then_lookup<I>(m: Map<Seq<char>, TileComponents<I>>, comp: TileComponents<I>, name: Seq<char>)
    ensures
        interaction_of(updated(m, comp), entry_name(comp)) == Some(comp.interaction),
        name != entry_name(comp) ==> interaction_of(updated(m, comp), name) == interaction_of(m, name),
        updated(m, comp).dom() == m.dom().insert(entry_name(comp)),
{
}

/// Storing the same tile twice is storing it once.
pub proof fn law_update_idempotent<I>(m: Map<Seq<char>, TileComponents<I>>, comp: TileComponents<I>)
    ensures
        updated(updated(m, comp), comp) == updated(m, comp),
{
    assert(updated(updated(m, comp), comp) =~= updated(m, comp));
}

/// Filling a palette from a library keeps every entry it had, adds every
/// sprite name of the library and nothing else, and a new name gets the
/// first sprite of the library with that name.
pub proof fn law_sprites_fill_palette<I>(
    m: Map<Seq<char>, TileComponents<I>>,
    sprites: Seq<SpriteInfo>,
    interaction: I,
)
    ensures
        forall|k: Seq<char>|
            #[trigger] m.dom().contains(k) ==> with_sprites(m, sprites, interaction).dom().contains(k)
                && with_sprites(m, sprites, interaction)[k] == m[k],
        forall|i: int|
            0 <= i < sprites.len() ==> with_sprites(m, sprites, interaction).dom().contains(
                #[trigger] sprites[i].name@,
            ),
        forall|k: Seq<char>|
            #[trigger] with_sprites(m, sprites, interaction).dom().contains(k) ==> m.dom().contains(k) || exists|
                i: int,
            |
                0 <= i < sprites.len() && #[trigger] sprites[i].name@ == k,
        forall|i: int|
            0 <= i < sprites.len() && !m.dom().contains(#[trigger] sprites[i].name@) && (forall|
                j: int,
            |
                0 <= j < i ==> sprites[j].name@ != sprites[i].name@) ==> with_sprites(
                m,
                sprites,
                interaction,
            )[sprites[i].name@] == tile_for_sprite(sprites[i], interaction),
    decreases sprites.len(),
{
    if sprites.len() > 0 {
        let init = sprites.drop_last();
        let last = sprites.last();
        let n = sprites.len() - 1;
        law_sprites_fill_palette(m, init, interaction);
        let m1 = with_sprites(m, init, interaction);
        assert forall|i: int| 0 <= i < sprites.len() implies with_sprites(m, sprites, interaction).dom().contains(
            #[trigger] sprites[i].name@,
        ) by {
            if i < n {
                assert(init[i] == sprites[i]);
            }
        }
        assert forall|k: Seq<char>| #[trigger]
            with_sprites(m, sprites, interaction).dom().contains(k) implies m.dom().contains(k) || exists|
            i: int,
        |
            0 <= i < sprites.len() && #[trigger] sprites[i].name@ == k by {
            if m1.dom().contains(k) && !m.dom().contains(k) {
                let i = choose|i: int| 0 <= i < init.len() && #[trigger] init[i].name@ == k;
                assert(sprites[i].name@ == k);
            } else if !m1.dom().contains(k) {
                assert(sprites[n].name@ == k);
            }
        }
        assert forall|i: int|
            0 <= i < sprites.len() && !m.dom().contains(#[trigger] sprites[i].name@) && (forall|
                j: int,
            |
                0 <= j < i ==> sprites[j].name@ != sprites[i].name@) implies with_sprites(
            m,
            sprites,
            interaction,
        )[sprites[i].name@] == tile_for_sprite(sprites[i], interaction) by {
            if i < n {
                assert(init[i] == sprites[i]);
                assert forall|j: int| 0 <= j < i implies init[j].name@ != init[i].name@ by {
                    assert(init[j] == sprites[j]);
                }
            } else {
                if m1.dom().contains(last.name@) {
                    let j = choose|j: int| 0 <= j < init.len() && #[trigger] init[j].name@ == last.name@;
                    assert(sprites[j].name@ == sprites[i].name@);
                }
            }
        }
    }
}

proof fn lemma_sprites_already_there<I>(
    m: Map<Seq<char>, TileComponents<I>>,
    sprites: Seq<SpriteInfo>,
    interaction: I,
)
    requires
        forall|i: int| 0 <= i < sprites.len() ==> m.dom().contains(#[trigger] sprites[i].name@),
    ensures
        with_sprites(m, sprites, interaction) == m,
    decreases sprites.len(),
{
    if sprites.len() > 0 {
        let init = sprites.drop_last();
        assert forall|i: int| 0 <= i < init.len() implies m.dom().contains(#[trigger] init[i].name@) by {
            assert(init[i] == sprites[i]);
        }
        lemma_sprites_already_there(m, init, interaction);
        assert(m.dom().contains(sprites[sprites.len() - 1].name@));
    }
}

/// Filling a palette from the same library twice is filling it once.
pub proof fn law_sprites_idempotent<I>(
    m: Map<Seq<char>, TileComponents<I>>,
    sprites: Seq<SpriteInfo>,
    interaction: I,
)
    ensures
        with_sprites(with_sprites(m, sprites, interaction), sprites, interaction) == with_sprites(m, sprites, interaction),
{
    law_sprites_fill_palette(m, sprites, interaction);
    lemma_sprites_already_there(with_sprites(m, sprites, interaction), sprites, interaction);
}

/// A palette walked in name order lists each of its names exactly once.
pub proof fn law_names_listed_once<I>(s: Seq<TileComponents<I>>)
    requires
        names_sorted(s),
    ensures
        forall|i: int, j: int|
            0 <= i < s.len() && 0 <= j < s.len() && #[trigger] entry_name(s[i]) == #[trigger] entry_name(s[j])
                ==> i == j,
        forall|k: Seq<char>|
            #[trigger] entries_map(s).dom().contains(k) <==> exists|i: int|
                0 <= i < s.len() && #[trigger] entry_name(s[i]) == k,
{
    assert forall|i: int, j: int|
        0 <= i < s.len() && 0 <= j < s.len() && #[trigger] entry_name(s[i]) == #[trigger] entry_name(s[j])
        implies i == j by {
        lemma_name_lt_irreflexive(entry_name(s[i]));
        if i < j {
            assert(name_lt(entry_name(s[i]), entry_name(s[j])));
        } else if j < i {
            assert(name_lt(entry_name(s[j]), entry_name(s[i])));
        }
    }
}

} // verus!
