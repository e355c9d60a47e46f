use vstd::prelude::*;

use crate::identifier::{fresh_uuid, Identifier};

verus! {

/// The face colors of a tile. `Joker` is reserved for the joker tile itself.
#[derive(PartialEq, Eq, Hash, Clone, Copy, Debug, Structural)]
pub enum Color {
    Blue,
    Red,
    Orange,
    Black,
    Joker,
}

#[derive(PartialEq, Eq, Clone, Copy, Debug, Structural)]
pub enum TileError {
    IllegalTile,
}

/// A numbered, colored tile with a unique identity. Immutable once created:
/// after construction a tile only moves between containers.
#[derive(Clone, Copy, Eq, PartialEq, Debug, Structural)]
pub struct Tile {
    pub id: u128,
    pub value: u8,
    pub color: Color,
}

/// The only legal tiles: the joker (value 0, color Joker), or a numbered tile
/// with value in 1..=13 and a non-joker color.
pub open spec fn legal_tile(value: u8, color: Color) -> bool {
    (value == 0 && color == Color::Joker) || (color != Color::Joker && 1 <= value <= 13)
}

impl Tile {
    pub open spec fn spec_is_joker(self) -> bool {
        self.value == 0 && self.color == Color::Joker
    }

    pub open spec fn spec_is_valid(self) -> bool {
        legal_tile(self.value, self.color)
    }

    /// Builds a tile with a freshly generated identity; fails unless the
    /// joker invariant or the numbered-tile range invariant holds.
    pub fn new(value: u8, color: Color) -> (r: Result<Self, TileError>)
        ensures
            match r {
                Ok(t) => legal_tile(value, color) && t.value == value && t.color == color
                    && t.spec_is_valid(),
                Err(e) => !legal_tile(value, color) && e == TileError::IllegalTile,
            },
    {
        let t = Tile { id: fresh_uuid(), value, color };
        if t.is_valid() {
            Ok(t)
        } else {
            Err(TileError::IllegalTile)
        }
    }

    pub fn is_joker(&self) -> (r: bool)
        ensures
            r == self.spec_is_joker(),
    {
        self.value == 0 && matches!(self.color, Color::Joker)
    }

    /// A tile is valid iff (value = 0 and color = Joker) or
    /// (1 <= value <= 13 and color is not Joker).
    pub fn is_valid(&self) -> (r: bool)
        ensures
            r == ((self.value == 0 && self.color == Color::Joker)
                || (1 <= self.value <= 13 && self.color != Color::Joker)),
            r == self.spec_is_valid(),
    {
        self.is_joker()
            || (!matches!(self.color, Color::Joker) && self.value >= 1 && self.value <= 13)
    }
}

/// The position of the first tile in `tiles` whose identity `ident` denotes,
/// or `None` when no tile matches.
pub open spec fn first_match(tiles: Seq<Tile>, ident: Identifier) -> Option<int>
    decreases tiles.len(),
{
    if tiles.len() == 0 {
        None
    } else if ident.spec_matches(tiles[0].id) {
        Some(0int)
    } else {
        match first_match(tiles.drop_first(), ident) {
            None => None,
            Some(i) => Some(i + 1),
        }
    }
}

/// `first_match` finds the first matching position: a `Some(k)` matches at `k`
/// and nowhere earlier, a `None` means nothing matches.
pub proof fn lemma_first_match(tiles: Seq<Tile>, ident: Identifier)
    ensures
        match first_match(tiles, ident) {
            None => forall|i: int| 0 <= i < tiles.len() ==> !ident.spec_matches(tiles[i].id),
            Some(k) => 0 <= k < tiles.len() && ident.spec_matches(tiles[k].id)
                && forall|i: int| 0 <= i < k ==> !ident.spec_matches(tiles[i].id),
        },
    decreases tiles.len(),
{
    if tiles.len() > 0 && !ident.spec_matches(tiles[0].id) {
        lemma_first_match(tiles.drop_first(), ident);
        assert forall|i: int| 1 <= i < tiles.len() implies tiles.drop_first()[i - 1] == tiles[i] by {}
    }
}

} // verus!
