use vstd::prelude::*;

use crate::identifier::{fresh_uuid, Identifier};
use crate::tile::{first_match, lemma_first_match, Tile};

verus! {

/// A seated player: identity, display name, turn and meld flags, and a
/// private rack of tiles. Rack mutation goes through add/remove operations.
#[derive(Debug, Clone)]
pub struct Player {
    pub id: u128,
    pub display_name: String,
    pub is_turn: bool,
    pub is_post_meld: bool,
    pub rack: Vec<Tile>,
}

impl Player {
    /// A freshly seated player with an empty rack, not on turn, pre-meld.
    pub fn new(display_name: String) -> (p: Player)
        ensures
            p.display_name == display_name,
            !p.is_turn,
            !p.is_post_meld,
            p.rack@.len() == 0,
    {
        Player {
            id: fresh_uuid(),
            display_name,
            is_turn: false,
            is_post_meld: false,
            rack: Vec::new(),
        }
    }

    /// A player has won exactly when the rack is empty.
    pub fn has_won(&self) -> (r: bool)
        ensures
            r == (self.rack@.len() == 0),
    {
        self.rack.len() == 0
    }

    /// Flips the turn flag and reports the new value.
    pub fn toggle_turn(&mut self) -> (r: bool)
        ensures
            final(self).is_turn == !old(self).is_turn,
            r == final(self).is_turn,
            final(self).id == old(self).id,
            final(self).display_name == old(self).display_name,
            final(self).is_post_meld == old(self).is_post_meld,
            final(self).rack == old(self).rack,
    {
        self.is_turn = !self.is_turn;
        self.is_turn
    }

    pub fn set_rack(&mut self, rack: Vec<Tile>)
        ensures
            final(self).rack == rack,
            final(self).id == old(self).id,
            final(self).display_name == old(self).display_name,
            final(self).is_turn == old(self).is_turn,
            final(self).is_post_meld == old(self).is_post_meld,
    {
        self.rack = rack;
    }

    /// Removes the first rack tile that `tile_id` denotes and returns it,
    /// or returns nothing and leaves the rack alone when no tile matches.
    pub fn remove_tile_from_rack(&mut self, tile_id: Identifier) -> (r: Option<Tile>)
        ensures
            final(self).id == old(self).id,
            final(self).display_name == old(self).display_name,
            final(self).is_turn == old(self).is_turn,
            final(self).is_post_meld == old(self).is_post_meld,
            match first_match(old(self).rack@, tile_id) {
                None => r == None::<Tile> && final(self).rack == old(self).rack,
                Some(k) => r == Some(old(self).rack@[k])
                    && final(self).rack@ == old(self).rack@.remove(k),
            },
    {
        proof {
            lemma_first_match(self.rack@, tile_id);
        }
        let mut i: usize = 0;
        while i < self.rack.len()
            invariant
                i <= self.rack@.len(),
                *self == *old(self),
                forall|j: int| 0 <= j < i ==> !tile_id.spec_matches(self.rack@[j].id),
            decreases self.rack@.len() - i,
        {
            if tile_id.matches_id(self.rack[i].id) {
                proof {
                    lemma_first_match(self.rack@, tile_id);
                }
                let t = self.rack.remove(i);
                return Some(t);
            }
            i += 1;
        }
        None
    }

    /// The position of the first rack tile that `tile_id` denotes, without
    /// touching the rack.
    pub fn find_tile_index(&self, tile_id: &Identifier) -> (r: Option<usize>)
        ensures
            match first_match(self.rack@, *tile_id) {
                None => r == None::<usize>,
                Some(k) => r == Some(k as usize) && (k as usize) as int == k,
            },
    {
        proof {
            lemma_first_match(self.rack@, *tile_id);
        }
        let mut i: usize = 0;
        while i < self.rack.len()
            invariant
                i <= self.rack@.len(),
                forall|j: int| 0 <= j < i ==> !tile_id.spec_matches(self.rack@[j].id),
            decreases self.rack@.len() - i,
        {
            if tile_id.matches_id(self.rack[i].id) {
                proof {
                    lemma_first_match(self.rack@, *tile_id);
                }
                return Some(i);
            }
            i += 1;
        }
        None
    }

    pub fn get_rack(&self) -> (r: &Vec<Tile>)
        ensures
            r == self.rack,
    {
        &self.rack
    }

    pub fn get_rack_mut(&mut self) -> (r: &mut Vec<Tile>)
        ensures
            *r == old(self).rack,
            final(self).rack == *final(r),
            final(self).id == old(self).id,
            final(self).display_name == old(self).display_name,
            final(self).is_turn == old(self).is_turn,
            final(self).is_post_meld == old(self).is_post_meld,
    {
        &mut self.rack
    }

    pub fn add_tile_to_rack(&mut self, tile: Tile)
        ensures
            final(self).rack@ == old(self).rack@.push(tile),
            final(self).id == old(self).id,
            final(self).display_name == old(self).display_name,
            final(self).is_turn == old(self).is_turn,
            final(self).is_post_meld == old(self).is_post_meld,
    {
        self.rack.push(tile);
    }

    /// Moves every tile of `tiles` to the back of the rack, in order.
    pub fn add_tiles_to_rack(&mut self, tiles: Vec<Tile>)
        ensures
            final(self).rack@ == old(self).rack@ + tiles@,
            final(self).id == old(self).id,
            final(self).display_name == old(self).display_name,
            final(self).is_turn == old(self).is_turn,
            final(self).is_post_meld == old(self).is_post_meld,
    {
        let mut incoming = tiles;
        self.rack.append(&mut incoming);
    }
}

} // verus!
