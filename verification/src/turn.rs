use vstd::prelude::*;

use crate::identifier::Identifier;
use crate::player::Player;

verus! {

/// An atomic move record. Moves reference entities by identity only; they
/// are resolved against table and player state at apply time.
#[derive(Clone, Debug)]
pub enum Move {
    Draw { tile_id: Identifier },
    Create { set_id: Identifier },
    Add { set_id: Identifier, tile_id: Identifier },
    Move {
        origin_set_id: Identifier,
        target_set_id: Identifier,
        tile_id: Identifier,
        index: usize,
    },
    Remove { set_id: Identifier, tile_id: Identifier },
}

impl Move {
    pub open spec fn spec_is_draw(self) -> bool {
        self is Draw
    }

    pub open spec fn spec_is_create(self) -> bool {
        self is Create
    }

    pub fn is_draw(&self) -> (r: bool)
        ensures
            r == self.spec_is_draw(),
    {
        matches!(self, Move::Draw { .. })
    }

    pub fn is_create(&self) -> (r: bool)
        ensures
            r == self.spec_is_create(),
    {
        matches!(self, Move::Create { .. })
    }
}

#[derive(Debug, PartialEq, Eq, Clone, Copy, Structural)]
pub enum TurnError {
    IllegalMove,
}

/// The command log of one player's turn: an ordered list of moves with a
/// coarse legality gate and an undo stack. Single moves are not validated
/// here beyond that gate; the result is validated at the end of the turn.
#[derive(Debug)]
pub struct Turn {
    pub moves: Vec<Move>,
}

/// When a move may join the log: a draw must be the turn's only move, a
/// pre-meld player may only draw or build creations, and a player who has
/// already won may not move at all.
pub open spec fn may_add(moves: Seq<Move>, player: Player, new_move: Move) -> bool {
    &&& !(new_move is Draw && moves.len() > 0)
    &&& forall|i: int| 0 <= i < moves.len() ==> !(#[trigger] moves[i] is Draw)
    &&& player.is_post_meld || new_move is Create || new_move is Draw
    &&& player.rack@.len() > 0
}

impl Turn {
    /// An empty move log.
    pub fn new() -> (t: Turn)
        ensures
            t.moves@.len() == 0,
    {
        Turn { moves: Vec::new() }
    }

    /// Appends the move when the legality conditions hold, and rejects it
    /// otherwise without touching the log. Referenced entities are resolved
    /// against table state at apply time; the caller supplies the player
    /// whose turn it is.
    pub fn add_move(&mut self, player: &Player, new_move: Move) -> (r: Result<(), TurnError>)
        ensures
            if may_add(old(self).moves@, *player, new_move) {
                r == Ok::<(), TurnError>(())
                    && final(self).moves@ == old(self).moves@.push(new_move)
            } else {
                r == Err::<(), TurnError>(TurnError::IllegalMove)
                    && final(self).moves == old(self).moves
            },
    {
        if new_move.is_draw() && self.moves.len() > 0 {
            return Err(TurnError::IllegalMove);
        }
        let mut i: usize = 0;
        while i < self.moves.len()
            invariant
                i <= self.moves@.len(),
                *self == *old(self),
                forall|j: int| 0 <= j < i ==> !(#[trigger] self.moves@[j] is Draw),
            decreases self.moves@.len() - i,
        {
            if self.moves[i].is_draw() {
                return Err(TurnError::IllegalMove);
            }
            i += 1;
        }
        if !player.is_post_meld && !new_move.is_create() && !new_move.is_draw() {
            return Err(TurnError::IllegalMove);
        }
        if player.has_won() {
            return Err(TurnError::IllegalMove);
        }
        self.moves.push(new_move);
        Ok(())
    }

    /// Discards the log: the turn was committed or abandoned.
    pub fn clear(&mut self)
        ensures
            final(self).moves@.len() == 0,
    {
        self.moves.clear();
    }

    pub fn length(&self) -> (r: usize)
        ensures
            r == self.moves@.len(),
    {
        self.moves.len()
    }

    /// Pops the most recent move for inverse application.
    pub fn undo(&mut self) -> (r: Option<Move>)
        ensures
            if old(self).moves@.len() == 0 {
                r == None::<Move> && final(self).moves@ == old(self).moves@
            } else {
                r == Some(old(self).moves@.last())
                    && final(self).moves@ == old(self).moves@.drop_last()
            },
    {
        self.moves.pop()
    }
}

} // verus!
