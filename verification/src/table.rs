use vstd::prelude::*;

use crate::identifier::Identifier;
use crate::player::Player;
use crate::set::{
    all_valid, group_ok, lemma_all_valid_remove, lemma_raw_sum_bound, spec_sum, TileSet,
};
use crate::tile::{first_match, lemma_first_match, Tile};
use crate::turn::{Move, Turn};

verus! {

#[derive(Debug, PartialEq, Eq, Clone, Copy, Structural)]
pub enum TableError {
    PoolEmpty,
    WrongTurn,
    UnknownSet,
    MissingTile,
    IllegalMove,
    MeldThreshold,
    /// A defined-but-unsupported operation: undoing a removal has no
    /// decided place to restore the tile to.
    Unsupported,
}

/// The orchestrator: a fixed roster of four players, the shared draw pool,
/// and the registry of melded sets. It applies moves, advances the turn
/// rotation, and runs the end-of-turn validation gate.
#[derive(Debug)]
pub struct Table {
    pub players: Vec<Player>,
    pub pool: Vec<Tile>,
    pub sets: Vec<TileSet>,
}

pub open spec fn b2i(b: bool) -> int {
    if b {
        1
    } else {
        0
    }
}

/// Exactly one of the four seats holds the turn.
pub open spec fn one_turn(players: Seq<Player>) -> bool {
    b2i(players[0].is_turn) + b2i(players[1].is_turn) + b2i(players[2].is_turn) + b2i(
        players[3].is_turn,
    ) == 1
}

/// The seat that holds the turn (the first, and with `one_turn` the only).
pub open spec fn turn_index(players: Seq<Player>) -> int {
    if players[0].is_turn {
        0
    } else if players[1].is_turn {
        1
    } else if players[2].is_turn {
        2
    } else {
        3
    }
}

/// The position of the first registered set that `ident` denotes.
pub open spec fn set_first_match(sets: Seq<TileSet>, ident: Identifier) -> Option<int>
    decreases sets.len(),
{
    if sets.len() == 0 {
        None
    } else if ident.spec_matches(sets[0].id) {
        Some(0int)
    } else {
        match set_first_match(sets.drop_first(), ident) {
            None => None,
            Some(i) => Some(i + 1),
        }
    }
}

pub proof fn lemma_set_first_match(sets: Seq<TileSet>, ident: Identifier)
    ensures
        match set_first_match(sets, ident) {
            None => forall|i: int| 0 <= i < sets.len() ==> !ident.spec_matches(sets[i].id),
            Some(k) => 0 <= k < sets.len() && ident.spec_matches(sets[k].id)
                && forall|i: int| 0 <= i < k ==> !ident.spec_matches(sets[i].id),
        },
    decreases sets.len(),
{
    if sets.len() > 0 && !ident.spec_matches(sets[0].id) {
        lemma_set_first_match(sets.drop_first(), ident);
        assert forall|i: int| 1 <= i < sets.len() implies sets.drop_first()[i - 1] == sets[i] by {}
    }
}

/// What registering a set does: a set with the same unique id is replaced
/// in place, otherwise the new set joins at the back.
pub open spec fn spec_register(sets: Seq<TileSet>, ns: TileSet) -> Seq<TileSet> {
    if exists|j: int| 0 <= j < sets.len() && (#[trigger] sets[j].id) == ns.id {
        sets.update(choose|j: int| 0 <= j < sets.len() && (#[trigger] sets[j].id) == ns.id, ns)
    } else {
        sets.push(ns)
    }
}

pub open spec fn unique_set_ids(sets: Seq<TileSet>) -> bool {
    forall|j: int, k: int| 0 <= j < k < sets.len() ==> (#[trigger] sets[j].id) != (#[trigger] sets[k].id)
}

/// What working through a list of requested tile identities does to a rack:
/// each found identity removes its first matching tile, in request order;
/// identities that match nothing leave the rack alone. Yields the final rack
/// and the tiles taken, in request order.
pub open spec fn strip_rack(rack: Seq<Tile>, ids: Seq<Identifier>) -> (Seq<Tile>, Seq<Tile>)
    decreases ids.len(),
{
    if ids.len() == 0 {
        (rack, Seq::empty())
    } else {
        match first_match(rack, ids[0]) {
            None => strip_rack(rack, ids.drop_first()),
            Some(k) => {
                let rest = strip_rack(rack.remove(k), ids.drop_first());
                (rest.0, seq![rack[k]] + rest.1)
            },
        }
    }
}

/// A set value with the given identity and tiles.
pub open spec fn set_with_tiles(id: u128, tiles: Seq<Tile>, s: TileSet) -> bool {
    s.id == id && s.tiles@ == tiles
}

/// A set value holding the given tiles, whatever its identity.
pub open spec fn set_holding(tiles: Seq<Tile>, s: TileSet) -> bool {
    s.tiles@ == tiles
}

/// What successfully removing the tile `tile_id` from the set `set_id` does
/// to the registry: the first matching set loses its first matching tile
/// (`t`). A set emptied by the removal is dropped; removal from a strictly
/// interior position keeps the tiles before it and forks the tiles after it
/// into a freshly registered set; removal from either end shrinks in place.
pub open spec fn remove_outcome(
    pre: Seq<TileSet>,
    post: Seq<TileSet>,
    set_id: Identifier,
    tile_id: Identifier,
    t: Tile,
) -> bool {
    match set_first_match(pre, set_id) {
        None => false,
        Some(k) => match first_match(pre[k].tiles@, tile_id) {
            None => false,
            Some(i) => {
                let len = pre[k].tiles@.len() as int;
                &&& t == pre[k].tiles@[i]
                &&& if len == 1 {
                    post == pre.remove(k)
                } else if i == 0 || i == len - 1 {
                    exists|os: TileSet|
                        #[trigger] set_with_tiles(pre[k].id, pre[k].tiles@.remove(i), os) && post
                            == pre.update(k, os)
                } else {
                    exists|os: TileSet, ns: TileSet|
                        #![trigger set_with_tiles(pre[k].id, pre[k].tiles@.subrange(0, i), os), set_holding(pre[k].tiles@.subrange(i + 1, len), ns)]
                        set_with_tiles(pre[k].id, pre[k].tiles@.subrange(0, i), os)
                            && set_holding(pre[k].tiles@.subrange(i + 1, len), ns) && post
                            == spec_register(pre.update(k, os), ns)
                }
            },
        },
    }
}

/// The registry after the removal of tile `i` from the set at `k` is
/// staged: the origin set has lost the tile (and, on an interior removal,
/// everything after it), but no forked set has been registered yet and a
/// set emptied by the removal is already gone.
pub open spec fn staged_removal(pre: Seq<TileSet>, mid: Seq<TileSet>, k: int, i: int) -> bool {
    let len = pre[k].tiles@.len() as int;
    if len == 1 {
        mid == pre.remove(k)
    } else if i == 0 || i == len - 1 {
        exists|os: TileSet|
            #[trigger] set_with_tiles(pre[k].id, pre[k].tiles@.remove(i), os) && mid == pre.update(
                k,
                os,
            )
    } else {
        exists|os: TileSet|
            #[trigger] set_with_tiles(pre[k].id, pre[k].tiles@.subrange(0, i), os) && mid
                == pre.update(k, os)
    }
}

/// Two registries hold the same sets: same length, and at each position the
/// same identity over the same tiles.
pub open spec fn same_registry(a: Seq<TileSet>, b: Seq<TileSet>) -> bool {
    a.len() == b.len() && forall|q: int|
        0 <= q < a.len() ==> (#[trigger] a[q]).id == b[q].id && a[q].tiles@ == b[q].tiles@
}

/// What moving a tile between sets does. The target must be registered up
/// front; the removal from the origin is staged and the insertion is
/// validated against the registry surviving it (a tail forked by an
/// interior removal joins the registry, under a fresh identity, only once
/// the insertion succeeds). A failed move leaves the registry as it was:
/// tiles are conserved across containers.
pub open spec fn move_outcome(
    pre: Seq<TileSet>,
    post: Seq<TileSet>,
    origin_set_id: Identifier,
    target_set_id: Identifier,
    tile_id: Identifier,
    index: int,
    r: Result<(), TableError>,
) -> bool {
    if set_first_match(pre, target_set_id) is None {
        r == Err::<(), TableError>(TableError::UnknownSet) && post == pre
    } else {
        match set_first_match(pre, origin_set_id) {
            None => r == Err::<(), TableError>(TableError::UnknownSet) && post == pre,
            Some(k) => match first_match(pre[k].tiles@, tile_id) {
                None => r == Err::<(), TableError>(TableError::MissingTile) && post == pre,
                Some(i) => {
                    let len = pre[k].tiles@.len() as int;
                    let t = pre[k].tiles@[i];
                    exists|mid: Seq<TileSet>|
                        #[trigger] staged_removal(pre, mid, k, i) && match set_first_match(
                            mid,
                            target_set_id,
                        ) {
                            None => r == Err::<(), TableError>(TableError::UnknownSet)
                                && same_registry(post, pre),
                            Some(tj) => if index > mid[tj].tiles@.len() {
                                r == Err::<(), TableError>(TableError::IllegalMove)
                                    && same_registry(post, pre)
                            } else {
                                r == Ok::<(), TableError>(()) && exists|us: TileSet|
                                    #[trigger] set_with_tiles(
                                        mid[tj].id,
                                        mid[tj].tiles@.insert(index, t),
                                        us,
                                    ) && if 0 < i < len - 1 {
                                        exists|ns: TileSet|
                                            #[trigger] set_holding(
                                                pre[k].tiles@.subrange(i + 1, len),
                                                ns,
                                            ) && post == spec_register(mid.update(tj, us), ns)
                                    } else {
                                        post == mid.update(tj, us)
                                    }
                            },
                        }
                },
            },
        }
    }
}

/// Every registered set classifies as a group (the only classification a
/// set of valid tiles can reach, see `TileSet::get_tiles_as_run`).
pub open spec fn sets_all_ok(sets: Seq<TileSet>) -> bool {
    forall|k: int| 0 <= k < sets.len() ==> group_ok(#[trigger] sets[k].tiles@)
}

pub open spec fn shift_total(r: Result<int, TableError>, a: int) -> Result<int, TableError> {
    match r {
        Ok(t) => Ok(t + a),
        Err(e) => Err(e),
    }
}

/// The pre-meld evaluation of a turn's move log against the registry: every
/// move must be a Create; each named set must be registered (UnknownSet
/// otherwise) and must validate (IllegalMove otherwise); the scores of the
/// created sets are summed, stopping at the first offending move.
pub open spec fn premeld_eval(sets: Seq<TileSet>, moves: Seq<Move>) -> Result<int, TableError>
    decreases moves.len(),
{
    if moves.len() == 0 {
        Ok(0int)
    } else {
        match moves[0] {
            Move::Create { set_id } => match set_first_match(sets, set_id) {
                None => Err(TableError::UnknownSet),
                Some(k) => if !group_ok(sets[k].tiles@) {
                    Err(TableError::IllegalMove)
                } else {
                    shift_total(premeld_eval(sets, moves.drop_first()), spec_sum(sets[k].tiles@))
                },
            },
            _ => Err(TableError::IllegalMove),
        }
    }
}

/// Removing a tile from either end of a registered set only shrinks that
/// set in place: the registry keeps its size, the set keeps its position and
/// identity with the tiles in order, and every other set stays as it was.
pub proof fn lemma_end_removal_shrinks_in_place(
    pre: Seq<TileSet>,
    post: Seq<TileSet>,
    set_id: Identifier,
    tile_id: Identifier,
    t: Tile,
    k: int,
    i: int,
)
    requires
        remove_outcome(pre, post, set_id, tile_id, t),
        set_first_match(pre, set_id) == Some(k),
        first_match(pre[k].tiles@, tile_id) == Some(i),
        pre[k].tiles@.len() > 1,
        i == 0 || i == pre[k].tiles@.len() - 1,
    ensures
        post.len() == pre.len(),
        post[k].id == pre[k].id,
        post[k].tiles@ == pre[k].tiles@.remove(i),
        forall|q: int| 0 <= q < post.len() && q != k ==> post[q] == pre[q],
{
    lemma_set_first_match(pre, set_id);
    lemma_first_match(pre[k].tiles@, tile_id);
    let os = choose|os: TileSet|
        #[trigger] set_with_tiles(pre[k].id, pre[k].tiles@.remove(i), os) && post == pre.update(
            k,
            os,
        );
}

/// A registry holding the same sets is as well formed as the one it copies.
proof fn lemma_same_registry_wf(a: Seq<TileSet>, b: Seq<TileSet>)
    requires
        same_registry(a, b),
        forall|q: int| 0 <= q < b.len() ==> all_valid(#[trigger] b[q].tiles@),
        unique_set_ids(b),
    ensures
        forall|q: int| 0 <= q < a.len() ==> all_valid(#[trigger] a[q].tiles@),
        unique_set_ids(a),
{
    assert forall|q: int| 0 <= q < a.len() implies all_valid(#[trigger] a[q].tiles@) by {
        assert(a[q].tiles@ == b[q].tiles@);
    }
    assert forall|p: int, q: int| 0 <= p < q < a.len() implies (#[trigger] a[p].id)
        != (#[trigger] a[q].id) by {
        assert(b[p].id != b[q].id);
    }
}

/// After a staged removal at `k` and an insertion of the removed tile into
/// the set at `tj`, every registered set still holds legal tiles and the
/// identities stay unique.
proof fn lemma_move_commit_wf(
    pre: Seq<TileSet>,
    mid: Seq<TileSet>,
    post: Seq<TileSet>,
    k: int,
    i: int,
    tj: int,
    index: int,
    t: Tile,
)
    requires
        forall|q: int| 0 <= q < pre.len() ==> all_valid(#[trigger] pre[q].tiles@),
        unique_set_ids(pre),
        0 <= k < pre.len(),
        0 <= i < pre[k].tiles@.len(),
        staged_removal(pre, mid, k, i),
        0 <= tj < mid.len(),
        0 <= index <= mid[tj].tiles@.len(),
        t == pre[k].tiles@[i],
        post.len() == mid.len(),
        post[tj].id == mid[tj].id,
        post[tj].tiles@ == mid[tj].tiles@.insert(index, t),
        forall|q: int| 0 <= q < post.len() && q != tj ==> post[q] == mid[q],
    ensures
        forall|q: int| 0 <= q < post.len() ==> all_valid(#[trigger] post[q].tiles@),
        unique_set_ids(post),
{
    let len = pre[k].tiles@.len() as int;
    assert(t.spec_is_valid());
    if len == 1 {
        assert(mid == pre.remove(k));
        assert forall|q: int| 0 <= q < mid.len() implies all_valid(#[trigger] mid[q].tiles@) by {
            if q < k {
                assert(mid[q] == pre[q]);
            } else {
                assert(mid[q] == pre[q + 1]);
            }
        }
        assert forall|p: int, q: int| 0 <= p < q < mid.len() implies (#[trigger] mid[p].id)
            != (#[trigger] mid[q].id) by {
            if q < k {
                assert(mid[p] == pre[p] && mid[q] == pre[q]);
            } else if p < k {
                assert(mid[p] == pre[p] && mid[q] == pre[q + 1]);
            } else {
                assert(mid[p] == pre[p + 1] && mid[q] == pre[q + 1]);
            }
        }
    } else if i == 0 || i == len - 1 {
        let os = choose|os: TileSet|
            #[trigger] set_with_tiles(pre[k].id, pre[k].tiles@.remove(i), os) && mid == pre.update(
                k,
                os,
            );
        lemma_all_valid_remove(pre[k].tiles@, i);
        assert forall|q: int| 0 <= q < mid.len() implies all_valid(#[trigger] mid[q].tiles@) by {
            if q != k {
                assert(mid[q] == pre[q]);
            }
        }
        assert forall|p: int, q: int| 0 <= p < q < mid.len() implies (#[trigger] mid[p].id)
            != (#[trigger] mid[q].id) by {
            assert(pre[p].id != pre[q].id);
        }
    } else {
        let os = choose|os: TileSet|
            #[trigger] set_with_tiles(pre[k].id, pre[k].tiles@.subrange(0, i), os) && mid
                == pre.update(k, os);
        assert forall|j: int| 0 <= j < os.tiles@.len() implies os.tiles@[j].spec_is_valid() by {
            assert(os.tiles@[j] == pre[k].tiles@[j]);
        }
        assert forall|q: int| 0 <= q < mid.len() implies all_valid(#[trigger] mid[q].tiles@) by {
            if q != k {
                assert(mid[q] == pre[q]);
            }
        }
        assert forall|p: int, q: int| 0 <= p < q < mid.len() implies (#[trigger] mid[p].id)
            != (#[trigger] mid[q].id) by {
            assert(pre[p].id != pre[q].id);
        }
    }
    assert forall|j: int| 0 <= j < post[tj].tiles@.len() implies post[tj].tiles@[
    j].spec_is_valid() by {
        if j < index {
            assert(post[tj].tiles@[j] == mid[tj].tiles@[j]);
        } else if j == index {
            assert(post[tj].tiles@[j] == t);
        } else {
            assert(post[tj].tiles@[j] == mid[tj].tiles@[j - 1]);
        }
    }
    assert forall|q: int| 0 <= q < post.len() implies all_valid(#[trigger] post[q].tiles@) by {
        if q != tj {
            assert(post[q] == mid[q]);
        }
    }
    assert forall|p: int, q: int| 0 <= p < q < post.len() implies (#[trigger] post[p].id)
        != (#[trigger] post[q].id) by {
        assert(post[p].id == mid[p].id && post[q].id == mid[q].id);
        assert(mid[p].id != mid[q].id);
    }
}

/// Registering a set with legal tiles keeps the registry well formed.
pub proof fn lemma_register_wf(sets: Seq<TileSet>, ns: TileSet)
    requires
        unique_set_ids(sets),
        forall|k: int| 0 <= k < sets.len() ==> all_valid(#[trigger] sets[k].tiles@),
        all_valid(ns.tiles@),
    ensures
        unique_set_ids(spec_register(sets, ns)),
        forall|k: int|
            0 <= k < spec_register(sets, ns).len() ==> all_valid(
                #[trigger] spec_register(sets, ns)[k].tiles@,
            ),
{
    let out = spec_register(sets, ns);
    if exists|j: int| 0 <= j < sets.len() && (#[trigger] sets[j].id) == ns.id {
        let cj = choose|j: int| 0 <= j < sets.len() && (#[trigger] sets[j].id) == ns.id;
        assert(out == sets.update(cj, ns));
        assert forall|j: int, k: int| 0 <= j < k < out.len() implies (#[trigger] out[j].id)
            != (#[trigger] out[k].id) by {
            assert(sets[j].id != sets[k].id);
        }
    } else {
        assert(out == sets.push(ns));
        assert forall|j: int, k: int| 0 <= j < k < out.len() implies (#[trigger] out[j].id)
            != (#[trigger] out[k].id) by {
            if k == sets.len() {
                assert(out[j] == sets[j]);
            } else {
                assert(sets[j].id != sets[k].id);
            }
        }
    }
}

impl Table {
    /// Every tile on the table is a legal tile, set identities are unique,
    /// and exactly one player holds the turn.
    pub open spec fn wf(self) -> bool {
        &&& self.players@.len() == 4
        &&& one_turn(self.players@)
        &&& all_valid(self.pool@)
        &&& forall|i: int| 0 <= i < 4 ==> all_valid(#[trigger] self.players@[i].rack@)
        &&& forall|k: int| 0 <= k < self.sets@.len() ==> all_valid(#[trigger] self.sets@[k].tiles@)
        &&& unique_set_ids(self.sets@)
    }

    /// A table over a seated roster of four and an initial pool; the set
    /// registry starts empty.
    pub fn new(players: Vec<Player>, pool: Vec<Tile>) -> (t: Table)
        requires
            players@.len() == 4,
            one_turn(players@),
            all_valid(pool@),
            forall|i: int| 0 <= i < 4 ==> all_valid(#[trigger] players@[i].rack@),
        ensures
            t.wf(),
            t.players == players,
            t.pool == pool,
            t.sets@.len() == 0,
    {
        Table { players, pool, sets: Vec::new() }
    }

    pub fn get_player(&self, i: usize) -> (p: &Player)
        requires
            i < self.players@.len(),
        ensures
            *p == self.players@[i as int],
    {
        &self.players[i]
    }

    pub fn get_players(&self) -> (r: &Vec<Player>)
        ensures
            r == self.players,
    {
        &self.players
    }

    pub fn get_pool(&self) -> (r: &Vec<Tile>)
        ensures
            r == self.pool,
    {
        &self.pool
    }

    pub fn get_sets(&self) -> (r: &Vec<TileSet>)
        ensures
            r == self.sets,
    {
        &self.sets
    }

    /// The player whose turn it is.
    pub fn get_current_turn_player(&self) -> (p: &Player)
        requires
            self.wf(),
        ensures
            *p == self.players@[turn_index(self.players@)],
            p.is_turn,
    {
        let (_, p) = self.get_current_turn_player_index();
        p
    }

    /// The seat index of the player whose turn it is, with the player.
    pub fn get_current_turn_player_index(&self) -> (r: (usize, &Player))
        requires
            self.wf(),
        ensures
            r.0 == turn_index(self.players@),
            *r.1 == self.players@[turn_index(self.players@)],
            r.1.is_turn,
    {
        if self.players[0].is_turn {
            (0, &self.players[0])
        } else if self.players[1].is_turn {
            (1, &self.players[1])
        } else if self.players[2].is_turn {
            (2, &self.players[2])
        } else {
            (3, &self.players[3])
        }
    }

    /// Advances the turn to the next seat in fixed order, wrapping from the
    /// last seat to the first: the outgoing player's flag is cleared and the
    /// incoming player's flag is set.
    pub fn next_turn(&mut self) -> (p: &Player)
        requires
            old(self).wf(),
        ensures
            final(self).wf(),
            final(self).pool == old(self).pool,
            final(self).sets == old(self).sets,
            ({
                let i = turn_index(old(self).players@);
                let n = if i == 3 { 0int } else { i + 1 };
                &&& turn_index(final(self).players@) == n
                &&& final(self).players@ == old(self).players@.update(
                    i,
                    Player { is_turn: false, ..old(self).players@[i] },
                ).update(n, Player { is_turn: true, ..old(self).players@[n] })
                &&& *p == final(self).players@[n]
            }),
    {
        let (index, _) = self.get_current_turn_player_index();
        let next = if index == 3 { 0 } else { index + 1 };
        self.players[index].toggle_turn();
        self.players[next].toggle_turn();
        &self.players[next]
    }

    /// Draws the tile at `pool_index` into the player's rack. Which pool
    /// position is drawn is the host's choice: tile selection is delegated
    /// to an external random source, out of scope here.
    pub fn draw(&mut self, player_index: usize, pool_index: usize) -> (r: Result<(), TableError>)
        requires
            old(self).wf(),
            player_index < 4,
            old(self).pool@.len() > 0 ==> pool_index < old(self).pool@.len(),
        ensures
            final(self).wf(),
            final(self).sets == old(self).sets,
            if old(self).pool@.len() == 0 {
                r == Err::<(), TableError>(TableError::PoolEmpty)
                    && final(self).players == old(self).players
                    && final(self).pool == old(self).pool
            } else if old(self).players@[player_index as int].rack@.len() == 0
                || !old(self).players@[player_index as int].is_turn {
                r == Err::<(), TableError>(TableError::WrongTurn)
                    && final(self).players == old(self).players
                    && final(self).pool == old(self).pool
            } else {
                r == Ok::<(), TableError>(())
                    && final(self).pool@ == old(self).pool@.remove(pool_index as int)
                    && final(self).players@ == old(self).players@.update(
                    player_index as int,
                    Player {
                        rack: final(self).players@[player_index as int].rack,
                        ..old(self).players@[player_index as int]
                    },
                )
                    && final(self).players@[player_index as int].rack@ == old(
                    self,
                ).players@[player_index as int].rack@.push(old(self).pool@[pool_index as int])
            },
    {
        if self.pool.len() == 0 {
            return Err(TableError::PoolEmpty);
        }
        if self.players[player_index].has_won() || !self.players[player_index].is_turn {
            return Err(TableError::WrongTurn);
        }
        let t = self.pool.remove(pool_index);
        self.players[player_index].add_tile_to_rack(t);
        proof {
            assert forall|j: int| 0 <= j < self.pool@.len() implies self.pool@[j].spec_is_valid() by {
                if j < pool_index {
                    assert(self.pool@[j] == old(self).pool@[j]);
                } else {
                    assert(self.pool@[j] == old(self).pool@[j + 1]);
                }
            }
        }
        Ok(())
    }

    /// The position of the first registered set that `set_id` denotes.
    fn find_set_index(&self, set_id: &Identifier) -> (r: Option<usize>)
        ensures
            match set_first_match(self.sets@, *set_id) {
                None => r == None::<usize>,
                Some(k) => r == Some(k as usize) && (k as usize) as int == k,
            },
    {
        proof {
            lemma_set_first_match(self.sets@, *set_id);
        }
        let mut i: usize = 0;
        while i < self.sets.len()
            invariant
                i <= self.sets@.len(),
                forall|j: int| 0 <= j < i ==> !set_id.spec_matches(self.sets@[j].id),
            decreases self.sets@.len() - i,
        {
            if set_id.matches_id(self.sets[i].id) {
                proof {
                    lemma_set_first_match(self.sets@, *set_id);
                }
                return Some(i);
            }
            i += 1;
        }
        None
    }

    /// Registers a set: one with the same unique id is replaced, otherwise
    /// the set joins the registry.
    fn register_set(&mut self, ns: TileSet)
        requires
            unique_set_ids(old(self).sets@),
        ensures
            final(self).players == old(self).players,
            final(self).pool == old(self).pool,
            final(self).sets@ == spec_register(old(self).sets@, ns),
    {
        let mut i: usize = 0;
        while i < self.sets.len()
            invariant
                i <= self.sets@.len(),
                *self == *old(self),
                unique_set_ids(self.sets@),
                forall|j: int| 0 <= j < i ==> (#[trigger] self.sets@[j].id) != ns.id,
            decreases self.sets@.len() - i,
        {
            if self.sets[i].id == ns.id {
                self.sets.remove(i);
                self.sets.insert(i, ns);
                proof {
                    let cj = choose|j: int|
                        0 <= j < old(self).sets@.len() && (#[trigger] old(self).sets@[j].id)
                            == ns.id;
                    assert(old(self).sets@[i as int].id == ns.id);
                    assert(cj == i as int);
                    assert(final(self).sets@ =~= old(self).sets@.update(i as int, ns));
                }
                return ;
            }
            i += 1;
        }
        self.sets.push(ns);
        proof {
            if exists|j: int| 0 <= j < old(self).sets@.len() && (#[trigger] old(
                self,
            ).sets@[j].id) == ns.id {
                let cj = choose|j: int|
                    0 <= j < old(self).sets@.len() && (#[trigger] old(self).sets@[j].id) == ns.id;
                assert(false);
            }
        }
    }

    /// Removes each named tile from the player's rack and wraps them in a
    /// newly registered set. When any identity is not found, the request
    /// fails with MissingTile, and tiles removed before the comparison stay
    /// removed: the rack still loses every tile that was found.
    pub fn create_set(&mut self, player_index: usize, tile_ids: Vec<Identifier>) -> (r: Result<
        (),
        TableError,
    >)
        requires
            old(self).wf(),
            player_index < 4,
        ensures
            final(self).wf(),
            final(self).pool == old(self).pool,
            final(self).players@ == old(self).players@.update(
                player_index as int,
                Player {
                    rack: final(self).players@[player_index as int].rack,
                    ..old(self).players@[player_index as int]
                },
            ),
            final(self).players@[player_index as int].rack@ == strip_rack(
                old(self).players@[player_index as int].rack@,
                tile_ids@,
            ).0,
            if strip_rack(old(self).players@[player_index as int].rack@, tile_ids@).1.len()
                < tile_ids@.len() {
                r == Err::<(), TableError>(TableError::MissingTile)
                    && final(self).sets == old(self).sets
            } else {
                r == Ok::<(), TableError>(()) && exists|ns: TileSet|
                    #[trigger] set_holding(
                        strip_rack(old(self).players@[player_index as int].rack@, tile_ids@).1,
                        ns,
                    ) && final(self).sets@ == spec_register(old(self).sets@, ns)
            },
    {
        let ghost orig_rack = self.players@[player_index as int].rack@;
        let ghost full_ids = tile_ids@;
        let requested = tile_ids.len();
        let mut ids = tile_ids;
        let mut taken: Vec<Tile> = Vec::new();
        while ids.len() > 0
            invariant
                player_index < 4,
                self.players@.len() == 4,
                self.pool == old(self).pool,
                self.sets == old(self).sets,
                old(self).wf(),
                requested == full_ids.len(),
                forall|j: int|
                    0 <= j < 4 && j != player_index ==> self.players@[j] == old(self).players@[j],
                self.players@[player_index as int].id == old(
                    self,
                ).players@[player_index as int].id,
                self.players@[player_index as int].display_name == old(
                    self,
                ).players@[player_index as int].display_name,
                self.players@[player_index as int].is_turn == old(
                    self,
                ).players@[player_index as int].is_turn,
                self.players@[player_index as int].is_post_meld == old(
                    self,
                ).players@[player_index as int].is_post_meld,
                all_valid(self.players@[player_index as int].rack@),
                all_valid(taken@),
                orig_rack == old(self).players@[player_index as int].rack@,
                strip_rack(orig_rack, full_ids).0 == strip_rack(
                    self.players@[player_index as int].rack@,
                    ids@,
                ).0,
                strip_rack(orig_rack, full_ids).1 == taken@ + strip_rack(
                    self.players@[player_index as int].rack@,
                    ids@,
                ).1,
            decreases ids@.len(),
        {
            let ghost pre_rack = self.players@[player_index as int].rack@;
            let ghost pre_ids = ids@;
            let ident = ids.remove(0);
            proof {
                assert(pre_ids.remove(0) =~= pre_ids.drop_first());
                lemma_first_match(pre_rack, ident);
            }
            match self.players[player_index].remove_tile_from_rack(ident) {
                Some(t) => {
                    taken.push(t);
                    proof {
                        let k = first_match(pre_rack, ident).unwrap();
                        lemma_all_valid_remove(pre_rack, k);
                        assert(strip_rack(pre_rack, pre_ids).1 == seq![pre_rack[k]] + strip_rack(
                            pre_rack.remove(k),
                            pre_ids.drop_first(),
                        ).1);
                        assert(taken@ + strip_rack(
                            self.players@[player_index as int].rack@,
                            ids@,
                        ).1 =~= strip_rack(orig_rack, full_ids).1);
                    }
                },
                None => {
                    proof {
                        assert(strip_rack(pre_rack, pre_ids) == strip_rack(
                            pre_rack,
                            pre_ids.drop_first(),
                        ));
                    }
                },
            }
        }
        proof {
            assert(strip_rack(self.players@[player_index as int].rack@, ids@).0
                == self.players@[player_index as int].rack@);
            assert(strip_rack(orig_rack, full_ids).1 =~= taken@);
            assert(self.players@ =~= old(self).players@.update(
                player_index as int,
                Player {
                    rack: self.players@[player_index as int].rack,
                    ..old(self).players@[player_index as int]
                },
            ));
        }
        if taken.len() < requested {
            return Err(TableError::MissingTile);
        }
        // the non-atomic outcome above is deliberate: failure is detected by
        // comparing counts only after every identity has been tried

        let mut ns = TileSet::new();
        ns.set_tiles(taken);
        let ghost gns = ns;
        proof {
            lemma_register_wf(self.sets@, gns);
            assert(set_holding(strip_rack(orig_rack, full_ids).1, gns));
        }
        self.register_set(ns);
        proof {
            assert(self.players@ =~= old(self).players@.update(
                player_index as int,
                Player {
                    rack: self.players@[player_index as int].rack,
                    ..old(self).players@[player_index as int]
                },
            ));
        }
        Ok(())
    }

    /// Removes the named tile from the named set and returns it. Melds must
    /// stay contiguous: removing a strictly interior tile forks the tiles
    /// after the removal point into a new registered set, removing from
    /// either end shrinks the set in place, and a set emptied by the removal
    /// leaves the registry.
    pub fn remove_tile_from_set(&mut self, set_id: Identifier, tile_id: Identifier) -> (r: Result<
        Tile,
        TableError,
    >)
        requires
            old(self).wf(),
        ensures
            final(self).wf(),
            final(self).players == old(self).players,
            final(self).pool == old(self).pool,
            match set_first_match(old(self).sets@, set_id) {
                None => r == Err::<Tile, TableError>(TableError::UnknownSet) && final(self).sets@
                    == old(self).sets@,
                Some(k) => match first_match(old(self).sets@[k].tiles@, tile_id) {
                    None => r == Err::<Tile, TableError>(TableError::MissingTile)
                        && final(self).sets@ == old(self).sets@,
                    Some(i) => r == Ok::<Tile, TableError>(old(self).sets@[k].tiles@[i])
                        && remove_outcome(
                        old(self).sets@,
                        final(self).sets@,
                        set_id,
                        tile_id,
                        old(self).sets@[k].tiles@[i],
                    ),
                },
            },
    {
        let k = match self.find_set_index(&set_id) {
            None => {
                return Err(TableError::UnknownSet);
            },
            Some(k) => k,
        };
        proof {
            lemma_set_first_match(self.sets@, set_id);
            assert(set_first_match(self.sets@, set_id) == Some(k as int));
        }
        let ghost pre_sets = self.sets@;
        let ghost pre_tiles = self.sets@[k as int].tiles@;
        let mut s = self.sets.remove(k);
        match s.remove_tile_with_index(tile_id) {
            None => {
                self.sets.insert(k, s);
                proof {
                    assert(self.sets@ =~= old(self).sets@);
                }
                Err(TableError::MissingTile)
            },
            Some((i, tile)) => {
                proof {
                    lemma_first_match(pre_tiles, tile_id);
                    lemma_all_valid_remove(pre_tiles, i as int);
                }
                let new_len = s.len();
                if i > 0 && i < new_len {
                    let tail = s.tiles.split_off(i);
                    let mut ns = TileSet::new();
                    ns.set_tiles(tail);
                    self.sets.insert(k, s);
                    let ghost gos = self.sets@[k as int];
                    let ghost gns = ns;
                    proof {
                        assert(gos.tiles@ =~= pre_tiles.subrange(0, i as int));
                        assert(gns.tiles@ =~= pre_tiles.subrange(i + 1, pre_tiles.len() as int));
                        assert(self.sets@ =~= pre_sets.update(k as int, gos));
                        assert forall|j: int| 0 <= j < gos.tiles@.len() implies gos.tiles@[
                        j].spec_is_valid() by {
                            assert(gos.tiles@[j] == pre_tiles[j]);
                        }
                        assert forall|j: int| 0 <= j < gns.tiles@.len() implies gns.tiles@[
                        j].spec_is_valid() by {
                            assert(gns.tiles@[j] == pre_tiles[j + i + 1]);
                        }
                        assert forall|q: int|
                            0 <= q < self.sets@.len() implies all_valid(
                            #[trigger] self.sets@[q].tiles@,
                        ) by {
                            if q != k as int {
                                assert(self.sets@[q] == pre_sets[q]);
                            }
                        }
                        assert forall|p: int, q: int|
                            0 <= p < q < self.sets@.len() implies (#[trigger] self.sets@[p].id)
                            != (#[trigger] self.sets@[q].id) by {
                            assert(pre_sets[p].id != pre_sets[q].id);
                        }
                        lemma_register_wf(self.sets@, gns);
                    }
                    self.register_set(ns);
                    proof {
                        assert(set_with_tiles(
                            pre_sets[k as int].id,
                            pre_tiles.subrange(0, i as int),
                            gos,
                        ));
                        assert(set_holding(
                            pre_tiles.subrange(i + 1, pre_tiles.len() as int),
                            gns,
                        ));
                        assert(remove_outcome(pre_sets, self.sets@, set_id, tile_id, tile));
                    }
                    Ok(tile)
                } else if new_len == 0 {
                    proof {
                        assert(self.sets@ =~= old(self).sets@.remove(k as int));
                        assert forall|q: int|
                            0 <= q < self.sets@.len() implies all_valid(
                            #[trigger] self.sets@[q].tiles@,
                        ) by {
                            if q < k as int {
                                assert(self.sets@[q] == pre_sets[q]);
                            } else {
                                assert(self.sets@[q] == pre_sets[q + 1]);
                            }
                        }
                        assert forall|p: int, q: int|
                            0 <= p < q < self.sets@.len() implies (#[trigger] self.sets@[p].id)
                            != (#[trigger] self.sets@[q].id) by {
                            if q < k as int {
                                assert(self.sets@[p] == pre_sets[p] && self.sets@[q]
                                    == pre_sets[q]);
                            } else if p < k as int {
                                assert(self.sets@[p] == pre_sets[p] && self.sets@[q] == pre_sets[q
                                    + 1]);
                            } else {
                                assert(self.sets@[p] == pre_sets[p + 1] && self.sets@[q]
                                    == pre_sets[q + 1]);
                            }
                        }
                    }
                    Ok(tile)
                } else {
                    self.sets.insert(k, s);
                    let ghost gos = self.sets@[k as int];
                    proof {
                        assert(gos.id == pre_sets[k as int].id);
                        assert(gos.tiles@ == pre_tiles.remove(i as int));
                        assert(self.sets@ =~= pre_sets.update(k as int, gos));
                        assert forall|q: int|
                            0 <= q < self.sets@.len() implies all_valid(
                            #[trigger] self.sets@[q].tiles@,
                        ) by {
                            if q != k as int {
                                assert(self.sets@[q] == pre_sets[q]);
                            }
                        }
                        assert forall|p: int, q: int|
                            0 <= p < q < self.sets@.len() implies (#[trigger] self.sets@[p].id)
                            != (#[trigger] self.sets@[q].id) by {
                            assert(pre_sets[p].id != pre_sets[q].id);
                        }
                        assert(set_with_tiles(
                            pre_sets[k as int].id,
                            pre_tiles.remove(i as int),
                            gos,
                        ));
                        assert(remove_outcome(pre_sets, self.sets@, set_id, tile_id, tile));
                    }
                    Ok(tile)
                }
            },
        }
    }

    /// Moves the named tile from the player's rack into the named set at
    /// `index`. The set and the index are checked before the tile leaves the
    /// rack, so every failure leaves the whole table unchanged: tiles are
    /// conserved across containers.
    pub fn add_tile_to_set(
        &mut self,
        player_index: usize,
        set_id: Identifier,
        tile_id: Identifier,
        index: usize,
    ) -> (r: Result<(), TableError>)
        requires
            old(self).wf(),
            player_index < 4,
        ensures
            final(self).wf(),
            final(self).pool == old(self).pool,
            match first_match(old(self).players@[player_index as int].rack@, tile_id) {
                None => r == Err::<(), TableError>(TableError::MissingTile)
                    && final(self).players@ == old(self).players@ && final(self).sets@ == old(
                    self,
                ).sets@,
                Some(kk) => match set_first_match(old(self).sets@, set_id) {
                    None => r == Err::<(), TableError>(TableError::UnknownSet)
                        && final(self).players@ == old(self).players@ && final(self).sets@ == old(
                        self,
                    ).sets@,
                    Some(sk) => if index > old(self).sets@[sk].tiles@.len() {
                        r == Err::<(), TableError>(TableError::IllegalMove)
                            && final(self).players@ == old(self).players@ && final(self).sets@
                            == old(self).sets@
                    } else {
                        &&& r == Ok::<(), TableError>(())
                        &&& final(self).players@ == old(self).players@.update(
                            player_index as int,
                            Player {
                                rack: final(self).players@[player_index as int].rack,
                                ..old(self).players@[player_index as int]
                            },
                        )
                        &&& final(self).players@[player_index as int].rack@ == old(
                            self,
                        ).players@[player_index as int].rack@.remove(kk)
                        &&& exists|us: TileSet|
                            #[trigger] set_with_tiles(
                                old(self).sets@[sk].id,
                                old(self).sets@[sk].tiles@.insert(
                                    index as int,
                                    old(self).players@[player_index as int].rack@[kk],
                                ),
                                us,
                            ) && final(self).sets@ == old(self).sets@.update(sk, us)
                    },
                },
            },
    {
        let ghost pre_rack = self.players@[player_index as int].rack@;
        if self.players[player_index].find_tile_index(&tile_id).is_none() {
            return Err(TableError::MissingTile);
        }
        let sk = match self.find_set_index(&set_id) {
            None => {
                return Err(TableError::UnknownSet);
            },
            Some(sk) => sk,
        };
        proof {
            lemma_set_first_match(self.sets@, set_id);
            assert(set_first_match(self.sets@, set_id) == Some(sk as int));
        }
        if index > self.sets[sk].len() {
            return Err(TableError::IllegalMove);
        }
        let tile = match self.players[player_index].remove_tile_from_rack(tile_id) {
            None => {
                proof {
                    assert(false);
                }
                return Err(TableError::MissingTile);
            },
            Some(t) => t,
        };
        proof {
            lemma_first_match(pre_rack, tile_id);
            assert(self.players@ =~= old(self).players@.update(
                player_index as int,
                Player {
                    rack: self.players@[player_index as int].rack,
                    ..old(self).players@[player_index as int]
                },
            ));
            let kk = first_match(pre_rack, tile_id).unwrap();
            lemma_all_valid_remove(pre_rack, kk);
        }
        let ghost pre_sets = self.sets@;
        let mut s = self.sets.remove(sk);
        match s.add_tile(tile, index) {
            Err(_) => {
                proof {
                    assert(false);
                }
                self.sets.insert(sk, s);
                Err(TableError::IllegalMove)
            },
            Ok(()) => {
                self.sets.insert(sk, s);
                let ghost us = self.sets@[sk as int];
                proof {
                    assert(self.sets@ =~= pre_sets.update(sk as int, us));
                    assert forall|j: int| 0 <= j < us.tiles@.len() implies us.tiles@[
                    j].spec_is_valid() by {
                        assert(us.tiles@ == pre_sets[sk as int].tiles@.insert(
                            index as int,
                            tile,
                        ));
                        if j < index {
                            assert(us.tiles@[j] == pre_sets[sk as int].tiles@[j]);
                        } else if j == index {
                            assert(us.tiles@[j] == tile);
                        } else {
                            assert(us.tiles@[j] == pre_sets[sk as int].tiles@[j - 1]);
                        }
                    }
                    assert forall|q: int|
                        0 <= q < self.sets@.len() implies all_valid(
                        #[trigger] self.sets@[q].tiles@,
                    ) by {
                        if q != sk as int {
                            assert(self.sets@[q] == pre_sets[q]);
                        }
                    }
                    assert(set_with_tiles(
                        pre_sets[sk as int].id,
                        pre_sets[sk as int].tiles@.insert(index as int, tile),
                        us,
                    ));
                }
                Ok(())
            },
        }
    }

    /// Moves the named tile from the origin set into the target set at
    /// `index`. The removal from the origin is staged (split, shrink or
    /// drop) and committed only when the target still exists and the index
    /// fits afterwards; a failed move restores the origin set, so no tile is
    /// ever lost.
    #[verifier::rlimit(100)]
    pub fn move_tile_to_set(
        &mut self,
        origin_set_id: Identifier,
        target_set_id: Identifier,
        tile_id: Identifier,
        index: usize,
    ) -> (r: Result<(), TableError>)
        requires
            old(self).wf(),
        ensures
            final(self).wf(),
            final(self).players == old(self).players,
            final(self).pool == old(self).pool,
            move_outcome(
                old(self).sets@,
                final(self).sets@,
                origin_set_id,
                target_set_id,
                tile_id,
                index as int,
                r,
            ),
    {
        if self.find_set_index(&target_set_id).is_none() {
            return Err(TableError::UnknownSet);
        }
        let k = match self.find_set_index(&origin_set_id) {
            None => {
                return Err(TableError::UnknownSet);
            },
            Some(k) => k,
        };
        proof {
            lemma_set_first_match(self.sets@, origin_set_id);
            assert(set_first_match(self.sets@, origin_set_id) == Some(k as int));
        }
        let ghost pre_sets = self.sets@;
        let ghost pre_tiles = self.sets@[k as int].tiles@;
        let mut s = self.sets.remove(k);
        let (i, tile) = match s.remove_tile_with_index(tile_id) {
            None => {
                self.sets.insert(k, s);
                proof {
                    assert(self.sets@ =~= pre_sets);
                }
                return Err(TableError::MissingTile);
            },
            Some(p) => p,
        };
        proof {
            lemma_first_match(pre_tiles, tile_id);
            lemma_all_valid_remove(pre_tiles, i as int);
        }
        let new_len = s.len();
        if new_len == 0 {
            // the origin emptied: staged as gone, dropped only on commit
            let ghost mid = self.sets@;
            proof {
                assert(mid =~= pre_sets.remove(k as int));
                assert(staged_removal(pre_sets, mid, k as int, i as int));
            }
            match self.find_set_index(&target_set_id) {
                None => {
                    s.tiles.push(tile);
                    self.sets.insert(k, s);
                    proof {
                        lemma_set_first_match(mid, target_set_id);
                        assert(self.sets@[k as int].tiles@ =~= pre_tiles);
                        assert(same_registry(self.sets@, pre_sets));
                        lemma_same_registry_wf(self.sets@, pre_sets);
                    }
                    Err(TableError::UnknownSet)
                },
                Some(tj) => {
                    proof {
                        lemma_set_first_match(self.sets@, target_set_id);
                        assert(set_first_match(mid, target_set_id) == Some(tj as int));
                    }
                    if index > self.sets[tj].len() {
                        s.tiles.push(tile);
                        self.sets.insert(k, s);
                        proof {
                            assert(self.sets@[k as int].tiles@ =~= pre_tiles);
                            assert(same_registry(self.sets@, pre_sets));
                            lemma_same_registry_wf(self.sets@, pre_sets);
                        }
                        Err(TableError::IllegalMove)
                    } else {
                        let mut ts = self.sets.remove(tj);
                        match ts.add_tile(tile, index) {
                            Err(_) => {
                                proof {
                                    assert(false);
                                }
                                self.sets.insert(tj, ts);
                                Err(TableError::IllegalMove)
                            },
                            Ok(()) => {
                                self.sets.insert(tj, ts);
                                let ghost us = self.sets@[tj as int];
                                proof {
                                    assert(self.sets@ =~= mid.update(tj as int, us));
                                    assert(set_with_tiles(
                                        mid[tj as int].id,
                                        mid[tj as int].tiles@.insert(index as int, tile),
                                        us,
                                    ));
                                    lemma_move_commit_wf(pre_sets, mid, self.sets@, k as int, i as int, tj as int, index as int, tile);
                                }
                                Ok(())
                            },
                        }
                    }
                },
            }
        } else if i > 0 && i < new_len {
            // interior removal: stage the split, holding the tail back
            let tail = s.tiles.split_off(i);
            self.sets.insert(k, s);
            let ghost mid = self.sets@;
            let ghost gos = self.sets@[k as int];
            proof {
                assert(gos.tiles@ =~= pre_tiles.subrange(0, i as int));
                assert(set_with_tiles(
                    pre_sets[k as int].id,
                    pre_tiles.subrange(0, i as int),
                    gos,
                ));
                assert(mid =~= pre_sets.update(k as int, gos));
                assert(staged_removal(pre_sets, mid, k as int, i as int));
            }
            match self.find_set_index(&target_set_id) {
                None => {
                    let mut s2 = self.sets.remove(k);
                    s2.tiles.push(tile);
                    let mut tl = tail;
                    s2.tiles.append(&mut tl);
                    self.sets.insert(k, s2);
                    proof {
                        lemma_set_first_match(mid, target_set_id);
                        assert(self.sets@[k as int].tiles@ =~= pre_tiles);
                        assert(same_registry(self.sets@, pre_sets));
                        lemma_same_registry_wf(self.sets@, pre_sets);
                    }
                    Err(TableError::UnknownSet)
                },
                Some(tj) => {
                    proof {
                        lemma_set_first_match(self.sets@, target_set_id);
                        assert(set_first_match(mid, target_set_id) == Some(tj as int));
                    }
                    if index > self.sets[tj].len() {
                        let mut s2 = self.sets.remove(k);
                        s2.tiles.push(tile);
                        let mut tl = tail;
                        s2.tiles.append(&mut tl);
                        self.sets.insert(k, s2);
                        proof {
                            assert(self.sets@[k as int].tiles@ =~= pre_tiles);
                            assert(same_registry(self.sets@, pre_sets));
                            lemma_same_registry_wf(self.sets@, pre_sets);
                        }
                        Err(TableError::IllegalMove)
                    } else {
                        let mut ts = self.sets.remove(tj);
                        match ts.add_tile(tile, index) {
                            Err(_) => {
                                proof {
                                    assert(false);
                                }
                                self.sets.insert(tj, ts);
                                Err(TableError::IllegalMove)
                            },
                            Ok(()) => {
                                self.sets.insert(tj, ts);
                                let ghost us = self.sets@[tj as int];
                                let mut ns = TileSet::new();
                                ns.set_tiles(tail);
                                let ghost gns = ns;
                                proof {
                                    assert(self.sets@ =~= mid.update(tj as int, us));
                                    assert(set_with_tiles(
                                        mid[tj as int].id,
                                        mid[tj as int].tiles@.insert(index as int, tile),
                                        us,
                                    ));
                                    assert(gns.tiles@ =~= pre_tiles.subrange(
                                        i + 1,
                                        pre_tiles.len() as int,
                                    ));
                                    assert(set_holding(
                                        pre_tiles.subrange(i + 1, pre_tiles.len() as int),
                                        gns,
                                    ));
                                    lemma_move_commit_wf(pre_sets, mid, self.sets@, k as int, i as int, tj as int, index as int, tile);
                                    assert forall|j: int| 0 <= j < gns.tiles@.len() implies gns.tiles@[j].spec_is_valid() by {
                                        assert(gns.tiles@[j] == pre_tiles[j + i + 1]);
                                    }
                                    lemma_register_wf(self.sets@, gns);
                                }
                                self.register_set(ns);
                                Ok(())
                            },
                        }
                    }
                },
            }
        } else {
            // end removal: the origin shrinks in place
            self.sets.insert(k, s);
            let ghost mid = self.sets@;
            let ghost gos = self.sets@[k as int];
            proof {
                assert(gos.tiles@ == pre_tiles.remove(i as int));
                assert(set_with_tiles(pre_sets[k as int].id, pre_tiles.remove(i as int), gos));
                assert(mid =~= pre_sets.update(k as int, gos));
                assert(staged_removal(pre_sets, mid, k as int, i as int));
            }
            match self.find_set_index(&target_set_id) {
                None => {
                    let mut s2 = self.sets.remove(k);
                    match s2.add_tile(tile, i) {
                        Err(_) => {
                            proof {
                                assert(false);
                            }
                        },
                        Ok(()) => {},
                    }
                    self.sets.insert(k, s2);
                    proof {
                        lemma_set_first_match(mid, target_set_id);
                        assert(self.sets@[k as int].tiles@ =~= pre_tiles);
                        assert(same_registry(self.sets@, pre_sets));
                        lemma_same_registry_wf(self.sets@, pre_sets);
                    }
                    Err(TableError::UnknownSet)
                },
                Some(tj) => {
                    proof {
                        lemma_set_first_match(self.sets@, target_set_id);
                        assert(set_first_match(mid, target_set_id) == Some(tj as int));
                    }
                    if index > self.sets[tj].len() {
                        let mut s2 = self.sets.remove(k);
                        match s2.add_tile(tile, i) {
                            Err(_) => {
                                proof {
                                    assert(false);
                                }
                            },
                            Ok(()) => {},
                        }
                        self.sets.insert(k, s2);
                        proof {
                            assert(self.sets@[k as int].tiles@ =~= pre_tiles);
                            assert(same_registry(self.sets@, pre_sets));
                            lemma_same_registry_wf(self.sets@, pre_sets);
                        }
                        Err(TableError::IllegalMove)
                    } else {
                        let mut ts = self.sets.remove(tj);
                        match ts.add_tile(tile, index) {
                            Err(_) => {
                                proof {
                                    assert(false);
                                }
                                self.sets.insert(tj, ts);
                                Err(TableError::IllegalMove)
                            },
                            Ok(()) => {
                                self.sets.insert(tj, ts);
                                let ghost us = self.sets@[tj as int];
                                proof {
                                    assert(self.sets@ =~= mid.update(tj as int, us));
                                    assert(set_with_tiles(
                                        mid[tj as int].id,
                                        mid[tj as int].tiles@.insert(index as int, tile),
                                        us,
                                    ));
                                    lemma_move_commit_wf(pre_sets, mid, self.sets@, k as int, i as int, tj as int, index as int, tile);
                                }
                                Ok(())
                            },
                        }
                    }
                },
            }
        }
    }

    /// Applies the inverse of a logged move: a creation is dissolved back
    /// into the rack, a draw goes back to the pool, an addition returns to
    /// the rack, and a move re-applies itself with origin and target
    /// swapped. Undoing a removal is unsupported: there is no decided place
    /// to restore the tile to.
    pub fn undo_move(&mut self, player_index: usize, mv: Move) -> (r: Result<(), TableError>)
        requires
            old(self).wf(),
            player_index < 4,
        ensures
            final(self).wf(),
            match mv {
                Move::Create { set_id } => match set_first_match(old(self).sets@, set_id) {
                    None => r == Err::<(), TableError>(TableError::UnknownSet) && final(self).sets@
                        == old(self).sets@ && final(self).players@ == old(self).players@
                        && final(self).pool == old(self).pool,
                    Some(k) => {
                        &&& r == Ok::<(), TableError>(())
                        &&& final(self).sets@ == old(self).sets@.remove(k)
                        &&& final(self).pool == old(self).pool
                        &&& final(self).players@ == old(self).players@.update(
                            player_index as int,
                            Player {
                                rack: final(self).players@[player_index as int].rack,
                                ..old(self).players@[player_index as int]
                            },
                        )
                        &&& final(self).players@[player_index as int].rack@ == old(
                            self,
                        ).players@[player_index as int].rack@ + old(self).sets@[k].tiles@
                    },
                },
                Move::Draw { tile_id } => match first_match(
                    old(self).players@[player_index as int].rack@,
                    tile_id,
                ) {
                    None => r == Err::<(), TableError>(TableError::MissingTile)
                        && final(self).sets@ == old(self).sets@ && final(self).players@ == old(
                        self,
                    ).players@ && final(self).pool == old(self).pool,
                    Some(k) => {
                        &&& r == Ok::<(), TableError>(())
                        &&& final(self).sets@ == old(self).sets@
                        &&& final(self).pool@ == old(self).pool@.push(
                            old(self).players@[player_index as int].rack@[k],
                        )
                        &&& final(self).players@ == old(self).players@.update(
                            player_index as int,
                            Player {
                                rack: final(self).players@[player_index as int].rack,
                                ..old(self).players@[player_index as int]
                            },
                        )
                        &&& final(self).players@[player_index as int].rack@ == old(
                            self,
                        ).players@[player_index as int].rack@.remove(k)
                    },
                },
                Move::Add { set_id, tile_id } => match set_first_match(old(self).sets@, set_id) {
                    None => r == Err::<(), TableError>(TableError::UnknownSet) && final(self).sets@
                        == old(self).sets@ && final(self).players@ == old(self).players@
                        && final(self).pool == old(self).pool,
                    Some(k) => match first_match(old(self).sets@[k].tiles@, tile_id) {
                        None => r == Err::<(), TableError>(TableError::MissingTile)
                            && final(self).sets@ == old(self).sets@ && final(self).players@ == old(
                            self,
                        ).players@ && final(self).pool == old(self).pool,
                        Some(i) => {
                            &&& r == Ok::<(), TableError>(())
                            &&& final(self).pool == old(self).pool
                            &&& exists|us: TileSet|
                                #[trigger] set_with_tiles(
                                    old(self).sets@[k].id,
                                    old(self).sets@[k].tiles@.remove(i),
                                    us,
                                ) && final(self).sets@ == old(self).sets@.update(k, us)
                            &&& final(self).players@ == old(self).players@.update(
                                player_index as int,
                                Player {
                                    rack: final(self).players@[player_index as int].rack,
                                    ..old(self).players@[player_index as int]
                                },
                            )
                            &&& final(self).players@[player_index as int].rack@ == old(
                                self,
                            ).players@[player_index as int].rack@.push(
                                old(self).sets@[k].tiles@[i],
                            )
                        },
                    },
                },
                Move::Remove { .. } => r == Err::<(), TableError>(TableError::Unsupported)
                    && final(self).sets@ == old(self).sets@ && final(self).players@ == old(
                    self,
                ).players@ && final(self).pool == old(self).pool,
                Move::Move { origin_set_id, target_set_id, tile_id, index } => {
                    &&& final(self).players == old(self).players
                    &&& final(self).pool == old(self).pool
                    &&& move_outcome(
                        old(self).sets@,
                        final(self).sets@,
                        target_set_id,
                        origin_set_id,
                        tile_id,
                        index as int,
                        r,
                    )
                },
            },
    {
        match mv {
            Move::Create { set_id } => {
                let k = match self.find_set_index(&set_id) {
                    None => {
                        return Err(TableError::UnknownSet);
                    },
                    Some(k) => k,
                };
                proof {
                    lemma_set_first_match(self.sets@, set_id);
                    assert(set_first_match(self.sets@, set_id) == Some(k as int));
                }
                let s = self.sets.remove(k);
                self.players[player_index].add_tiles_to_rack(s.tiles);
                proof {
                    assert(self.players@ =~= old(self).players@.update(
                        player_index as int,
                        Player {
                            rack: self.players@[player_index as int].rack,
                            ..old(self).players@[player_index as int]
                        },
                    ));
                    assert forall|q: int|
                        0 <= q < self.sets@.len() implies all_valid(
                        #[trigger] self.sets@[q].tiles@,
                    ) by {
                        if q < k as int {
                            assert(self.sets@[q] == old(self).sets@[q]);
                        } else {
                            assert(self.sets@[q] == old(self).sets@[q + 1]);
                        }
                    }
                    assert forall|p: int, q: int|
                        0 <= p < q < self.sets@.len() implies (#[trigger] self.sets@[p].id)
                        != (#[trigger] self.sets@[q].id) by {
                        if q < k as int {
                            assert(self.sets@[p] == old(self).sets@[p] && self.sets@[q] == old(
                                self,
                            ).sets@[q]);
                        } else if p < k as int {
                            assert(self.sets@[p] == old(self).sets@[p] && self.sets@[q] == old(
                                self,
                            ).sets@[q + 1]);
                        } else {
                            assert(self.sets@[p] == old(self).sets@[p + 1] && self.sets@[q] == old(
                                self,
                            ).sets@[q + 1]);
                        }
                    }
                    assert(all_valid(old(self).sets@[k as int].tiles@));
                    assert forall|j: int|
                        0 <= j < self.players@[player_index as int].rack@.len() implies self.players@[player_index as int].rack@[j].spec_is_valid() by {
                        let orack = old(self).players@[player_index as int].rack@;
                        if j < orack.len() {
                            assert(self.players@[player_index as int].rack@[j] == orack[j]);
                        } else {
                            assert(self.players@[player_index as int].rack@[j] == old(
                                self,
                            ).sets@[k as int].tiles@[j - orack.len()]);
                        }
                    }
                }
                Ok(())
            },
            Move::Draw { tile_id } => {
                let ghost pre_rack = self.players@[player_index as int].rack@;
                let t = match self.players[player_index].remove_tile_from_rack(tile_id) {
                    None => {
                        proof {
                            assert(self.players@[player_index as int] == old(
                                self,
                            ).players@[player_index as int]);
                            assert(self.players@ =~= old(self).players@);
                        }
                        return Err(TableError::MissingTile);
                    },
                    Some(t) => t,
                };
                self.pool.push(t);
                proof {
                    lemma_first_match(pre_rack, tile_id);
                    let k = first_match(pre_rack, tile_id).unwrap();
                    lemma_all_valid_remove(pre_rack, k);
                    assert(self.players@ =~= old(self).players@.update(
                        player_index as int,
                        Player {
                            rack: self.players@[player_index as int].rack,
                            ..old(self).players@[player_index as int]
                        },
                    ));
                }
                Ok(())
            },
            Move::Add { set_id, tile_id } => {
                let k = match self.find_set_index(&set_id) {
                    None => {
                        return Err(TableError::UnknownSet);
                    },
                    Some(k) => k,
                };
                proof {
                    lemma_set_first_match(self.sets@, set_id);
                    assert(set_first_match(self.sets@, set_id) == Some(k as int));
                }
                let ghost pre_sets = self.sets@;
                let ghost pre_tiles = self.sets@[k as int].tiles@;
                let mut s = self.sets.remove(k);
                match s.remove_tile(tile_id) {
                    None => {
                        self.sets.insert(k, s);
                        proof {
                            assert(self.sets@ =~= old(self).sets@);
                        }
                        Err(TableError::MissingTile)
                    },
                    Some(t) => {
                        self.sets.insert(k, s);
                        let ghost us = self.sets@[k as int];
                        self.players[player_index].add_tile_to_rack(t);
                        proof {
                            lemma_first_match(pre_tiles, tile_id);
                            let i = first_match(pre_tiles, tile_id).unwrap();
                            lemma_all_valid_remove(pre_tiles, i);
                            assert(self.sets@ =~= pre_sets.update(k as int, us));
                            assert(set_with_tiles(
                                pre_sets[k as int].id,
                                pre_tiles.remove(i),
                                us,
                            ));
                            assert forall|q: int|
                                0 <= q < self.sets@.len() implies all_valid(
                                #[trigger] self.sets@[q].tiles@,
                            ) by {
                                if q != k as int {
                                    assert(self.sets@[q] == pre_sets[q]);
                                }
                            }
                            assert(self.players@ =~= old(self).players@.update(
                                player_index as int,
                                Player {
                                    rack: self.players@[player_index as int].rack,
                                    ..old(self).players@[player_index as int]
                                },
                            ));
                            assert(t.spec_is_valid());
                        }
                        Ok(())
                    },
                }
            },
            Move::Remove { .. } => {
                // where would the tile be restored to? unresolved by design,
                // so signal a distinct unsupported condition
                Err(TableError::Unsupported)
            },
            Move::Move { origin_set_id, target_set_id, tile_id, index } => {
                let r = self.move_tile_to_set(target_set_id, origin_set_id, tile_id, index);
                match r {
                    Ok(()) => Ok(()),
                    Err(e) => Err(e),
                }
            },
        }
    }

    /// The authoritative end-of-turn gate. For a pre-meld player, every
    /// logged move must be a Create, each created set must be registered and
    /// valid, and their scores must total strictly more than 30, else the
    /// turn fails with MeldThreshold. For a post-meld player the log is
    /// ignored and every set on the table must validate.
    pub fn end_turn(&self, turn: &Turn, player: &Player) -> (r: Result<(), TableError>)
        requires
            self.wf(),
            !player.is_post_meld ==> turn.moves@.len() <= 257,
        ensures
            if player.is_post_meld {
                r == if sets_all_ok(self.sets@) {
                    Ok::<(), TableError>(())
                } else {
                    Err::<(), TableError>(TableError::IllegalMove)
                }
            } else {
                match premeld_eval(self.sets@, turn.moves@) {
                    Err(e) => r == Err::<(), TableError>(e),
                    Ok(total) => r == if total > 30 {
                        Ok::<(), TableError>(())
                    } else {
                        Err::<(), TableError>(TableError::MeldThreshold)
                    },
                }
            },
    {
        if !player.is_post_meld {
            let n = turn.moves.len();
            let mut total: u16 = 0;
            let mut m: usize = 0;
            proof {
                assert(turn.moves@.skip(0) =~= turn.moves@);
            }
            while m < n
                invariant
                    self.wf(),
                    !player.is_post_meld,
                    n == turn.moves@.len() <= 257,
                    m <= n,
                    total as int <= 255 * (m as int),
                    premeld_eval(self.sets@, turn.moves@) == shift_total(
                        premeld_eval(self.sets@, turn.moves@.skip(m as int)),
                        total as int,
                    ),
                decreases n - m,
            {
                proof {
                    assert(turn.moves@.skip(m as int)[0] == turn.moves@[m as int]);
                    assert(turn.moves@.skip(m as int).drop_first() =~= turn.moves@.skip(
                        m as int + 1,
                    ));
                }
                let mv = &turn.moves[m];
                match mv {
                    Move::Create { set_id } => {
                        let k = match self.find_set_index(set_id) {
                            None => {
                                return Err(TableError::UnknownSet);
                            },
                            Some(k) => k,
                        };
                        proof {
                            lemma_set_first_match(self.sets@, *set_id);
                            assert(set_first_match(self.sets@, *set_id) == Some(k as int));
                        }
                        match self.sets[k].validate() {
                            Err(_) => {
                                return Err(TableError::IllegalMove);
                            },
                            Ok(()) => {
                                proof {
                                    let tiles = self.sets@[k as int].tiles@;
                                    assert(forall|j: int|
                                        0 <= j < tiles.len() ==> tiles[j].value <= 13);
                                    lemma_raw_sum_bound(tiles, 13);
                                }
                                let s = self.sets[k].get_sum();
                                total = total + (s as u16);
                                m += 1;
                            },
                        }
                    },
                    _ => {
                        return Err(TableError::IllegalMove);
                    },
                }
            }
            proof {
                assert(turn.moves@.skip(n as int) =~= Seq::<Move>::empty());
            }
            if total > 30 {
                return Ok(());
            } else {
                return Err(TableError::MeldThreshold);
            }
        }
        let mut k: usize = 0;
        while k < self.sets.len()
            invariant
                self.wf(),
                player.is_post_meld,
                k <= self.sets@.len(),
                forall|j: int| 0 <= j < k ==> group_ok(#[trigger] self.sets@[j].tiles@),
            decreases self.sets@.len() - k,
        {
            match self.sets[k].validate() {
                Err(_) => {
                    proof {
                        assert(!sets_all_ok(self.sets@)) by {
                            if sets_all_ok(self.sets@) {
                                assert(group_ok(self.sets@[k as int].tiles@));
                            }
                        }
                    }
                    return Err(TableError::IllegalMove);
                },
                Ok(()) => {
                    k += 1;
                },
            }
        }
        Ok(())
    }
}

} // verus!
