use rummikub::identifier::Identifier;
use rummikub::player::Player;
use rummikub::table::{Table, TableError};
use rummikub::tile::{Color, Tile};
use rummikub::turn::{Move, Turn, TurnError};

fn tile(value: u8, color: Color) -> Tile {
    match Tile::new(value, color) {
        Ok(t) => t,
        Err(_) => panic!("expected a legal tile"),
    }
}

fn player(name: &str, rack: Vec<Tile>, is_turn: bool) -> Player {
    let mut p = Player::new(String::from(name));
    p.set_rack(rack);
    p.is_turn = is_turn;
    p
}

fn four_seats(rack_a: Vec<Tile>, rack_b: Vec<Tile>) -> Vec<Player> {
    vec![
        player("A", rack_a, true),
        player("B", rack_b, false),
        player("C", vec![], false),
        player("D", vec![], false),
    ]
}

#[test]
fn draw_moves_a_pool_tile_to_the_rack() {
    let pool_tile = tile(7, Color::Blue);
    let spare = tile(3, Color::Red);
    let players = four_seats(vec![tile(1, Color::Blue)], vec![]);
    let mut table = Table::new(players, vec![pool_tile, spare]);
    assert_eq!(table.draw(0, 0), Ok(()));
    assert_eq!(table.get_pool().len(), 1);
    assert_eq!(table.get_player(0).get_rack().len(), 2);
    assert_eq!(table.get_player(0).get_rack()[1], pool_tile);
    // not player 1's turn
    assert_eq!(table.draw(1, 0), Err(TableError::WrongTurn));
    assert_eq!(table.draw(0, 0), Ok(()));
    assert_eq!(table.draw(0, 0), Err(TableError::PoolEmpty));
}

#[test]
fn turn_rotation_wraps_and_keeps_one_flag() {
    let players = four_seats(vec![tile(1, Color::Blue)], vec![]);
    let mut table = Table::new(players, vec![]);
    assert_eq!(table.get_current_turn_player_index().0, 0);
    table.next_turn();
    assert_eq!(table.get_current_turn_player_index().0, 1);
    table.next_turn();
    table.next_turn();
    table.next_turn();
    assert_eq!(table.get_current_turn_player_index().0, 0);
    let flags: Vec<bool> = table.get_players().iter().map(|p| p.is_turn).collect();
    assert_eq!(flags, vec![true, false, false, false]);
}

#[test]
fn create_set_missing_tile_keeps_partial_removal() {
    let a = tile(8, Color::Blue);
    let b = tile(8, Color::Red);
    let players = four_seats(vec![a, b], vec![]);
    let mut table = Table::new(players, vec![]);
    let stranger = tile(9, Color::Black);
    let r = table.create_set(
        0,
        vec![Identifier::Uuid(a.id), Identifier::Uuid(stranger.id), Identifier::Uuid(b.id)],
    );
    assert_eq!(r, Err(TableError::MissingTile));
    // the found tiles were removed before the failure and stay removed
    assert_eq!(table.get_player(0).get_rack().len(), 0);
    assert_eq!(table.get_sets().len(), 0);
}

#[test]
fn removing_a_middle_tile_splits_the_set() {
    let tiles: Vec<Tile> = vec![
        tile(1, Color::Red),
        tile(2, Color::Red),
        tile(3, Color::Red),
        tile(4, Color::Red),
        tile(5, Color::Red),
    ];
    let ids: Vec<Identifier> = tiles.iter().map(|t| Identifier::Uuid(t.id)).collect();
    let players = four_seats(tiles.clone(), vec![]);
    let mut table = Table::new(players, vec![]);
    assert_eq!(table.create_set(0, ids), Ok(()));
    let set_id = table.get_sets()[0].id;
    let removed = table.remove_tile_from_set(Identifier::Uuid(set_id), Identifier::Uuid(tiles[2].id));
    assert_eq!(removed, Ok(tiles[2]));
    assert_eq!(table.get_sets().len(), 2);
    let kept: Vec<u8> = table.get_sets()[0].get_tiles().iter().map(|t| t.value).collect();
    let forked: Vec<u8> = table.get_sets()[1].get_tiles().iter().map(|t| t.value).collect();
    assert_eq!(kept, vec![1, 2]);
    assert_eq!(forked, vec![4, 5]);
}

#[test]
fn removing_an_end_tile_only_shrinks_the_set() {
    let tiles: Vec<Tile> = vec![
        tile(1, Color::Red),
        tile(2, Color::Red),
        tile(3, Color::Red),
        tile(4, Color::Red),
        tile(5, Color::Red),
    ];
    let ids: Vec<Identifier> = tiles.iter().map(|t| Identifier::Uuid(t.id)).collect();
    let players = four_seats(tiles.clone(), vec![]);
    let mut table = Table::new(players, vec![]);
    assert_eq!(table.create_set(0, ids), Ok(()));
    let set_id = table.get_sets()[0].id;
    assert!(table.remove_tile_from_set(Identifier::Uuid(set_id), Identifier::Uuid(tiles[0].id)).is_ok());
    assert_eq!(table.get_sets().len(), 1);
    assert_eq!(table.get_sets()[0].len(), 4);
    assert!(table.remove_tile_from_set(Identifier::Uuid(set_id), Identifier::Uuid(tiles[4].id)).is_ok());
    assert_eq!(table.get_sets().len(), 1);
    assert_eq!(table.get_sets()[0].len(), 3);
}

#[test]
fn add_move_enforces_the_turn_gate() {
    let rack = vec![tile(1, Color::Blue), tile(2, Color::Blue)];
    let players = four_seats(rack, vec![]);
    let table = Table::new(players, vec![]);
    let pre_meld = table.get_player(0);

    // a draw must be the turn's only move
    let mut turn = Turn::new();
    let draw = Move::Draw { tile_id: Identifier::Uuid(1) };
    assert_eq!(turn.add_move(pre_meld, draw.clone()), Ok(()));
    assert_eq!(
        turn.add_move(pre_meld, Move::Create { set_id: Identifier::Uuid(2) }),
        Err(TurnError::IllegalMove)
    );
    assert_eq!(turn.length(), 1);

    let mut turn2 = Turn::new();
    assert_eq!(
        turn2.add_move(pre_meld, Move::Create { set_id: Identifier::Uuid(2) }),
        Ok(())
    );
    assert_eq!(turn2.add_move(pre_meld, draw.clone()), Err(TurnError::IllegalMove));

    // a pre-meld player may only draw or create
    let add = Move::Add { set_id: Identifier::Uuid(2), tile_id: Identifier::Uuid(3) };
    assert_eq!(turn2.add_move(pre_meld, add.clone()), Err(TurnError::IllegalMove));

    // a post-meld player may
    let mut posted = player("E", vec![tile(5, Color::Red)], false);
    posted.is_post_meld = true;
    let mut turn3 = Turn::new();
    assert_eq!(turn3.add_move(&posted, add), Ok(()));

    // a player who has won may not move at all
    let winner = player("F", vec![], false);
    let mut turn4 = Turn::new();
    assert_eq!(
        turn4.add_move(&winner, Move::Create { set_id: Identifier::Uuid(2) }),
        Err(TurnError::IllegalMove)
    );

    // undo pops the latest move
    assert!(matches!(turn2.undo(), Some(Move::Create { .. })));
    assert!(turn2.undo().is_none());
    turn.clear();
    assert_eq!(turn.length(), 0);
}

#[test]
fn add_tile_to_set_moves_a_rack_tile_into_the_set() {
    let in_set = vec![tile(1, Color::Red), tile(2, Color::Red), tile(3, Color::Red)];
    let ids: Vec<Identifier> = in_set.iter().map(|t| Identifier::Uuid(t.id)).collect();
    let spare = tile(4, Color::Red);
    let other = tile(5, Color::Blue);
    let mut rack = in_set.clone();
    rack.push(spare);
    rack.push(other);
    let players = four_seats(rack, vec![]);
    let mut table = Table::new(players, vec![]);
    assert_eq!(table.create_set(0, ids), Ok(()));
    let set_ident = Identifier::Uuid(table.get_sets()[0].id);

    // a tile the player does not hold
    let r = table.add_tile_to_set(0, set_ident.clone(), Identifier::Uuid(7), 0);
    assert_eq!(r, Err(TableError::MissingTile));

    // a bad insertion index: the tile stays in the rack
    let r = table.add_tile_to_set(0, set_ident.clone(), Identifier::Uuid(spare.id), 9);
    assert_eq!(r, Err(TableError::IllegalMove));
    assert_eq!(table.get_player(0).get_rack().len(), 2);
    assert_eq!(table.get_sets()[0].len(), 3);

    // an unknown set: the tile stays in the rack too
    let r = table.add_tile_to_set(0, Identifier::Uuid(77), Identifier::Uuid(spare.id), 0);
    assert_eq!(r, Err(TableError::UnknownSet));
    assert_eq!(table.get_player(0).get_rack().len(), 2);

    // a successful insertion at the back
    let r = table.add_tile_to_set(0, set_ident, Identifier::Uuid(other.id), 3);
    assert_eq!(r, Ok(()));
    assert_eq!(table.get_player(0).get_rack().len(), 1);
    let values: Vec<u8> = table.get_sets()[0].get_tiles().iter().map(|t| t.value).collect();
    assert_eq!(values, vec![1, 2, 3, 5]);
}

#[test]
fn end_turn_rejects_unknown_sets_and_foreign_moves() {
    let rack = vec![tile(9, Color::Blue)];
    let players = four_seats(rack, vec![]);
    let table = Table::new(players, vec![]);

    let mut turn = Turn::new();
    assert_eq!(
        turn.add_move(table.get_player(0), Move::Create { set_id: Identifier::Uuid(99) }),
        Ok(())
    );
    assert_eq!(
        table.end_turn(&turn, table.get_player(0)),
        Err(TableError::UnknownSet)
    );

    // a pre-meld log holding anything but a creation fails outright
    let mut turn2 = Turn::new();
    turn2.moves.push(Move::Draw { tile_id: Identifier::Uuid(1) });
    assert_eq!(
        table.end_turn(&turn2, table.get_player(0)),
        Err(TableError::IllegalMove)
    );
}

#[test]
fn end_turn_meld_threshold_is_strict() {
    // a created set summing to exactly 30 is not enough
    let low = vec![tile(10, Color::Blue), tile(10, Color::Red), tile(10, Color::Orange)];
    let ids: Vec<Identifier> = low.iter().map(|t| Identifier::Uuid(t.id)).collect();
    let mut rack = low.clone();
    rack.push(tile(1, Color::Black));
    let players = four_seats(rack, vec![]);
    let mut table = Table::new(players, vec![]);
    assert_eq!(table.create_set(0, ids), Ok(()));
    let mut turn = Turn::new();
    let set_ident = Identifier::Uuid(table.get_sets()[0].id);
    assert_eq!(
        turn.add_move(table.get_player(0), Move::Create { set_id: set_ident }),
        Ok(())
    );
    assert_eq!(
        table.end_turn(&turn, table.get_player(0)),
        Err(TableError::MeldThreshold)
    );

    // one more point crosses the threshold
    let high = vec![tile(10, Color::Blue), tile(11, Color::Red), tile(10, Color::Orange)];
    let ids: Vec<Identifier> = high.iter().map(|t| Identifier::Uuid(t.id)).collect();
    let mut rack = high.clone();
    rack.push(tile(1, Color::Black));
    let players = four_seats(rack, vec![]);
    let mut table = Table::new(players, vec![]);
    assert_eq!(table.create_set(0, ids), Ok(()));
    let mut turn = Turn::new();
    let set_ident = Identifier::Uuid(table.get_sets()[0].id);
    assert_eq!(
        turn.add_move(table.get_player(0), Move::Create { set_id: set_ident }),
        Ok(())
    );
    assert_eq!(table.end_turn(&turn, table.get_player(0)), Ok(()));
}

#[test]
fn pre_meld_opening_play_commits_and_rotates() {
    let meld = vec![
        tile(8, Color::Blue),
        tile(8, Color::Red),
        tile(8, Color::Black),
        tile(8, Color::Orange),
    ];
    let ids: Vec<Identifier> = meld.iter().map(|t| Identifier::Uuid(t.id)).collect();
    let mut rack = meld;
    rack.push(tile(1, Color::Orange));
    let players = four_seats(rack, vec![tile(1, Color::Blue)]);
    let mut table = Table::new(players, vec![tile(2, Color::Red)]);

    let mut turn = Turn::new();
    assert_eq!(table.create_set(0, ids), Ok(()));
    let set_ident = Identifier::Uuid(table.get_sets()[0].id);
    assert_eq!(
        turn.add_move(table.get_player(0), Move::Create { set_id: set_ident }),
        Ok(())
    );
    // sum 32 crosses the threshold
    assert_eq!(table.end_turn(&turn, table.get_player(0)), Ok(()));

    // the host commits the turn: meld state, log, rotation
    table.players[0].is_post_meld = true;
    turn.clear();
    table.next_turn();
    assert!(table.get_player(0).is_post_meld);
    assert_eq!(table.get_current_turn_player_index().0, 1);
    assert!(table.get_player(1).is_turn);
}

#[test]
fn moving_to_an_unregistered_set_changes_nothing() {
    let rack_b = vec![tile(4, Color::Blue)];
    let tiles: Vec<Tile> = vec![tile(1, Color::Red), tile(2, Color::Red), tile(3, Color::Red)];
    let ids: Vec<Identifier> = tiles.iter().map(|t| Identifier::Uuid(t.id)).collect();
    let players = four_seats(tiles.clone(), rack_b);
    let mut table = Table::new(players, vec![]);
    assert_eq!(table.create_set(0, ids), Ok(()));
    table.players[1].is_post_meld = true;

    let origin = Identifier::Uuid(table.get_sets()[0].id);
    let sets_before: Vec<Vec<Tile>> =
        table.get_sets().iter().map(|s| s.get_tiles().clone()).collect();
    let racks_before: Vec<Vec<Tile>> =
        table.get_players().iter().map(|p| p.get_rack().clone()).collect();

    let bogus_target = Identifier::Uuid(424242);
    let r = table.move_tile_to_set(origin, bogus_target, Identifier::Uuid(tiles[0].id), 0);
    assert_eq!(r, Err(TableError::UnknownSet));

    let sets_after: Vec<Vec<Tile>> =
        table.get_sets().iter().map(|s| s.get_tiles().clone()).collect();
    let racks_after: Vec<Vec<Tile>> =
        table.get_players().iter().map(|p| p.get_rack().clone()).collect();
    assert_eq!(sets_before, sets_after);
    assert_eq!(racks_before, racks_after);
}

#[test]
fn failed_moves_restore_the_origin_set() {
    let a_tiles = vec![tile(1, Color::Red), tile(2, Color::Red), tile(3, Color::Red)];
    let b_tiles = vec![tile(5, Color::Blue), tile(6, Color::Blue), tile(7, Color::Blue)];
    let mut rack = a_tiles.clone();
    rack.extend(b_tiles.clone());
    let a_ids: Vec<Identifier> = a_tiles.iter().map(|t| Identifier::Uuid(t.id)).collect();
    let b_ids: Vec<Identifier> = b_tiles.iter().map(|t| Identifier::Uuid(t.id)).collect();
    let players = four_seats(rack, vec![]);
    let mut table = Table::new(players, vec![]);
    assert_eq!(table.create_set(0, a_ids), Ok(()));
    assert_eq!(table.create_set(0, b_ids), Ok(()));
    let set_a = Identifier::Uuid(table.get_sets()[0].id);
    let set_b = Identifier::Uuid(table.get_sets()[1].id);

    // a bad index after an interior removal: the split is rolled back
    let r = table.move_tile_to_set(
        set_a.clone(),
        set_a.clone(),
        Identifier::Uuid(a_tiles[1].id),
        99,
    );
    assert_eq!(r, Err(TableError::IllegalMove));
    assert_eq!(table.get_sets().len(), 2);
    let values: Vec<u8> = table.get_sets()[0].get_tiles().iter().map(|t| t.value).collect();
    assert_eq!(values, vec![1, 2, 3]);

    // a successful end-tile move commits
    let r = table.move_tile_to_set(set_a, set_b, Identifier::Uuid(a_tiles[2].id), 0);
    assert_eq!(r, Ok(()));
    let a_values: Vec<u8> = table.get_sets()[0].get_tiles().iter().map(|t| t.value).collect();
    let b_values: Vec<u8> = table.get_sets()[1].get_tiles().iter().map(|t| t.value).collect();
    assert_eq!(a_values, vec![1, 2]);
    assert_eq!(b_values, vec![3, 5, 6, 7]);
}

#[test]
fn undo_inverts_create_draw_and_add() {
    let a = tile(8, Color::Blue);
    let b = tile(8, Color::Red);
    let c = tile(8, Color::Black);
    let players = four_seats(vec![a, b, c], vec![]);
    let mut table = Table::new(players, vec![]);
    let ids = vec![Identifier::Uuid(a.id), Identifier::Uuid(b.id), Identifier::Uuid(c.id)];
    assert_eq!(table.create_set(0, ids), Ok(()));
    let set_ident = Identifier::Uuid(table.get_sets()[0].id);

    // undo the creation: the set dissolves back into the rack
    assert_eq!(table.undo_move(0, Move::Create { set_id: set_ident }), Ok(()));
    assert_eq!(table.get_sets().len(), 0);
    assert_eq!(table.get_player(0).get_rack().len(), 3);

    // undo a draw: the tile leaves the rack for the pool
    assert_eq!(
        table.undo_move(0, Move::Draw { tile_id: Identifier::Uuid(a.id) }),
        Ok(())
    );
    assert_eq!(table.get_pool().len(), 1);
    assert_eq!(table.get_player(0).get_rack().len(), 2);

    // undo an addition: the tile goes from the set back to the rack
    let ids = vec![Identifier::Uuid(b.id), Identifier::Uuid(c.id)];
    assert_eq!(table.create_set(0, ids), Ok(()));
    let new_set = Identifier::Uuid(table.get_sets()[0].id);
    assert_eq!(
        table.undo_move(0, Move::Add { set_id: new_set, tile_id: Identifier::Uuid(b.id) }),
        Ok(())
    );
    assert_eq!(table.get_sets()[0].len(), 1);
    assert_eq!(table.get_player(0).get_rack().len(), 1);

    // undoing a removal is a design gap, reported as unsupported
    assert_eq!(
        table.undo_move(
            0,
            Move::Remove { set_id: Identifier::Uuid(1), tile_id: Identifier::Uuid(2) },
        ),
        Err(TableError::Unsupported)
    );
}

#[test]
fn post_meld_end_turn_validates_every_set() {
    let good = vec![tile(9, Color::Blue), tile(9, Color::Red), tile(9, Color::Black)];
    let ids: Vec<Identifier> = good.iter().map(|t| Identifier::Uuid(t.id)).collect();
    let players = four_seats(good.clone(), vec![]);
    let mut table = Table::new(players, vec![]);
    assert_eq!(table.create_set(0, ids), Ok(()));
    table.players[0].is_post_meld = true;
    let turn = Turn::new();
    assert_eq!(table.end_turn(&turn, table.get_player(0)), Ok(()));

    // break the table: a two-tile set cannot classify
    let set_id = table.get_sets()[0].id;
    assert!(table
        .remove_tile_from_set(Identifier::Uuid(set_id), Identifier::Uuid(good[0].id))
        .is_ok());
    assert_eq!(
        table.end_turn(&turn, table.get_player(0)),
        Err(TableError::IllegalMove)
    );
}
