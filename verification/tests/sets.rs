use rummikub::identifier::Identifier;
use rummikub::set::{SetError, SetOrder, TileSet};
use rummikub::tile::{Color, Tile, TileError};

fn tile(value: u8, color: Color) -> Tile {
    match Tile::new(value, color) {
        Ok(t) => t,
        Err(_) => panic!("expected a legal tile"),
    }
}

fn set_of(tiles: Vec<Tile>) -> TileSet {
    let mut s = TileSet::new();
    s.set_tiles(tiles);
    s
}

#[test]
fn tile_validity_boundaries() {
    assert!(Tile::new(0, Color::Joker).is_ok());
    assert!(Tile::new(1, Color::Blue).is_ok());
    assert!(Tile::new(13, Color::Black).is_ok());
    assert!(matches!(Tile::new(0, Color::Blue), Err(TileError::IllegalTile)));
    assert!(matches!(Tile::new(14, Color::Red), Err(TileError::IllegalTile)));
    assert!(matches!(Tile::new(5, Color::Joker), Err(TileError::IllegalTile)));
    let joker = tile(0, Color::Joker);
    assert!(joker.is_joker());
    assert!(joker.is_valid());
    let eight = tile(8, Color::Orange);
    assert!(!eight.is_joker());
    assert!(eight.is_valid());
}

#[test]
fn short_set_fails_min_length() {
    let s = set_of(vec![tile(4, Color::Blue), tile(4, Color::Red)]);
    assert_eq!(s.validate(), Err(SetError::MinLength));
    let empty = set_of(vec![]);
    assert_eq!(empty.validate(), Err(SetError::MinLength));
}

#[test]
fn four_color_group_validates() {
    let s = set_of(vec![
        tile(8, Color::Blue),
        tile(8, Color::Red),
        tile(8, Color::Orange),
        tile(8, Color::Black),
    ]);
    assert_eq!(s.validate(), Ok(()));
    assert_eq!(s.get_order(), Some(SetOrder::Group));
}

#[test]
fn duplicate_color_group_fails_bad_tile() {
    let s = set_of(vec![
        tile(8, Color::Blue),
        tile(8, Color::Red),
        tile(8, Color::Red),
        tile(8, Color::Black),
    ]);
    assert_eq!(s.validate(), Err(SetError::BadTile));
    assert_eq!(s.get_order(), None);
}

#[test]
fn consecutive_run_is_rejected_by_equal_value_gate() {
    // the literal run check first demands one shared face value, so a
    // genuine consecutive run never classifies
    let s = set_of(vec![tile(5, Color::Red), tile(6, Color::Red), tile(7, Color::Red)]);
    assert_eq!(s.validate(), Err(SetError::BadTile));
    assert_eq!(s.get_order(), None);
}

#[test]
fn fourteen_tile_set_fails_max_length() {
    let mut tiles: Vec<Tile> = Vec::new();
    for v in 1..=13u8 {
        tiles.push(tile(v, Color::Red));
    }
    tiles.push(tile(13, Color::Red));
    assert_eq!(tiles.len(), 14);
    let s = set_of(tiles);
    assert_eq!(s.validate(), Err(SetError::MaxLength));
}

#[test]
fn sum_of_plain_set_is_arithmetic_sum() {
    let s = set_of(vec![tile(5, Color::Red), tile(6, Color::Red), tile(7, Color::Red)]);
    assert_eq!(s.get_sum(), 18);
}

#[test]
fn sum_with_joker_uses_group_interpretation() {
    let s = set_of(vec![tile(5, Color::Red), tile(0, Color::Joker), tile(5, Color::Blue)]);
    // the joker resolves to the first non-joker value
    assert_eq!(s.get_sum(), 15);
}

#[test]
fn sum_with_joker_scores_zero_when_nothing_classifies() {
    let s = set_of(vec![tile(5, Color::Red), tile(0, Color::Joker), tile(5, Color::Red)]);
    assert_eq!(s.get_sum(), 0);
}

#[test]
fn add_tile_keeps_order_and_rejects_bad_index() {
    let mut s = set_of(vec![tile(1, Color::Blue), tile(3, Color::Blue)]);
    let t2 = tile(2, Color::Blue);
    assert_eq!(s.add_tile(t2, 3), Err(SetError::OutOfBounds));
    assert_eq!(s.add_tile(t2, 1), Ok(()));
    let values: Vec<u8> = s.get_tiles().iter().map(|t| t.value).collect();
    assert_eq!(values, vec![1, 2, 3]);
}

#[test]
fn remove_tile_reports_former_index() {
    let a = tile(1, Color::Blue);
    let b = tile(2, Color::Blue);
    let c = tile(3, Color::Blue);
    let mut s = set_of(vec![a, b, c]);
    let removed = s.remove_tile_with_index(Identifier::Uuid(b.id));
    assert_eq!(removed, Some((1, b)));
    assert_eq!(s.len(), 2);
    assert_eq!(s.remove_tile(Identifier::Uuid(b.id)), None);
    let first = s.remove_tile(Identifier::Uuid(a.id));
    assert_eq!(first, Some(a));
}

#[test]
fn all_joker_set_fails_bad_tile() {
    let s = set_of(vec![tile(0, Color::Joker), tile(0, Color::Joker), tile(0, Color::Joker)]);
    assert_eq!(s.validate(), Err(SetError::BadTile));
    assert_eq!(s.get_order(), None);
    assert_eq!(s.get_sum(), 0);
}

#[test]
fn identifier_text_forms_agree_with_unique_form() {
    let t = tile(9, Color::Black);
    let ident = Identifier::Uuid(t.id);
    let text = ident.to_text();
    assert_eq!(text.chars().count(), 36);
    assert_eq!(text, uuid::Uuid::from_u128(t.id).to_string());
    let by_text = Identifier::Id(text.clone());
    assert_eq!(by_text.to_unique(), Some(t.id));
    assert!(by_text == ident);
    assert!(by_text.matches_id(t.id));

    // the short textual form finds the same tile in a set
    let mut s = set_of(vec![tile(1, Color::Blue), t, tile(2, Color::Blue)]);
    let removed = s.remove_tile(Identifier::Id(text));
    assert_eq!(removed, Some(t));
}

#[test]
fn identifier_parse_rejects_garbage() {
    assert_eq!(Identifier::Id(String::from("not-a-uuid")).to_unique(), None);
    let t = tile(2, Color::Red);
    assert!(!Identifier::Id(String::from("not-a-uuid")).matches_id(t.id));
    assert!(!Identifier::Uuid(t.id.wrapping_add(1)).matches_id(t.id));
}
