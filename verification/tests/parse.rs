//! Parsing and serialization of the textual level format.
use snowpush::level::{Entity, Level, Tile};

#[test]
fn parse_simple_level() {
    let l = Level::from_string("my level\n###\n#p#\n###").unwrap();
    assert_eq!(l.title, "my level");
    assert_eq!(l.w, 3);
    assert_eq!(l.h, 3);
    assert_eq!(l.tiles.len(), 9);
    assert_eq!(l.tiles[0], Tile::Wall);
    assert_eq!(l.tiles[4], Tile::Snow);
    assert_eq!(l.entities, vec![(Entity::Player, 1, 1)]);
}

#[test]
fn parse_all_cell_kinds() {
    let l = Level::from_string("kinds\n# / \npPtT\nbBcC").unwrap();
    assert_eq!(l.w, 4);
    assert_eq!(l.h, 3);
    assert_eq!(
        l.tiles,
        vec![
            Tile::Wall,
            Tile::Snow,
            Tile::Ice,
            Tile::Snow,
            Tile::Snow,
            Tile::Ice,
            Tile::Snow,
            Tile::Ice,
            Tile::Snow,
            Tile::Ice,
            Tile::Snow,
            Tile::Ice,
        ]
    );
    assert_eq!(
        l.entities,
        vec![
            (Entity::Player, 0, 1),
            (Entity::Player, 1, 1),
            (Entity::Receptacle, 2, 1),
            (Entity::Receptacle, 3, 1),
            (Entity::Present, 0, 2),
            (Entity::Present, 1, 2),
            (Entity::Crate, 2, 2),
            (Entity::Crate, 3, 2),
        ]
    );
}

#[test]
fn parse_rejects_single_line() {
    assert!(Level::from_string("only a title").is_none());
}

#[test]
fn parse_rejects_ragged_rows() {
    assert!(Level::from_string("ragged\n###\n##").is_none());
}

#[test]
fn parse_rejects_unknown_character() {
    assert!(Level::from_string("bad\n###\n#x#\n###").is_none());
}

#[test]
fn parse_rejects_empty_text() {
    assert!(Level::from_string("").is_none());
}

#[test]
fn parse_round_trip_simple() {
    let text = "my level\n###\n#p#\n###";
    let l = Level::from_string(text).unwrap();
    assert_eq!(l.to_text(), text);
}

#[test]
fn parse_round_trip_all_kinds() {
    let text = "kinds\n# / \npPtT\nbBcC";
    let l = Level::from_string(text).unwrap();
    assert_eq!(l.to_text(), text);
}

#[test]
fn parse_round_trip_with_ice_lane() {
    let text = "slide\n#######\n#p//bt#\n#######";
    let l = Level::from_string(text).unwrap();
    assert_eq!(l.to_text(), text);
}

#[test]
fn parse_round_trip_trailing_newline_means_empty_row() {
    // a trailing newline adds an empty final line, so the data rows are ragged
    assert!(Level::from_string("title\n###\n").is_none());
}

#[test]
fn new_empty_is_walls() {
    let l = Level::new_empty(String::from("blank"));
    assert_eq!(l.title, "blank");
    assert_eq!(l.w, 7);
    assert_eq!(l.h, 7);
    assert_eq!(l.tiles.len(), 49);
    assert!(l.tiles.iter().all(|t| *t == Tile::Wall));
    assert!(l.entities.is_empty());
}
