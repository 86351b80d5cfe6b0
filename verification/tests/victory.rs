//! Victory evaluation: exact coincidence of presents and receptacles.
use snowpush::level::{Entity, Level, Tile};

fn tiles(n: usize) -> Vec<Tile> {
    vec![Tile::Snow; n]
}

#[test]
fn no_receptacle_is_never_victorious() {
    // zero receptacles means no victory, wherever the presents stand
    let entities = vec![(Entity::Present, 0, 0), (Entity::Present, 1, 0), (Entity::Player, 2, 0)];
    assert!(!Level::victorious(4, 1, &tiles(4), &entities));
}

#[test]
fn empty_entity_list_is_never_victorious() {
    let entities: Vec<(Entity, i32, i32)> = Vec::new();
    assert!(!Level::victorious(4, 1, &tiles(4), &entities));
}

#[test]
fn adjacent_present_does_not_satisfy() {
    // a present one cell away from the receptacle does not count
    let entities = vec![(Entity::Receptacle, 1, 0), (Entity::Present, 2, 0)];
    assert!(!Level::victorious(4, 1, &tiles(4), &entities));
}

#[test]
fn coincident_present_satisfies() {
    let entities = vec![(Entity::Receptacle, 1, 0), (Entity::Present, 1, 0)];
    assert!(Level::victorious(4, 1, &tiles(4), &entities));
}

#[test]
fn every_receptacle_must_be_covered() {
    let entities = vec![
        (Entity::Receptacle, 1, 0),
        (Entity::Present, 1, 0),
        (Entity::Receptacle, 2, 0),
    ];
    assert!(!Level::victorious(4, 1, &tiles(4), &entities));
}

#[test]
fn two_receptacles_two_presents() {
    let entities = vec![
        (Entity::Receptacle, 1, 0),
        (Entity::Present, 1, 0),
        (Entity::Receptacle, 2, 0),
        (Entity::Present, 2, 0),
        (Entity::Player, 3, 0),
    ];
    assert!(Level::victorious(4, 1, &tiles(4), &entities));
}

#[test]
fn instance_victory_follows_current_entities() {
    let l = Level::from_string("win by push\n#####\n#pbt#\n#####").unwrap();
    let mut li = l.instance();
    assert!(!li.victorious());
    assert!(li.try_move((1, 0)));
    assert!(li.victorious());
    assert!(li.undo());
    assert!(!li.victorious());
}
