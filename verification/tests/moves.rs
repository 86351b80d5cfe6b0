//! The move-resolution algorithm: push chains, walls, ice momentum, rejection,
//! and undo.
use snowpush::level::{Entity, Level, Tile};

fn open_row(w: i32, tiles: Vec<Tile>, entities: Vec<(Entity, i32, i32)>) -> Level {
    assert_eq!(tiles.len(), w as usize);
    Level { title: String::from("row"), w, h: 1, tiles, entities }
}

#[test]
fn push_chain_moves_far_entity_first() {
    // Player at (1,0), Crate at (2,0), empty at (3,0): moving right succeeds
    // and both survive, the crate one cell ahead of the player.
    let l = open_row(
        5,
        vec![Tile::Snow, Tile::Snow, Tile::Snow, Tile::Snow, Tile::Snow],
        vec![(Entity::Player, 1, 0), (Entity::Crate, 2, 0)],
    );
    let mut li = l.instance();
    assert!(li.try_move((1, 0)));
    assert_eq!(li.current_entities, vec![(Entity::Player, 2, 0), (Entity::Crate, 3, 0)]);
}

#[test]
fn wall_blocks_all_pushes() {
    // Player at (1,0), Crate at (2,0), Wall at (3,0): moving right fails and
    // nothing moves.
    let l = open_row(
        5,
        vec![Tile::Snow, Tile::Snow, Tile::Snow, Tile::Wall, Tile::Snow],
        vec![(Entity::Player, 1, 0), (Entity::Crate, 2, 0)],
    );
    let mut li = l.instance();
    assert!(!li.try_move((1, 0)));
    assert_eq!(li.current_entities, vec![(Entity::Player, 1, 0), (Entity::Crate, 2, 0)]);
    assert!(li.history.is_empty());
}

#[test]
fn ice_momentum_chains_until_snow() {
    // Player at (0,0), Ice at (1,0) and (2,0), Snow at (3,0), Wall at (4,0):
    // one input slides the player across the ice and stops it on the snow.
    let l = open_row(
        5,
        vec![Tile::Snow, Tile::Ice, Tile::Ice, Tile::Snow, Tile::Wall],
        vec![(Entity::Player, 0, 0)],
    );
    let mut li = l.instance();
    assert!(li.try_move((1, 0)));
    assert_eq!(li.current_entities, vec![(Entity::Player, 3, 0)]);
    assert_eq!(li.history.len(), 1);
}

#[test]
fn ice_slide_stops_at_wall() {
    let l = open_row(
        4,
        vec![Tile::Snow, Tile::Ice, Tile::Ice, Tile::Wall],
        vec![(Entity::Player, 0, 0)],
    );
    let mut li = l.instance();
    assert!(li.try_move((1, 0)));
    assert_eq!(li.current_entities, vec![(Entity::Player, 2, 0)]);
}

#[test]
fn pushed_present_slides_over_ice() {
    // The pushed present lands on ice and keeps sliding to the snow cell; the
    // player only steps once.
    let l = open_row(
        6,
        vec![Tile::Snow, Tile::Snow, Tile::Ice, Tile::Ice, Tile::Snow, Tile::Wall],
        vec![(Entity::Player, 0, 0), (Entity::Present, 1, 0)],
    );
    let mut li = l.instance();
    assert!(li.try_move((1, 0)));
    assert_eq!(li.current_entities, vec![(Entity::Player, 1, 0), (Entity::Present, 4, 0)]);
}

#[test]
fn rejected_move_is_a_no_op() {
    // Pushing left out of the grid is rejected: entity list and history length
    // are unchanged.
    let l = open_row(3, vec![Tile::Snow, Tile::Snow, Tile::Snow], vec![(Entity::Player, 0, 0)]);
    let mut li = l.instance();
    let before = li.current_entities.clone();
    let history_before = li.history.len();
    assert!(!li.try_move((-1, 0)));
    assert_eq!(li.current_entities, before);
    assert_eq!(li.history.len(), history_before);
}

#[test]
fn receptacle_does_not_block_player_or_present() {
    let l = open_row(
        5,
        vec![Tile::Snow, Tile::Snow, Tile::Snow, Tile::Snow, Tile::Snow],
        vec![(Entity::Player, 1, 0), (Entity::Present, 2, 0), (Entity::Receptacle, 3, 0)],
    );
    let mut li = l.instance();
    assert!(li.try_move((1, 0)));
    assert_eq!(
        li.current_entities,
        vec![(Entity::Player, 2, 0), (Entity::Present, 3, 0), (Entity::Receptacle, 3, 0)]
    );
    assert!(li.victorious());
}

#[test]
fn crate_cannot_be_pushed_into_crate_against_wall() {
    let l = open_row(
        4,
        vec![Tile::Snow, Tile::Snow, Tile::Snow, Tile::Wall],
        vec![(Entity::Player, 0, 0), (Entity::Crate, 1, 0), (Entity::Crate, 2, 0)],
    );
    let mut li = l.instance();
    assert!(!li.try_move((1, 0)));
    assert_eq!(li.current_entities[0], (Entity::Player, 0, 0));
}

#[test]
fn sliding_player_pushes_a_crate_it_reaches() {
    // the player slides across two ice cells, and the momentum re-test lets it
    // push the crate it runs into before stopping on snow
    let l = Level::from_string("momentum push\n########\n#p//c  #\n########").unwrap();
    let mut li = l.instance();
    assert!(li.try_move((1, 0)));
    assert_eq!(li.current_entities, vec![(Entity::Player, 4, 1), (Entity::Crate, 5, 1)]);
}

#[test]
fn undo_restores_last_snapshot() {
    let l = open_row(
        4,
        vec![Tile::Snow, Tile::Snow, Tile::Snow, Tile::Snow],
        vec![(Entity::Player, 0, 0)],
    );
    let mut li = l.instance();
    assert!(li.try_move((1, 0)));
    assert_eq!(li.current_entities, vec![(Entity::Player, 1, 0)]);
    assert!(li.undo());
    assert_eq!(li.current_entities, vec![(Entity::Player, 0, 0)]);
    assert!(li.history.is_empty());
}

#[test]
fn undo_inverts_a_whole_run_of_moves() {
    let l = open_row(
        6,
        vec![Tile::Snow, Tile::Snow, Tile::Snow, Tile::Snow, Tile::Snow, Tile::Snow],
        vec![(Entity::Player, 0, 0), (Entity::Crate, 2, 0)],
    );
    let mut li = l.instance();
    let original = li.current_entities.clone();
    let mut successful = 0;
    for _ in 0..4 {
        if li.try_move((1, 0)) {
            successful += 1;
        }
    }
    assert!(successful > 0);
    for _ in 0..successful {
        assert!(li.undo());
    }
    assert_eq!(li.current_entities, original);
    assert!(li.history.is_empty());
    assert!(!li.undo());
}

#[test]
fn undo_with_no_history_reports_false() {
    let l = open_row(3, vec![Tile::Snow, Tile::Snow, Tile::Snow], vec![(Entity::Player, 0, 0)]);
    let mut li = l.instance();
    assert!(!li.undo());
}

#[test]
fn vertical_moves_work_too() {
    let text = "column\n###\n#p#\n# #\n#t#\n###";
    let l = Level::from_string(text).unwrap();
    let mut li = l.instance();
    assert!(li.try_move((0, 1)));
    assert_eq!(li.current_entities, vec![(Entity::Player, 1, 2), (Entity::Receptacle, 1, 3)]);
}

#[test]
fn accept_move_matches_try_move_on_player() {
    let l = open_row(
        4,
        vec![Tile::Snow, Tile::Snow, Tile::Wall, Tile::Snow],
        vec![(Entity::Player, 1, 0)],
    );
    let li = l.instance();
    assert!(!li.accept_move((1, 0), (1, 0)));
    assert!(li.accept_move((-1, 0), (1, 0)));
}
