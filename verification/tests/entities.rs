//! The capability predicates of each entity kind, and their consequences for
//! movement.
use snowpush::instance::{Instance, InstanceFrameOutcome};
use snowpush::level::{Entity, Level, Tile};

#[test]
fn capability_table() {
    let portal = Entity::Portal(1, String::from("elsewhere"));
    // movable by input or push
    assert!(Entity::Player.can_move());
    assert!(Entity::Crate.can_move());
    assert!(Entity::Present.can_move());
    assert!(!Entity::Receptacle.can_move());
    assert!(!portal.can_move());
    assert!(!Entity::Tree.can_move());
    assert!(!Entity::TreeStump.can_move());
    // may coexist under a player
    assert!(!Entity::Player.player_allowed());
    assert!(!Entity::Crate.player_allowed());
    assert!(!Entity::Present.player_allowed());
    assert!(Entity::Receptacle.player_allowed());
    assert!(portal.player_allowed());
    assert!(Entity::Tree.player_allowed());
    assert!(Entity::TreeStump.player_allowed());
    // may coexist under a pushed movable
    assert!(!Entity::Player.boxes_allowed());
    assert!(!Entity::Crate.boxes_allowed());
    assert!(!Entity::Present.boxes_allowed());
    assert!(Entity::Receptacle.boxes_allowed());
    assert!(!portal.boxes_allowed());
    assert!(!Entity::Tree.boxes_allowed());
    assert!(!Entity::TreeStump.boxes_allowed());
}

#[test]
fn player_steps_onto_portal_and_travels() {
    let level = Level {
        title: String::from("gateway"),
        w: 3,
        h: 1,
        tiles: vec![Tile::Snow; 3],
        entities: vec![
            (Entity::Player, 0, 0),
            (Entity::Portal(0, String::from("beyond")), 1, 0),
        ],
    };
    let mut inst = Instance::new(level.instance());
    assert!(inst.level.try_move((1, 0)));
    assert_eq!(inst.level.current_entities[0], (Entity::Player, 1, 0));
    assert_eq!(inst.evaluate_outcome(0), InstanceFrameOutcome::Travel(String::from("beyond")));
}

#[test]
fn player_cannot_push_another_player() {
    // a player is not player-allowed and not boxes-allowed, and pushing it
    // only succeeds if it can itself move on; against a wall it cannot
    let level = Level {
        title: String::from("crowd"),
        w: 3,
        h: 1,
        tiles: vec![Tile::Snow, Tile::Snow, Tile::Wall],
        entities: vec![(Entity::Player, 0, 0), (Entity::Player, 1, 0)],
    };
    let mut li = level.instance();
    assert!(!li.try_move((1, 0)));
    assert_eq!(li.current_entities[0], (Entity::Player, 0, 0));
    assert_eq!(li.current_entities[1], (Entity::Player, 1, 0));
}

#[test]
fn present_pushed_across_ice_onto_receptacle_wins() {
    // the push lands the present on ice; momentum carries it onto the
    // receptacle's snow cell in the same input
    let l = Level::from_string("delivery\n#######\n#pb//t#\n#######").unwrap();
    let mut li = l.instance();
    assert!(li.try_move((1, 0)));
    assert!(li.victorious());
    assert_eq!(li.current_entities[0], (Entity::Player, 2, 1));
    assert_eq!(li.current_entities[1], (Entity::Present, 5, 1));
}
