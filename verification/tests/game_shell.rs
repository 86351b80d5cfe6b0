//! The layers around the engine: worlds, the campaign menu, sessions, the
//! terminal, the per-frame outcome test, and the integer hash.
use snowpush::campaign_menu::CampaignMenu;
use snowpush::instance::{Instance, InstanceFrameOutcome};
use snowpush::kmath::khash;
use snowpush::level::{Entity, Level, Tile};
use snowpush::session::Session;
use snowpush::terminal::Terminal;
use snowpush::world::World;

#[test]
fn worlds_hold_their_levels() {
    let w1 = World::world1();
    assert_eq!(w1.title, "world1");
    assert_eq!(w1.levels.len(), 6);
    assert_eq!(w1.completion, vec![false; 6]);
    let w2 = World::world2();
    assert_eq!(w2.title, "world2");
    assert_eq!(w2.levels.len(), 8);
    assert_eq!(w2.completion, vec![false; 8]);
    let w3 = World::world3();
    assert_eq!(w3.title, "world3");
    assert_eq!(w3.levels.len(), 9);
    assert_eq!(w3.completion, vec![false; 9]);
}

#[test]
fn world_levels_parse_to_real_grids() {
    for world in [World::world1(), World::world2(), World::world3()] {
        for level in &world.levels {
            assert!(level.w > 0);
            assert!(level.h > 0);
            assert_eq!(level.tiles.len(), (level.w * level.h) as usize);
            assert!(level.entities.iter().any(|(e, _, _)| *e == Entity::Player));
            assert!(level.entities.iter().any(|(e, _, _)| *e == Entity::Receptacle));
        }
    }
}

#[test]
fn first_world_first_level_is_winnable() {
    let w1 = World::world1();
    let mut li = w1.levels[0].instance();
    assert!(!li.victorious());
    for _ in 0..3 {
        assert!(li.try_move((1, 0)));
    }
    assert!(li.victorious());
}

#[test]
fn campaign_menu_starts_at_the_top() {
    let menu = CampaignMenu::new();
    assert_eq!(menu.world_selection, 0);
    assert_eq!(menu.level_selection, 0);
    assert!(menu.game_instance.is_none());
    assert_eq!(menu.worlds.len(), 3);
}

#[test]
fn session_starts_clean() {
    let s = Session::new();
    assert_eq!(s.name, "santa");
    assert_eq!(s.date, "genesis");
    assert!(s.completed_levels.is_empty());
    assert!(s.current_instance.is_none());
    assert!(s.tile_selection.is_none());
    assert!(s.entity_selection.is_none());
    assert_eq!(s.place_tokens, 0);
    assert_eq!(s.place_link, "void");
    assert!(!s.level_repository.contains_level(String::from("anything")));
}

#[test]
fn terminal_prints_lines() {
    let mut t = Terminal::new();
    assert!(t.terminal_lines.is_empty());
    assert_eq!(t.terminal_str, "");
    t.tprint(String::from("hello"));
    t.tprint(String::from("world"));
    assert_eq!(t.terminal_lines, vec![String::from("hello"), String::from("world")]);
}

#[test]
fn outcome_reports_travel_when_tokens_cover_the_portal() {
    let level = Level {
        title: String::from("gate"),
        w: 3,
        h: 1,
        tiles: vec![Tile::Snow; 3],
        entities: vec![
            (Entity::Player, 1, 0),
            (Entity::Portal(2, String::from("next")), 1, 0),
        ],
    };
    let inst = Instance::new(level.instance());
    assert_eq!(inst.evaluate_outcome(5), InstanceFrameOutcome::Travel(String::from("next")));
    assert_eq!(inst.evaluate_outcome(2), InstanceFrameOutcome::Travel(String::from("next")));
}

#[test]
fn outcome_is_idle_when_tokens_fall_short() {
    let level = Level {
        title: String::from("gate"),
        w: 3,
        h: 1,
        tiles: vec![Tile::Snow; 3],
        entities: vec![
            (Entity::Player, 1, 0),
            (Entity::Portal(3, String::from("next")), 1, 0),
        ],
    };
    let inst = Instance::new(level.instance());
    assert_eq!(inst.evaluate_outcome(2), InstanceFrameOutcome::Idle);
}

#[test]
fn outcome_ignores_a_portal_the_player_is_not_on() {
    let level = Level {
        title: String::from("gate"),
        w: 3,
        h: 1,
        tiles: vec![Tile::Snow; 3],
        entities: vec![
            (Entity::Player, 0, 0),
            (Entity::Portal(0, String::from("next")), 2, 0),
        ],
    };
    let inst = Instance::new(level.instance());
    assert_eq!(inst.evaluate_outcome(9), InstanceFrameOutcome::Idle);
}

#[test]
fn outcome_reports_completion_on_victory() {
    let level = Level {
        title: String::from("done"),
        w: 3,
        h: 1,
        tiles: vec![Tile::Snow; 3],
        entities: vec![(Entity::Receptacle, 1, 0), (Entity::Present, 1, 0)],
    };
    let inst = Instance::new(level.instance());
    assert_eq!(inst.evaluate_outcome(0), InstanceFrameOutcome::Completion(String::from("done")));
}

#[test]
fn khash_mixes_exactly() {
    assert_eq!(khash(0), 1739749167);
    assert_eq!(khash(1), 150776505);
    assert_eq!(khash(12345), 3826328255);
    assert_eq!(khash(4294967295), 3360068443);
}
