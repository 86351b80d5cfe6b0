//! The terminal's command parsing and the editor's grid resize.
use snowpush::level::{Entity, Level, Tile};
use snowpush::terminal::{Terminal, TerminalCommand};

fn parse(s: &str) -> Option<TerminalCommand> {
    Terminal::parse_command(s)
}

#[test]
fn parses_open_with_one_argument() {
    match parse("open cave") {
        Some(TerminalCommand::Load(name)) => assert_eq!(name, "cave"),
        other => panic!("unexpected: {:?}", other.is_some()),
    }
    assert!(parse("open two words").is_none());
    assert!(parse("open").is_none());
}

#[test]
fn parses_link_and_tokens() {
    match parse("link next level") {
        Some(TerminalCommand::Link(_)) => panic!("two arguments must not parse"),
        _ => {},
    }
    match parse("link next") {
        Some(TerminalCommand::Link(arg)) => assert_eq!(arg, "next"),
        _ => panic!("link should parse"),
    }
    match parse("tokens 12") {
        Some(TerminalCommand::Tokens(n)) => assert_eq!(n, 12),
        _ => panic!("tokens should parse"),
    }
    match parse("tokens +7") {
        Some(TerminalCommand::Tokens(n)) => assert_eq!(n, 7),
        _ => panic!("a leading plus is accepted"),
    }
    assert!(parse("tokens twelve").is_none());
    assert!(parse("tokens 4294967296").is_none());
    match parse("tokens 4294967295") {
        Some(TerminalCommand::Tokens(n)) => assert_eq!(n, u32::MAX),
        _ => panic!("the largest value still parses"),
    }
}

#[test]
fn parses_bare_words() {
    assert!(matches!(parse("save"), Some(TerminalCommand::Save)));
    assert!(matches!(parse("list"), Some(TerminalCommand::List)));
    assert!(matches!(parse("play"), Some(TerminalCommand::Play)));
    assert!(matches!(parse("reset"), Some(TerminalCommand::Reset)));
    assert!(parse("save it").is_none());
    assert!(parse("").is_none());
    assert!(parse("fly").is_none());
}

#[test]
fn parses_dims_with_two_numbers() {
    match parse("dims 9 4") {
        Some(TerminalCommand::Dims(w, h)) => {
            assert_eq!(w, 9);
            assert_eq!(h, 4);
        },
        _ => panic!("dims should parse"),
    }
    assert!(parse("dims 9").is_none());
    assert!(parse("dims 9 4 2").is_none());
    assert!(parse("dims nine 4").is_none());
}

#[test]
fn resize_keeps_overlap_and_drops_stray_entities() {
    let mut l = Level::from_string("yard\n####\n#pb#\n####").unwrap();
    l.resize(2, 2);
    assert_eq!(l.w, 2);
    assert_eq!(l.h, 2);
    assert_eq!(l.tiles, vec![Tile::Wall, Tile::Wall, Tile::Wall, Tile::Snow]);
    assert_eq!(l.entities, vec![(Entity::Player, 1, 1)]);
}

#[test]
fn resize_fills_new_ground_with_walls() {
    let mut l = Level::from_string("plot\n##\n#p\n##").unwrap();
    l.resize(3, 3);
    assert_eq!(l.w, 3);
    assert_eq!(l.h, 3);
    assert_eq!(
        l.tiles,
        vec![
            Tile::Wall,
            Tile::Wall,
            Tile::Wall,
            Tile::Wall,
            Tile::Snow,
            Tile::Wall,
            Tile::Wall,
            Tile::Wall,
            Tile::Wall,
        ]
    );
    assert_eq!(l.entities, vec![(Entity::Player, 1, 1)]);
}
