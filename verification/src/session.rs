//! A building-and-playing session: the repository of saved levels, campaign
//! progress, the level being edited, and the terminal. The caller drives it
//! with input events and handles rendering and persistence.
use vstd::prelude::*;
use vstd::string::StringExecFns;
use crate::instance::Instance;
use crate::level::Level;
use crate::repository::LevelRepository;
use crate::terminal::Terminal;

verus! {

/// The session's state. When `current_instance` is present the session is
/// playing it; otherwise the session is editing `current_level`.
pub struct Session {
    pub name: String,
    pub date: String,
    pub level_repository: LevelRepository,
    pub completed_levels: Vec<String>,
    pub current_level: Level,
    pub current_instance: Option<Instance>,
    pub tile_selection: Option<usize>,
    pub entity_selection: Option<usize>,
    pub terminal: Terminal,
    pub place_tokens: i32,
    pub place_link: String,
}

impl Session {
    /// A fresh session: an empty repository, no progress, a starter level on
    /// the editing bench, and a blank terminal. Loading a saved repository
    /// from storage is the caller's concern.
    pub fn new() -> (r: Session)
        ensures
            r.name@ == "santa"@,
            r.date@ == "genesis"@,
            r.level_repository.wf(),
            forall|name: Seq<char>| !r.level_repository.spec_contains(name),
            r.completed_levels@.len() == 0,
            r.current_instance is None,
            r.tile_selection is None,
            r.entity_selection is None,
            r.place_tokens == 0,
            r.place_link@ == "void"@,
            r.current_level.wf(),
    {
        let starter = "workbench\n#######\n#p b t#\n#######";
        let current_level = if starter.unicode_len() <= 0x7FFF_FFFF {
            match Level::from_string(starter) {
                Some(l) => l,
                None => Level::new_empty(String::from_str("workbench")),
            }
        } else {
            Level::new_empty(String::from_str("workbench"))
        };
        Session {
            name: String::from_str("santa"),
            date: String::from_str("genesis"),
            level_repository: LevelRepository::new(),
            completed_levels: Vec::new(),
            current_level,
            current_instance: None,
            tile_selection: None,
            entity_selection: None,
            terminal: Terminal::new(),
            place_tokens: 0,
            place_link: String::from_str("void"),
        }
    }
}

} // verus!
