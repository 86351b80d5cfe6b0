//! The campaign menu: the three worlds and the player's place in them.
use vstd::prelude::*;
use crate::instance::Instance;
use crate::world::World;

verus! {

/// The menu's state: which world and level the cursor points at, the running
/// game if one was started, and the campaign's worlds.
pub struct CampaignMenu {
    pub world_selection: i32,
    pub level_selection: i32,
    pub game_instance: Option<Instance>,
    pub worlds: Vec<World>,
}

impl CampaignMenu {
    /// A fresh menu: the cursor on the first level of the first world, no game
    /// running, all three worlds loaded.
    pub fn new() -> (r: CampaignMenu)
        ensures
            r.world_selection == 0,
            r.level_selection == 0,
            r.game_instance is None,
            r.worlds@.len() == 3,
            r.worlds@[0].title@ == "world1"@,
            r.worlds@[1].title@ == "world2"@,
            r.worlds@[2].title@ == "world3"@,
    {
        CampaignMenu {
            game_instance: None,
            world_selection: 0,
            level_selection: 0,
            worlds: vec![World::world1(), World::world2(), World::world3()],
        }
    }
}

} // verus!
