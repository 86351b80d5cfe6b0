//! The gameplay wrapper around a live level: what one frame of play reports
//! back to the session once input has been applied.
use vstd::prelude::*;
use crate::level::{victorious_spec, Entity};
use crate::moves::LevelInstance;

verus! {

/// A running playthrough of one level.
pub struct Instance {
    pub level: LevelInstance,
}

/// What a frame of play asks the session to do: record a completed level,
/// travel through a portal, abandon the instance, or nothing.
#[derive(PartialEq, Eq, Debug)]
pub enum InstanceFrameOutcome {
    Completion(String),
    Travel(String),
    Bail,
    Idle,
}

/// The token cost a portal asks for; zero for anything else.
pub open spec fn portal_tokens(e: Entity) -> i32 {
    match e {
        Entity::Portal(tokens, _) => tokens,
        _ => 0,
    }
}

/// The destination a portal names; empty for anything else.
pub open spec fn portal_dest(e: Entity) -> Seq<char> {
    match e {
        Entity::Portal(_, dest) => dest@,
        _ => Seq::<char>::empty(),
    }
}

/// Records `a` and `b` are a player standing exactly on a portal whose token
/// cost the caller's balance covers.
pub open spec fn trigger_at(
    ents: Seq<(Entity, i32, i32)>,
    a: int,
    b: int,
    num_tokens: i32,
) -> bool {
    &&& ents[a].0 is Player
    &&& ents[b].0 is Portal
    &&& ents[a].1 == ents[b].1
    &&& ents[a].2 == ents[b].2
    &&& portal_tokens(ents[b].0) <= num_tokens
}

/// The first portal index at or after `b` that the player record `a` triggers.
pub open spec fn first_portal_for(
    ents: Seq<(Entity, i32, i32)>,
    a: int,
    b: int,
    num_tokens: i32,
) -> Option<int>
    decreases ents.len() - b,
{
    if b < 0 || b >= ents.len() {
        None
    } else if trigger_at(ents, a, b, num_tokens) {
        Some(b)
    } else {
        first_portal_for(ents, a, b + 1, num_tokens)
    }
}

/// The first triggering (player, portal) index pair in scan order, starting
/// the outer scan at record `a`.
pub open spec fn first_trigger(
    ents: Seq<(Entity, i32, i32)>,
    num_tokens: i32,
    a: int,
) -> Option<(int, int)>
    decreases ents.len() - a,
{
    if a < 0 || a >= ents.len() {
        None
    } else {
        match first_portal_for(ents, a, 0, num_tokens) {
            Some(b) => Some((a, b)),
            None => first_trigger(ents, num_tokens, a + 1),
        }
    }
}

impl Instance {
    /// Begin play on a prepared level instance.
    pub fn new(level_instance: LevelInstance) -> (r: Instance)
        ensures
            r.level == level_instance,
    {
        Instance { level: level_instance }
    }

    /// The outcome test run each frame after moves were applied: the first
    /// player found standing exactly on a portal whose token cost is covered
    /// asks for travel to that portal's destination; otherwise a victorious
    /// board reports completion; otherwise nothing. Abandoning the instance is
    /// the caller's decision and never reported from here.
    #[verifier::loop_isolation(false)]
    pub fn evaluate_outcome(&self, num_tokens: i32) -> (r: InstanceFrameOutcome)
        ensures
            match first_trigger(self.level.current_entities@, num_tokens, 0) {
                Some(pair) => r matches InstanceFrameOutcome::Travel(d) && d@ == portal_dest(
                    self.level.current_entities@[pair.1].0,
                ),
                None => {
                    if victorious_spec(self.level.current_entities@) {
                        r matches InstanceFrameOutcome::Completion(t) && t@ == self.level.l.title@
                    } else {
                        r is Idle
                    }
                },
            },
    {
        let ents = &self.level.current_entities;
        let n = ents.len();
        let mut a: usize = 0;
        while a < n
            invariant
                a <= n,
                n == ents@.len(),
                first_trigger(ents@, num_tokens, 0) == first_trigger(ents@, num_tokens, a as int),
            decreases n - a,
        {
            let mut b: usize = 0;
            while b < n
                invariant
                    a < n,
                    b <= n,
                    n == ents@.len(),
                    first_portal_for(ents@, a as int, 0, num_tokens) == first_portal_for(
                        ents@,
                        a as int,
                        b as int,
                        num_tokens,
                    ),
                decreases n - b,
            {
                let player = &ents[a];
                let other = &ents[b];
                if matches!(&player.0, Entity::Player) && player.1 == other.1 && player.2
                    == other.2 {
                    let hit = match &other.0 {
                        Entity::Portal(tokens, dest) => {
                            if *tokens <= num_tokens {
                                Some(dest.clone())
                            } else {
                                Option::<String>::None
                            }
                        },
                        _ => Option::<String>::None,
                    };
                    if let Some(dest) = hit {
                        return InstanceFrameOutcome::Travel(dest);
                    }
                }
                b += 1;
            }
            a += 1;
        }
        if self.level.victorious() {
            return InstanceFrameOutcome::Completion(self.level.l.title.clone());
        }
        InstanceFrameOutcome::Idle
    }
}

} // verus!
