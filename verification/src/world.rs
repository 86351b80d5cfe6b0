//! The built-in campaign: three worlds of levels with completion tracking.
use vstd::prelude::*;
use vstd::string::StringExecFns;
use crate::level::Level;

verus! {

/// A campaign chapter: its name, its levels in order, and which of them the
/// player has completed so far.
pub struct World {
    pub title: String,
    pub levels: Vec<Level>,
    pub completion: Vec<bool>,
}

/// A vector of `n` not-yet-completed flags.
#[verifier::loop_isolation(false)]
fn falses(n: usize) -> (r: Vec<bool>)
    ensures
        r@.len() == n,
        forall|k: int| 0 <= k < n ==> r@[k] == false,
{
    let mut r: Vec<bool> = Vec::new();
    let mut k: usize = 0;
    while k < n
        invariant
            k <= n,
            r@.len() == k,
            forall|j: int| 0 <= j < k ==> r@[j] == false,
        decreases n - k,
    {
        r.push(false);
        k += 1;
    }
    r
}

/// Parse one built-in level text, falling back to a blank level if the text
/// is rejected.
fn built_in(text: &str) -> (r: Level)
    ensures
        r.wf(),
{
    if text.unicode_len() <= 0x7FFF_FFFF {
        match Level::from_string(text) {
            Some(l) => l,
            None => Level::new_empty(String::from_str("void")),
        }
    } else {
        Level::new_empty(String::from_str("void"))
    }
}

impl World {
    /// The first world: plain snow pushing, no ice.
    pub fn world1() -> (r: World)
        ensures
            r.title@ == "world1"@,
            r.levels@.len() == 6,
            r.completion@.len() == 6,
            forall|k: int| 0 <= k < 6 ==> r.completion@[k] == false,
            forall|k: int| 0 <= k < 6 ==> (#[trigger] r.levels@[k]).wf(),
    {
        World {
            title: String::from_str("world1"),
            levels: vec![
                built_in("first steps\n#######\n#p b t#\n#######"),
                built_in("around the post\n#######\n#p# bt#\n#     #\n#######"),
                built_in("two parcels\n########\n#p b t #\n#  b t #\n########"),
                built_in("tight corner\n######\n#p b #\n## t #\n######"),
                built_in("long haul\n##########\n#p b    t#\n##########"),
                built_in("double row\n########\n#p bt  #\n#p bt  #\n########"),
            ],
            completion: falses(6),
        }
    }

    /// The second world: ice lanes and sliding pushes.
    pub fn world2() -> (r: World)
        ensures
            r.title@ == "world2"@,
            r.levels@.len() == 8,
            r.completion@.len() == 8,
            forall|k: int| 0 <= k < 8 ==> r.completion@[k] == false,
            forall|k: int| 0 <= k < 8 ==> (#[trigger] r.levels@[k]).wf(),
    {
        World {
            title: String::from_str("world2"),
            levels: vec![
                built_in("first slide\n#######\n#p//bt#\n#######"),
                built_in("glide stop\n########\n#p// bt#\n########"),
                built_in("frozen pond\n#######\n#p///t#\n#  b  #\n#######"),
                built_in("slick lane\n########\n#p/B//t#\n########"),
                built_in("two lanes\n########\n#p//b t#\n#p//b t#\n########"),
                built_in("ice corner\n######\n#p//##\n## bt#\n######"),
                built_in("cold start\n#######\n#P//bt#\n#######"),
                built_in("drift\n#########\n#p///b/t#\n#########"),
            ],
            completion: falses(8),
        }
    }

    /// The third world: crates in the way of the presents.
    pub fn world3() -> (r: World)
        ensures
            r.title@ == "world3"@,
            r.levels@.len() == 9,
            r.completion@.len() == 9,
            forall|k: int| 0 <= k < 9 ==> r.completion@[k] == false,
            forall|k: int| 0 <= k < 9 ==> (#[trigger] r.levels@[k]).wf(),
    {
        World {
            title: String::from_str("world3"),
            levels: vec![
                built_in("crate blocks\n########\n#p cb t#\n########"),
                built_in("shove aside\n#######\n#p c  #\n# b t #\n#######"),
                built_in("crate wall\n########\n#p c bt#\n#  c   #\n########"),
                built_in("push order\n#########\n#p b c t#\n#########"),
                built_in("cold crate\n########\n#p/C bt#\n########"),
                built_in("crate yard\n#######\n#p c t#\n# cb  #\n#######"),
                built_in("narrow pass\n######\n#pcb #\n##  t#\n######"),
                built_in("two jobs\n########\n#p cb t#\n#p  b t#\n########"),
                built_in("last mile\n##########\n#p c b  t#\n##########"),
            ],
            completion: falses(9),
        }
    }
}

} // verus!
