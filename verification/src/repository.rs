//! The saved-level repository: a name-keyed store of levels with authorship
//! metadata. Persistence to disk is the caller's concern.
use vstd::prelude::*;
use crate::level::Level;
use crate::moves::{clone_entities, clone_tiles};

verus! {

/// What the repository keeps for each saved level: who saved it, when, and
/// the level itself.
pub struct LevelMetadata {
    creator: String,
    date: String,
    level: Level,
}

impl LevelMetadata {
    pub closed spec fn spec_creator(&self) -> Seq<char> {
        self.creator@
    }

    pub closed spec fn spec_date(&self) -> Seq<char> {
        self.date@
    }

    pub closed spec fn spec_level(&self) -> Level {
        self.level
    }

    pub fn creator(&self) -> (r: &String)
        ensures
            r@ == self.spec_creator(),
    {
        &self.creator
    }

    pub fn date(&self) -> (r: &String)
        ensures
            r@ == self.spec_date(),
    {
        &self.date
    }

    pub fn level(&self) -> (r: &Level)
        ensures
            *r == self.spec_level(),
    {
        &self.level
    }
}

/// The first entry stored under `name`, if any; entries are unique by name, so
/// it is the entry stored under `name`.
pub open spec fn lookup(
    entries: Seq<(String, LevelMetadata)>,
    name: Seq<char>,
) -> Option<LevelMetadata>
    decreases entries.len(),
{
    if entries.len() == 0 {
        None
    } else if entries[0].0@ == name {
        Some(entries[0].1)
    } else {
        lookup(entries.drop_first(), name)
    }
}

proof fn lemma_lookup_skip(entries: Seq<(String, LevelMetadata)>, name: Seq<char>, k: int)
    requires
        0 <= k < entries.len(),
        entries[k].0@ != name,
    ensures
        lookup(entries.skip(k), name) == lookup(entries.skip(k + 1), name),
{
    assert(entries.skip(k)[0] == entries[k]);
    assert(entries.skip(k).drop_first() =~= entries.skip(k + 1));
}

proof fn lemma_lookup_push(
    entries: Seq<(String, LevelMetadata)>,
    e: (String, LevelMetadata),
    name: Seq<char>,
)
    ensures
        lookup(entries.push(e), name) == if lookup(entries, name) is Some {
            lookup(entries, name)
        } else if e.0@ == name {
            Some(e.1)
        } else {
            None
        },
    decreases entries.len(),
{
    if entries.len() == 0 {
        assert(lookup(entries, name) is None);
        assert(entries.push(e)[0] == e);
        assert(entries.push(e).drop_first() =~= Seq::<(String, LevelMetadata)>::empty());
        assert(lookup(Seq::<(String, LevelMetadata)>::empty(), name) is None);
    } else {
        assert(entries.push(e)[0] == entries[0]);
        assert(entries.push(e).drop_first() =~= entries.drop_first().push(e));
        lemma_lookup_push(entries.drop_first(), e, name);
    }
}

proof fn lemma_lookup_update(
    entries: Seq<(String, LevelMetadata)>,
    idx: int,
    e: (String, LevelMetadata),
    name: Seq<char>,
)
    requires
        0 <= idx < entries.len(),
        entries[idx].0@ == e.0@,
        forall|a: int| 0 <= a < idx ==> (#[trigger] entries[a]).0@ != e.0@,
    ensures
        lookup(entries.update(idx, e), name) == if name == e.0@ {
            Some(e.1)
        } else {
            lookup(entries, name)
        },
    decreases idx,
{
    let updated = entries.update(idx, e);
    if idx == 0 {
        assert(updated[0] == e);
        assert(updated.drop_first() =~= entries.drop_first());
    } else {
        assert(updated[0] == entries[0]);
        assert(updated.drop_first() =~= entries.drop_first().update(idx - 1, e));
        assert(forall|a: int|
            0 <= a < idx - 1 ==> (#[trigger] entries.drop_first()[a]) == entries[a + 1]);
        lemma_lookup_update(entries.drop_first(), idx - 1, e, name);
    }
}

/// Relies on chrono's Local::now and the Display of the local date-time it
/// returns; the string depends on the clock and time zone, so nothing is
/// promised of it.
#[verifier::external_body]
fn local_now_string() -> String {
    chrono::offset::Local::now().to_string()
}

/// The saved levels, keyed by name.
pub struct LevelRepository {
    data: Vec<(String, LevelMetadata)>,
}

impl LevelRepository {
    /// Names are unique: at most one entry per level name.
    pub closed spec fn wf(&self) -> bool {
        forall|a: int, b: int|
            0 <= a < b < self.data@.len() ==> (#[trigger] self.data@[a]).0@ != (
            #[trigger] self.data@[b]).0@
    }

    pub closed spec fn spec_lookup(&self, name: Seq<char>) -> Option<LevelMetadata> {
        lookup(self.data@, name)
    }

    pub closed spec fn spec_contains(&self, name: Seq<char>) -> bool {
        self.spec_lookup(name) is Some
    }

    /// How many levels are saved.
    pub closed spec fn spec_len(&self) -> nat {
        self.data@.len()
    }

    /// The name of the `k`-th saved level, in insertion order.
    pub closed spec fn spec_name_at(&self, k: int) -> Seq<char> {
        self.data@[k].0@
    }

    /// An empty repository.
    pub fn new() -> (r: LevelRepository)
        ensures
            r.wf(),
            r.spec_len() == 0,
            forall|name: Seq<char>| !r.spec_contains(name),
    {
        let r = LevelRepository { data: Vec::new() };
        proof {
            assert(forall|name: Seq<char>| lookup(r.data@, name) is None);
        }
        r
    }

    /// Whether a level of this name was saved.
    #[verifier::loop_isolation(false)]
    pub fn contains_level(&self, name: String) -> (r: bool)
        ensures
            r == self.spec_contains(name@),
    {
        proof {
            assert(self.data@.skip(0) =~= self.data@);
        }
        let mut k: usize = 0;
        while k < self.data.len()
            invariant
                k <= self.data@.len(),
                lookup(self.data@, name@) == lookup(self.data@.skip(k as int), name@),
            decreases self.data@.len() - k,
        {
            if self.data[k].0 == name {
                proof {
                    assert(self.data@.skip(k as int)[0] == self.data@[k as int]);
                }
                return true;
            }
            proof {
                lemma_lookup_skip(self.data@, name@, k as int);
            }
            k += 1;
        }
        proof {
            assert(self.data@.skip(self.data@.len() as int) =~= Seq::<(
                String,
                LevelMetadata,
            )>::empty());
        }
        false
    }

    /// A copy of the level saved under this name, if any.
    #[verifier::loop_isolation(false)]
    pub fn get_level(&self, name: String) -> (r: Option<Level>)
        ensures
            r is Some <==> self.spec_contains(name@),
            r is Some ==> {
                let found = self.spec_lookup(name@).unwrap().spec_level();
                &&& r.unwrap().title@ == found.title@
                &&& r.unwrap().w == found.w
                &&& r.unwrap().h == found.h
                &&& r.unwrap().tiles@ == found.tiles@
                &&& r.unwrap().entities@ == found.entities@
            },
    {
        proof {
            assert(self.data@.skip(0) =~= self.data@);
        }
        let mut k: usize = 0;
        while k < self.data.len()
            invariant
                k <= self.data@.len(),
                lookup(self.data@, name@) == lookup(self.data@.skip(k as int), name@),
            decreases self.data@.len() - k,
        {
            if self.data[k].0 == name {
                proof {
                    assert(self.data@.skip(k as int)[0] == self.data@[k as int]);
                }
                let found = &self.data[k].1.level;
                return Some(
                    Level {
                        title: found.title.clone(),
                        w: found.w,
                        h: found.h,
                        tiles: clone_tiles(&found.tiles),
                        entities: clone_entities(&found.entities),
                    },
                );
            }
            proof {
                lemma_lookup_skip(self.data@, name@, k as int);
            }
            k += 1;
        }
        proof {
            assert(self.data@.skip(self.data@.len() as int) =~= Seq::<(
                String,
                LevelMetadata,
            )>::empty());
        }
        None
    }

    /// Store a level under a name with explicit metadata, replacing any
    /// existing entry of that name and leaving every other entry untouched.
    #[verifier::loop_isolation(false)]
    pub fn insert_level(&mut self, name: String, creator: String, date: String, level: Level)
        requires
            old(self).wf(),
        ensures
            final(self).wf(),
            final(self).spec_lookup(name@) matches Some(md) && md.spec_creator() == creator@
                && md.spec_date() == date@ && md.spec_level() == level,
            forall|other: Seq<char>|
                other != name@ ==> final(self).spec_lookup(other) == old(self).spec_lookup(other),
    {
        let md = LevelMetadata { creator, date, level };
        let ghost entries = self.data@;
        proof {
            assert(self.data@.skip(0) =~= self.data@);
        }
        let mut k: usize = 0;
        while k < self.data.len()
            invariant
                k <= entries.len(),
                self.data@ == entries,
                lookup(entries, name@) == lookup(entries.skip(k as int), name@),
                forall|a: int| 0 <= a < k ==> (#[trigger] entries[a]).0@ != name@,
            decreases entries.len() - k,
        {
            if self.data[k].0 == name {
                proof {
                    assert(entries.skip(k as int)[0] == entries[k as int]);
                    lemma_lookup_update(entries, k as int, (name, md), name@);
                    assert forall|other: Seq<char>| other != name@ implies lookup(
                        entries.update(k as int, (name, md)),
                        other,
                    ) == lookup(entries, other) by {
                        lemma_lookup_update(entries, k as int, (name, md), other);
                    }
                }
                self.data.set(k, (name, md));
                proof {
                    assert forall|a: int, b: int|
                        0 <= a < b < self.data@.len() implies (#[trigger] self.data@[a]).0@ != (
                    #[trigger] self.data@[b]).0@ by {
                        assert(entries[a].0@ != entries[b].0@);
                        if a != k && b != k {
                            assert(self.data@[a] == entries[a] && self.data@[b] == entries[b]);
                        }
                    }
                }
                return ;
            }
            proof {
                lemma_lookup_skip(entries, name@, k as int);
            }
            k += 1;
        }
        proof {
            assert(entries.skip(entries.len() as int) =~= Seq::<(String, LevelMetadata)>::empty());
            lemma_lookup_push(entries, (name, md), name@);
            assert forall|other: Seq<char>| other != name@ implies lookup(
                entries.push((name, md)),
                other,
            ) == lookup(entries, other) by {
                lemma_lookup_push(entries, (name, md), other);
            }
        }
        self.data.push((name, md));
        proof {
            assert forall|a: int, b: int|
                0 <= a < b < self.data@.len() implies (#[trigger] self.data@[a]).0@ != (
            #[trigger] self.data@[b]).0@ by {
                if b < entries.len() {
                    assert(entries[a].0@ != entries[b].0@);
                } else {
                    assert(self.data@[b] == (name, md));
                    assert(entries[a].0@ != name@);
                }
            }
        }
    }

    /// Store a level under a name, stamped by the author and the local clock,
    /// replacing any existing entry of that name. Writing the repository to
    /// storage afterwards is the caller's concern.
    pub fn save_level(&mut self, name: String, creator: String, level: Level)
        requires
            old(self).wf(),
        ensures
            final(self).wf(),
            final(self).spec_lookup(name@) matches Some(md) && md.spec_creator() == creator@
                && md.spec_level() == level,
            forall|other: Seq<char>|
                other != name@ ==> final(self).spec_lookup(other) == old(self).spec_lookup(other),
    {
        let date = local_now_string();
        self.insert_level(name, creator, date, level);
    }

    /// The saved level names, in insertion order.
    #[verifier::loop_isolation(false)]
    pub fn level_names(&self) -> (r: Vec<String>)
        ensures
            r@.len() == self.spec_len(),
            forall|k: int| 0 <= k < r@.len() ==> (#[trigger] r@[k])@ == self.spec_name_at(k),
    {
        let mut r: Vec<String> = Vec::new();
        let mut k: usize = 0;
        while k < self.data.len()
            invariant
                k <= self.data@.len(),
                r@.len() == k,
                forall|j: int| 0 <= j < k ==> (#[trigger] r@[j])@ == self.data@[j].0@,
            decreases self.data@.len() - k,
        {
            r.push(self.data[k].0.clone());
            k += 1;
        }
        r
    }

    /// The metadata saved under a name, borrowed for inspection.
    #[verifier::loop_isolation(false)]
    pub fn get_metadata(&self, name: &String) -> (r: Option<&LevelMetadata>)
        ensures
            match r {
                Some(md) => self.spec_lookup(name@) == Some(*md),
                None => !self.spec_contains(name@),
            },
    {
        proof {
            assert(self.data@.skip(0) =~= self.data@);
        }
        let mut k: usize = 0;
        while k < self.data.len()
            invariant
                k <= self.data@.len(),
                lookup(self.data@, name@) == lookup(self.data@.skip(k as int), name@),
            decreases self.data@.len() - k,
        {
            if self.data[k].0 == *name {
                proof {
                    assert(self.data@.skip(k as int)[0] == self.data@[k as int]);
                }
                return Some(&self.data[k].1);
            }
            proof {
                lemma_lookup_skip(self.data@, name@, k as int);
            }
            k += 1;
        }
        proof {
            assert(self.data@.skip(self.data@.len() as int) =~= Seq::<(
                String,
                LevelMetadata,
            )>::empty());
        }
        None
    }
}

} // verus!
