//! The static level template: terrain tiles, entities, and victory evaluation.
use vstd::prelude::*;

verus! {

/// A terrain cell of the level grid.
#[derive(Clone, Copy, PartialEq, Eq, Structural, Debug)]
pub enum Tile {
    Snow,
    Ice,
    Wall,
}

/// A game object placed on the grid. The first field of a `Portal` is the
/// token count a player must have accumulated for the portal to trigger; the
/// second names the destination level.
#[derive(Clone, PartialEq, Eq, Debug)]
pub enum Entity {
    Player,
    Present,
    Crate,
    Receptacle,
    Portal(i32, String),
    Tree,
    TreeStump,
}

impl Entity {
    /// Whether the entity can be displaced at all, by input or by a push.
    pub open spec fn spec_can_move(&self) -> bool {
        match self {
            Entity::Receptacle | Entity::Portal(_, _) | Entity::Tree | Entity::TreeStump => false,
            _ => true,
        }
    }

    /// Whether a player may step onto the cell this entity occupies.
    pub open spec fn spec_player_allowed(&self) -> bool {
        match self {
            Entity::Receptacle | Entity::Portal(_, _) | Entity::Tree | Entity::TreeStump => true,
            _ => false,
        }
    }

    /// Whether a pushed movable may come to occupy the cell this entity occupies.
    pub open spec fn spec_boxes_allowed(&self) -> bool {
        match self {
            Entity::Receptacle => true,
            _ => false,
        }
    }

    #[verifier::when_used_as_spec(spec_can_move)]
    pub fn can_move(&self) -> (r: bool)
        ensures
            r == self.spec_can_move(),
    {
        match self {
            Entity::Receptacle | Entity::Portal(_, _) | Entity::Tree | Entity::TreeStump => false,
            _ => true,
        }
    }

    #[verifier::when_used_as_spec(spec_player_allowed)]
    pub fn player_allowed(&self) -> (r: bool)
        ensures
            r == self.spec_player_allowed(),
    {
        match self {
            Entity::Receptacle | Entity::Portal(_, _) | Entity::Tree | Entity::TreeStump => true,
            _ => false,
        }
    }

    #[verifier::when_used_as_spec(spec_boxes_allowed)]
    pub fn boxes_allowed(&self) -> (r: bool)
        ensures
            r == self.spec_boxes_allowed(),
    {
        match self {
            Entity::Receptacle => true,
            _ => false,
        }
    }

    /// An exact copy, written out variant by variant so verified callers know
    /// the copy equals the original.
    pub fn duplicate(&self) -> (r: Entity)
        ensures
            r == *self,
    {
        match self {
            Entity::Player => Entity::Player,
            Entity::Present => Entity::Present,
            Entity::Crate => Entity::Crate,
            Entity::Receptacle => Entity::Receptacle,
            Entity::Portal(tokens, dest) => Entity::Portal(*tokens, dest.clone()),
            Entity::Tree => Entity::Tree,
            Entity::TreeStump => Entity::TreeStump,
        }
    }
}

/// An entity record lies on the `w` by `h` grid.
pub open spec fn ent_in_bounds(w: int, h: int, e: (Entity, i32, i32)) -> bool {
    0 <= e.1 < w && 0 <= e.2 < h
}

/// A present stands exactly on cell `(x, y)`.
pub open spec fn present_at(ents: Seq<(Entity, i32, i32)>, x: i32, y: i32) -> bool {
    exists|k: int|
        0 <= k < ents.len() && (#[trigger] ents[k]).0 is Present && ents[k].1 == x && ents[k].2
            == y
}

/// Victory: at least one receptacle exists and every receptacle has a present
/// on exactly its own cell.
pub open spec fn victorious_spec(ents: Seq<(Entity, i32, i32)>) -> bool {
    &&& exists|k: int| 0 <= k < ents.len() && (#[trigger] ents[k]).0 is Receptacle
    &&& forall|k: int|
        0 <= k < ents.len() && (#[trigger] ents[k]).0 is Receptacle ==> present_at(
            ents,
            ents[k].1,
            ents[k].2,
        )
}

/// An entity list with no receptacle at all is never victorious, no matter
/// where any presents stand.
pub proof fn lemma_victory_needs_receptacle(ents: Seq<(Entity, i32, i32)>)
    requires
        forall|k: int| 0 <= k < ents.len() ==> !((#[trigger] ents[k]).0 is Receptacle),
    ensures
        !victorious_spec(ents),
{
}

/// Victory asks for exact coincidence: a receptacle whose own cell carries no
/// present defeats victory, however close any present stands.
pub proof fn lemma_victory_is_exact(ents: Seq<(Entity, i32, i32)>, k: int)
    requires
        0 <= k < ents.len(),
        ents[k].0 is Receptacle,
        forall|j: int|
            0 <= j < ents.len() && (#[trigger] ents[j]).0 is Present ==> !(ents[j].1 == ents[k].1
                && ents[j].2 == ents[k].2),
    ensures
        !victorious_spec(ents),
{
    assert(!present_at(ents, ents[k].1, ents[k].2));
}

/// The entity records that survive a resize: those whose cell stays on the new
/// grid, in their original order.
pub open spec fn retained_entities(
    ents: Seq<(Entity, i32, i32)>,
    new_w: i32,
    new_h: i32,
) -> Seq<(Entity, i32, i32)>
    decreases ents.len(),
{
    if ents.len() == 0 {
        Seq::<(Entity, i32, i32)>::empty()
    } else {
        (if ents[0].1 < new_w && ents[0].2 < new_h {
            seq![ents[0]]
        } else {
            Seq::<(Entity, i32, i32)>::empty()
        }) + retained_entities(ents.drop_first(), new_w, new_h)
    }
}

/// The immutable level template: title, grid dimensions, row-major tiles, and
/// the initial entity placement.
#[derive(Clone, PartialEq, Debug)]
pub struct Level {
    pub title: String,
    pub w: i32,
    pub h: i32,
    pub tiles: Vec<Tile>,
    pub entities: Vec<(Entity, i32, i32)>,
}

impl Level {
    /// Well-formedness: the tile grid matches the dimensions, the cell count
    /// fits signed index arithmetic, and every entity lies on the grid.
    pub open spec fn wf(&self) -> bool {
        &&& 0 <= self.w
        &&& 0 <= self.h
        &&& self.w * self.h <= i32::MAX
        &&& self.tiles@.len() == self.w * self.h
        &&& forall|k: int|
            0 <= k < self.entities@.len() ==> ent_in_bounds(
                self.w as int,
                self.h as int,
                #[trigger] self.entities@[k],
            )
    }

    pub open spec fn in_bounds(&self, x: int, y: int) -> bool {
        0 <= x < self.w && 0 <= y < self.h
    }

    pub open spec fn tile_at(&self, x: int, y: int) -> Tile {
        self.tiles@[y * self.w + x]
    }

    /// A blank 7 by 7 level made of walls, with no entities.
    #[verifier::loop_isolation(false)]
    pub fn new_empty(title: String) -> (r: Level)
        ensures
            r.title == title,
            r.w == 7,
            r.h == 7,
            r.tiles@.len() == 49,
            forall|k: int| 0 <= k < 49 ==> r.tiles@[k] == Tile::Wall,
            r.entities@ == Seq::<(Entity, i32, i32)>::empty(),
            r.wf(),
    {
        let mut tiles: Vec<Tile> = Vec::new();
        let mut k: usize = 0;
        while k < 49
            invariant
                k <= 49,
                tiles@.len() == k,
                forall|j: int| 0 <= j < k ==> tiles@[j] == Tile::Wall,
            decreases 49 - k,
        {
            tiles.push(Tile::Wall);
            k += 1;
        }
        Level { title, w: 7, h: 7, tiles, entities: Vec::new() }
    }

    /// Resize the grid as the editor's dims command does: keep the tiles of
    /// the overlapping region, fill newly exposed cells with walls, and drop
    /// the entities that fall off the grid, keeping the others in order.
    #[verifier::loop_isolation(false)]
    pub fn resize(&mut self, new_w: i32, new_h: i32)
        requires
            old(self).wf(),
            0 <= new_w,
            0 <= new_h,
            new_w * new_h <= i32::MAX,
        ensures
            final(self).wf(),
            final(self).title == old(self).title,
            final(self).w == new_w,
            final(self).h == new_h,
            forall|x: int, y: int|
                0 <= x < new_w && 0 <= y < new_h ==> final(self).tile_at(x, y) == (if x < old(
                    self,
                ).w && y < old(self).h {
                    old(self).tile_at(x, y)
                } else {
                    Tile::Wall
                }),
            final(self).entities@ == retained_entities(old(self).entities@, new_w, new_h),
    {
        let mut tiles: Vec<Tile> = Vec::new();
        let ghost old_level = *self;
        let mut y: i32 = 0;
        while y < new_h
            invariant
                0 <= y <= new_h,
                *self == old_level,
                tiles@.len() == y * new_w,
                forall|xx: int, yy: int|
                    0 <= xx < new_w && 0 <= yy < y ==> tiles@[yy * new_w + xx] == (if xx
                        < old_level.w && yy < old_level.h {
                        old_level.tile_at(xx, yy)
                    } else {
                        Tile::Wall
                    }),
            decreases new_h - y,
        {
            let mut x: i32 = 0;
            while x < new_w
                invariant
                    0 <= y < new_h,
                    0 <= x <= new_w,
                    *self == old_level,
                    tiles@.len() == y * new_w + x,
                    forall|xx: int, yy: int|
                        0 <= xx < new_w && 0 <= yy < y ==> tiles@[yy * new_w + xx] == (if xx
                            < old_level.w && yy < old_level.h {
                            old_level.tile_at(xx, yy)
                        } else {
                            Tile::Wall
                        }),
                    forall|xx: int|
                        0 <= xx < x ==> tiles@[y * new_w + xx] == (if xx < old_level.w && y
                            < old_level.h {
                            old_level.tile_at(xx as int, y as int)
                        } else {
                            Tile::Wall
                        }),
                decreases new_w - x,
            {
                proof {
                    assert(0 <= y * new_w + x && y * new_w + x + (new_w - x) <= new_w * new_h)
                        by (nonlinear_arith)
                        requires
                            0 <= x < new_w,
                            0 <= y < new_h,
                    ;
                }
                if x < self.w && y < self.h {
                    proof {
                        crate::moves::lemma_cell_index(old_level, x as int, y as int);
                    }
                    tiles.push(self.tiles[(self.w * y + x) as usize]);
                } else {
                    tiles.push(Tile::Wall);
                }
                proof {
                    assert forall|xx: int, yy: int|
                        0 <= xx < new_w && 0 <= yy < y implies tiles@[yy * new_w + xx] == (if xx
                        < old_level.w && yy < old_level.h {
                        old_level.tile_at(xx, yy)
                    } else {
                        Tile::Wall
                    }) by {
                        assert(yy * new_w + xx < y * new_w + x) by (nonlinear_arith)
                            requires
                                0 <= xx < new_w,
                                0 <= yy < y,
                                0 <= x,
                        ;
                    }
                }
                x += 1;
            }
            proof {
                assert(y * new_w + new_w == (y + 1) * new_w) by (nonlinear_arith);
            }
            y += 1;
        }
        let mut kept: Vec<(Entity, i32, i32)> = Vec::new();
        let ghost all = self.entities@;
        proof {
            assert(all.skip(0) =~= all);
            assert(Seq::<(Entity, i32, i32)>::empty() + retained_entities(all, new_w, new_h)
                =~= retained_entities(all, new_w, new_h));
        }
        let mut k: usize = 0;
        while k < self.entities.len()
            invariant
                k <= all.len(),
                *self == old_level,
                self.entities@ == all,
                retained_entities(all, new_w, new_h) == kept@ + retained_entities(
                    all.skip(k as int),
                    new_w,
                    new_h,
                ),
                forall|j: int|
                    0 <= j < kept@.len() ==> ent_in_bounds(
                        new_w as int,
                        new_h as int,
                        #[trigger] kept@[j],
                    ),
            decreases all.len() - k,
        {
            let e = &self.entities[k];
            proof {
                assert(all.skip(k as int)[0] == all[k as int]);
                assert(all.skip(k as int).drop_first() =~= all.skip(k as int + 1));
                assert(retained_entities(all.skip(k as int), new_w, new_h) == (if all[k as int].1
                    < new_w && all[k as int].2 < new_h {
                    seq![all[k as int]]
                } else {
                    Seq::<(Entity, i32, i32)>::empty()
                }) + retained_entities(all.skip(k as int + 1), new_w, new_h));
            }
            if e.1 < new_w && e.2 < new_h {
                let kind = e.0.duplicate();
                let ex = e.1;
                let ey = e.2;
                kept.push((kind, ex, ey));
                proof {
                    assert(kept@ =~= kept@.drop_last().push(all[k as int]));
                    assert(kept@.drop_last() + (seq![all[k as int]] + retained_entities(
                        all.skip(k as int + 1),
                        new_w,
                        new_h,
                    )) =~= kept@ + retained_entities(all.skip(k as int + 1), new_w, new_h));
                }
            } else {
                proof {
                    assert(Seq::<(Entity, i32, i32)>::empty() + retained_entities(
                        all.skip(k as int + 1),
                        new_w,
                        new_h,
                    ) =~= retained_entities(all.skip(k as int + 1), new_w, new_h));
                }
            }
            k += 1;
        }
        proof {
            assert(all.skip(all.len() as int) =~= Seq::<(Entity, i32, i32)>::empty());
            assert(kept@ + retained_entities(
                Seq::<(Entity, i32, i32)>::empty(),
                new_w,
                new_h,
            ) =~= kept@);
        }
        self.w = new_w;
        self.h = new_h;
        self.tiles = tiles;
        self.entities = kept;
        proof {
            assert((new_w as int) * (new_h as int) == (new_h as int) * (new_w as int))
                by (nonlinear_arith);
        }
    }

    /// Runtime test of well-formedness, for callers that assembled a level
    /// from parts rather than parsing it.
    #[verifier::loop_isolation(false)]
    pub fn is_well_formed(&self) -> (r: bool)
        ensures
            r == self.wf(),
    {
        if self.w < 0 || self.h < 0 {
            return false;
        }
        proof {
            assert((self.w as int) * (self.h as int) <= 0x7FFF_FFFF * 0x7FFF_FFFF)
                by (nonlinear_arith)
                requires
                    0 <= self.w <= 0x7FFF_FFFF,
                    0 <= self.h <= 0x7FFF_FFFF,
            ;
            assert(0 <= (self.w as int) * (self.h as int)) by (nonlinear_arith)
                requires
                    0 <= self.w,
                    0 <= self.h,
            ;
        }
        let prod = (self.w as i64) * (self.h as i64);
        if prod > (i32::MAX as i64) {
            return false;
        }
        if self.tiles.len() != prod as usize {
            return false;
        }
        let mut k: usize = 0;
        while k < self.entities.len()
            invariant
                k <= self.entities@.len(),
                forall|j: int|
                    0 <= j < k ==> ent_in_bounds(
                        self.w as int,
                        self.h as int,
                        #[trigger] self.entities@[j],
                    ),
            decreases self.entities@.len() - k,
        {
            let e = &self.entities[k];
            if !(0 <= e.1 && e.1 < self.w && 0 <= e.2 && e.2 < self.h) {
                return false;
            }
            k += 1;
        }
        true
    }

    /// Victory evaluation shared by the template and the live instance; only
    /// the entity list decides it.
    #[allow(unused_variables)]
    #[verifier::loop_isolation(false)]
    pub fn victorious(w: i32, h: i32, tiles: &[Tile], entities: &[(Entity, i32, i32)]) -> (r: bool)
        ensures
            r == victorious_spec(entities@),
    {
        let mut any_receptacle = false;
        let mut k: usize = 0;
        while k < entities.len()
            invariant
                k <= entities@.len(),
                any_receptacle == exists|j: int|
                    0 <= j < k && (#[trigger] entities@[j]).0 is Receptacle,
            decreases entities@.len() - k,
        {
            if matches!(&entities[k].0, Entity::Receptacle) {
                any_receptacle = true;
            }
            k += 1;
        }
        if !any_receptacle {
            return false;
        }
        let mut k: usize = 0;
        while k < entities.len()
            invariant
                k <= entities@.len(),
                victorious_spec(entities@) ==> exists|j: int|
                    0 <= j < entities@.len() && (#[trigger] entities@[j]).0 is Receptacle,
                forall|j: int|
                    0 <= j < k && (#[trigger] entities@[j]).0 is Receptacle ==> present_at(
                        entities@,
                        entities@[j].1,
                        entities@[j].2,
                    ),
                any_receptacle == exists|j: int|
                    0 <= j < entities@.len() && (#[trigger] entities@[j]).0 is Receptacle,
                any_receptacle,
            decreases entities@.len() - k,
        {
            if matches!(&entities[k].0, Entity::Receptacle) {
                if !Self::present_at_exec(entities, entities[k].1, entities[k].2) {
                    return false;
                }
            }
            k += 1;
        }
        true
    }

    #[verifier::loop_isolation(false)]
    fn present_at_exec(entities: &[(Entity, i32, i32)], x: i32, y: i32) -> (r: bool)
        ensures
            r == present_at(entities@, x, y),
    {
        let mut k: usize = 0;
        while k < entities.len()
            invariant
                k <= entities@.len(),
                forall|j: int|
                    0 <= j < k ==> !((#[trigger] entities@[j]).0 is Present && entities@[j].1 == x
                        && entities@[j].2 == y),
            decreases entities@.len() - k,
        {
            let e = &entities[k];
            if matches!(&e.0, Entity::Present) && e.1 == x && e.2 == y {
                return true;
            }
            k += 1;
        }
        false
    }
}

} // verus!
