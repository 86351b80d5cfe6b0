//! The live playthrough state and the move-resolution algorithm: recursive
//! push acceptance, push application, ice momentum settling, and undo.
use vstd::prelude::*;
use crate::level::{ent_in_bounds, victorious_spec, Entity, Level, Tile};

verus! {

/// A directional input: one of the four unit grid vectors.
pub open spec fn is_dir(d: (i32, i32)) -> bool {
    ||| d == (1i32, 0i32)
    ||| d == (-1i32, 0i32)
    ||| d == (0i32, 1i32)
    ||| d == (0i32, -1i32)
}

/// Cells left on the grid ahead of `(x, y)` in direction `dir`, counting the
/// cell itself; push recursion walks this ray, so it bounds the recursion.
pub open spec fn ray_measure(l: Level, dir: (i32, i32), x: int, y: int) -> int {
    if dir.0 == 1 {
        l.w - x
    } else if dir.0 == -1 {
        x + 1
    } else if dir.1 == 1 {
        l.h - y
    } else {
        y + 1
    }
}

/// The first movable entity in list order standing on `(x, y)`: the one the
/// resolution algorithm treats as "the entity at that position".
pub open spec fn first_mover_at(ents: Seq<(Entity, i32, i32)>, x: int, y: int) -> Option<Entity>
    decreases ents.len(),
{
    if ents.len() == 0 {
        None
    } else if ents[0].1 == x && ents[0].2 == y && ents[0].0.spec_can_move() {
        Some(ents[0].0)
    } else {
        first_mover_at(ents.drop_first(), x, y)
    }
}

/// Some entity on `(x, y)` refuses to share its cell with a player.
pub open spec fn blocks_player(ents: Seq<(Entity, i32, i32)>, x: int, y: int) -> bool {
    exists|k: int|
        0 <= k < ents.len() && (#[trigger] ents[k]).1 == x && ents[k].2 == y
            && !ents[k].0.spec_player_allowed()
}

/// Some entity on `(x, y)` refuses to share its cell with a pushed movable.
pub open spec fn blocks_boxes(ents: Seq<(Entity, i32, i32)>, x: int, y: int) -> bool {
    exists|k: int|
        0 <= k < ents.len() && (#[trigger] ents[k]).1 == x && ents[k].2 == y
            && !ents[k].0.spec_boxes_allowed()
}

/// Some movable entity stands on `(x, y)`.
pub open spec fn has_mover_at(ents: Seq<(Entity, i32, i32)>, x: int, y: int) -> bool {
    exists|k: int|
        0 <= k < ents.len() && (#[trigger] ents[k]).1 == x && ents[k].2 == y
            && ents[k].0.spec_can_move()
}

/// Can something be pushed off `(x, y)` one step in `dir`, cascading through a
/// chain of movables? Stepping off the grid or into a wall is refused; a
/// player may step wherever nothing player-disallowed stands; a pushed movable
/// may land wherever nothing boxes-disallowed stands; otherwise the
/// obstruction itself must accept being pushed one cell further.
pub open spec fn accept_spec(
    l: Level,
    ents: Seq<(Entity, i32, i32)>,
    dir: (i32, i32),
    x: int,
    y: int,
) -> bool
    decreases ray_measure(l, dir, x, y)
        when is_dir(dir) && l.in_bounds(x, y)
{
    let cx = x + dir.0;
    let cy = y + dir.1;
    if !l.in_bounds(cx, cy) {
        false
    } else if l.tile_at(cx, cy) is Wall {
        false
    } else {
        match first_mover_at(ents, x, y) {
            None => true,
            Some(e) => {
                if e is Player && !blocks_player(ents, cx, cy) {
                    true
                } else if !blocks_boxes(ents, cx, cy) {
                    true
                } else {
                    accept_spec(l, ents, dir, cx, cy)
                }
            },
        }
    }
}

/// Row-major cell indexing stays within the tile grid for any on-grid cell.
pub proof fn lemma_cell_index(l: Level, x: int, y: int)
    requires
        l.wf(),
        l.in_bounds(x, y),
    ensures
        0 <= l.w * y + x < l.tiles@.len(),
        l.w * y + x == y * l.w + x,
{
    assert(0 <= l.w * y + x < l.w * l.h && l.w * y + x == y * l.w + x) by (nonlinear_arith)
        requires
            0 <= x < l.w,
            0 <= y < l.h,
    ;
}

/// Restricting the entity list to a suffix that still contains every record on
/// `(x, y)` leaves the first movable there unchanged.
proof fn lemma_first_mover_skip(ents: Seq<(Entity, i32, i32)>, x: int, y: int, k: int)
    requires
        0 <= k < ents.len(),
        !(ents[k].1 == x && ents[k].2 == y && ents[k].0.spec_can_move()),
    ensures
        first_mover_at(ents.skip(k), x, y) == first_mover_at(ents.skip(k + 1), x, y),
{
    assert(ents.skip(k)[0] == ents[k]);
    assert(ents.skip(k).drop_first() =~= ents.skip(k + 1));
}

/// Every movable on `(x, y)` relocated to `(cx, cy)`; all other records kept.
pub open spec fn move_all_at(
    ents: Seq<(Entity, i32, i32)>,
    x: int,
    y: int,
    cx: i32,
    cy: i32,
) -> Seq<(Entity, i32, i32)> {
    ents.map(
        |k: int, e: (Entity, i32, i32)|
            if e.1 == x && e.2 == y && e.0.spec_can_move() {
                (e.0, cx, cy)
            } else {
                e
            },
    )
}

/// How many movable entities stand on `(x, y)`.
pub open spec fn count_movers_at(ents: Seq<(Entity, i32, i32)>, x: int, y: int) -> nat
    decreases ents.len(),
{
    if ents.len() == 0 {
        0
    } else {
        (if ents[0].1 == x && ents[0].2 == y && ents[0].0.spec_can_move() {
            1nat
        } else {
            0nat
        }) + count_movers_at(ents.drop_first(), x, y)
    }
}

proof fn lemma_count_movers_push(ents: Seq<(Entity, i32, i32)>, e: (Entity, i32, i32), x: int, y: int)
    ensures
        count_movers_at(ents.push(e), x, y) == count_movers_at(ents, x, y) + (
        if e.1 == x && e.2 == y && e.0.spec_can_move() {
            1nat
        } else {
            0nat
        }),
    decreases ents.len(),
{
    if ents.len() == 0 {
        assert(ents.push(e)[0] == e);
        assert(ents.push(e).drop_first() =~= Seq::<(Entity, i32, i32)>::empty());
        assert(count_movers_at(Seq::<(Entity, i32, i32)>::empty(), x, y) == 0);
        assert(count_movers_at(ents, x, y) == 0);
    } else {
        assert(ents.push(e)[0] == ents[0]);
        assert(ents.push(e).drop_first() =~= ents.drop_first().push(e));
        lemma_count_movers_push(ents.drop_first(), e, x, y);
        assert(count_movers_at(ents.push(e), x, y) == (
        if ents[0].1 == x && ents[0].2 == y && ents[0].0.spec_can_move() {
            1nat
        } else {
            0nat
        }) + count_movers_at(ents.drop_first().push(e), x, y));
        assert(count_movers_at(ents, x, y) == (
        if ents[0].1 == x && ents[0].2 == y && ents[0].0.spec_can_move() {
            1nat
        } else {
            0nat
        }) + count_movers_at(ents.drop_first(), x, y));
    }
}

/// The momentum records queued when `n` movers land on ice at `(cx, cy)`.
pub open spec fn momentum_entries(n: nat, cx: i32, cy: i32, dir: (i32, i32)) -> Seq<
    ((i32, i32), (i32, i32)),
> {
    Seq::new(n, |i: int| ((cx, cy), dir))
}

/// The functional effect of applying a push at `(x, y)`: the chain of movables
/// ahead moves first (so the far end vacates before the near end arrives),
/// then every movable on `(x, y)` steps to the candidate cell; each mover that
/// lands on an ice tile queues one momentum record. The chain stops where no
/// mover stands, or where its next step would leave the grid.
pub open spec fn apply_spec(
    l: Level,
    ents: Seq<(Entity, i32, i32)>,
    dir: (i32, i32),
    x: int,
    y: int,
) -> (Seq<(Entity, i32, i32)>, Seq<((i32, i32), (i32, i32))>)
    decreases ray_measure(l, dir, x, y)
        when is_dir(dir) && l.in_bounds(x, y) && l.in_bounds(x + dir.0, y + dir.1)
{
    let cx = x + dir.0;
    let cy = y + dir.1;
    let rec = if has_mover_at(ents, cx, cy) && l.in_bounds(cx + dir.0, cy + dir.1) {
        apply_spec(l, ents, dir, cx, cy)
    } else {
        (ents, Seq::<((i32, i32), (i32, i32))>::empty())
    };
    let moved = move_all_at(rec.0, x, y, cx as i32, cy as i32);
    let queued = if l.tile_at(cx, cy) is Ice {
        rec.1 + momentum_entries(count_movers_at(rec.0, x, y), cx as i32, cy as i32, dir)
    } else {
        rec.1
    };
    (moved, queued)
}

/// A push keeps the entity count, each record's kind, and every immovable
/// record verbatim; it keeps every entity on the grid; and every momentum
/// record it queues names an on-grid cell and the push direction.
pub proof fn lemma_apply_preserves(
    l: Level,
    ents: Seq<(Entity, i32, i32)>,
    dir: (i32, i32),
    x: int,
    y: int,
)
    requires
        l.wf(),
        is_dir(dir),
        l.in_bounds(x, y),
        l.in_bounds(x + dir.0, y + dir.1),
        forall|k: int|
            0 <= k < ents.len() ==> ent_in_bounds(l.w as int, l.h as int, #[trigger] ents[k]),
    ensures
        apply_spec(l, ents, dir, x, y).0.len() == ents.len(),
        forall|k: int|
            0 <= k < ents.len() ==> (#[trigger] apply_spec(l, ents, dir, x, y).0[k]).0
                == ents[k].0,
        forall|k: int|
            0 <= k < ents.len() && !ents[k].0.spec_can_move() ==> #[trigger] apply_spec(
                l,
                ents,
                dir,
                x,
                y,
            ).0[k] == ents[k],
        forall|k: int|
            0 <= k < ents.len() ==> ent_in_bounds(
                l.w as int,
                l.h as int,
                #[trigger] apply_spec(l, ents, dir, x, y).0[k],
            ),
        forall|k: int|
            0 <= k < apply_spec(l, ents, dir, x, y).1.len() ==> {
                &&& l.in_bounds(
                    (#[trigger] apply_spec(l, ents, dir, x, y).1[k]).0.0 as int,
                    apply_spec(l, ents, dir, x, y).1[k].0.1 as int,
                )
                &&& apply_spec(l, ents, dir, x, y).1[k].1 == dir
                &&& ray_measure(
                    l,
                    dir,
                    apply_spec(l, ents, dir, x, y).1[k].0.0 as int,
                    apply_spec(l, ents, dir, x, y).1[k].0.1 as int,
                ) < ray_measure(l, dir, x, y)
            },
    decreases ray_measure(l, dir, x, y),
{
    let cx = x + dir.0;
    let cy = y + dir.1;
    if has_mover_at(ents, cx, cy) && l.in_bounds(cx + dir.0, cy + dir.1) {
        lemma_apply_preserves(l, ents, dir, cx, cy);
    }
}

/// The largest ray measure over a momentum queue's cells: sliding only ever
/// moves toward the grid edge ahead, so every settling pass lowers this, which
/// bounds the settling loop.
pub open spec fn queue_measure(
    l: Level,
    dir: (i32, i32),
    q: Seq<((i32, i32), (i32, i32))>,
) -> int
    decreases q.len(),
{
    if q.len() == 0 {
        0
    } else {
        let rest = queue_measure(l, dir, q.drop_first());
        let m = ray_measure(l, dir, q[0].0.0 as int, q[0].0.1 as int);
        if m > rest {
            m
        } else {
            rest
        }
    }
}

/// For a queue of on-grid cells the measure is nonnegative, positive when the
/// queue is nonempty, and dominates every member.
proof fn lemma_queue_measure_bounds(l: Level, dir: (i32, i32), q: Seq<((i32, i32), (i32, i32))>)
    requires
        is_dir(dir),
        forall|j: int|
            0 <= j < q.len() ==> l.in_bounds((#[trigger] q[j]).0.0 as int, q[j].0.1 as int),
    ensures
        q.len() == 0 ==> queue_measure(l, dir, q) == 0,
        q.len() > 0 ==> 1 <= queue_measure(l, dir, q),
        forall|j: int|
            0 <= j < q.len() ==> ray_measure(l, dir, (#[trigger] q[j]).0.0 as int, q[j].0.1 as int)
                <= queue_measure(l, dir, q),
    decreases q.len(),
{
    if q.len() > 0 {
        lemma_queue_measure_bounds(l, dir, q.drop_first());
        assert forall|j: int|
            0 <= j < q.len() implies ray_measure(
            l,
            dir,
            (#[trigger] q[j]).0.0 as int,
            q[j].0.1 as int,
        ) <= queue_measure(l, dir, q) by {
            if j > 0 {
                assert(q.drop_first()[j - 1] == q[j]);
            }
        }
    }
}

/// A bound over every member of a queue bounds its measure.
proof fn lemma_queue_measure_le(
    l: Level,
    dir: (i32, i32),
    q: Seq<((i32, i32), (i32, i32))>,
    bound: int,
)
    requires
        0 <= bound,
        forall|j: int|
            0 <= j < q.len() ==> ray_measure(l, dir, (#[trigger] q[j]).0.0 as int, q[j].0.1 as int)
                <= bound,
    ensures
        queue_measure(l, dir, q) <= bound,
    decreases q.len(),
{
    if q.len() > 0 {
        assert(forall|j: int|
            0 <= j < q.drop_first().len() ==> (#[trigger] q.drop_first()[j]) == q[j + 1]);
        lemma_queue_measure_le(l, dir, q.drop_first(), bound);
    }
}

/// A player stands at index `k` and its current position accepts the move.
pub open spec fn accepted_player(
    l: Level,
    ents: Seq<(Entity, i32, i32)>,
    dir: (i32, i32),
    k: int,
) -> bool {
    ents[k].0 is Player && accept_spec(l, ents, dir, ents[k].1 as int, ents[k].2 as int)
}

/// Some player's position accepts the move: exactly the condition under which
/// `try_move` acts rather than reporting a rejected move.
pub open spec fn players_accept(l: Level, ents: Seq<(Entity, i32, i32)>, dir: (i32, i32)) -> bool {
    exists|k: int| 0 <= k < ents.len() && accepted_player(l, ents, dir, k)
}

/// The indices below `k` of players whose positions accept the move, in
/// increasing order: the order in which their pushes are applied.
pub open spec fn accepted_upto(
    l: Level,
    ents: Seq<(Entity, i32, i32)>,
    dir: (i32, i32),
    k: int,
) -> Seq<int>
    decreases k,
{
    if k <= 0 {
        Seq::<int>::empty()
    } else {
        accepted_upto(l, ents, dir, k - 1) + (if accepted_player(l, ents, dir, k - 1) {
            seq![k - 1]
        } else {
            Seq::<int>::empty()
        })
    }
}

proof fn lemma_accepted_upto_complete(
    l: Level,
    ents: Seq<(Entity, i32, i32)>,
    dir: (i32, i32),
    k: int,
)
    requires
        0 <= k <= ents.len(),
    ensures
        forall|j: int|
            0 <= j < accepted_upto(l, ents, dir, k).len() ==> 0 <= #[trigger] accepted_upto(
                l,
                ents,
                dir,
                k,
            )[j] < k && accepted_player(l, ents, dir, accepted_upto(l, ents, dir, k)[j]),
        forall|i: int|
            0 <= i < k && accepted_player(l, ents, dir, i) ==> accepted_upto(
                l,
                ents,
                dir,
                k,
            ).contains(i),
    decreases k,
{
    if k > 0 {
        lemma_accepted_upto_complete(l, ents, dir, k - 1);
        assert forall|i: int| 0 <= i < k && accepted_player(l, ents, dir, i) implies accepted_upto(
            l,
            ents,
            dir,
            k,
        ).contains(i) by {
            if i < k - 1 {
                let j = choose|j: int|
                    0 <= j < accepted_upto(l, ents, dir, k - 1).len() && #[trigger] accepted_upto(
                        l,
                        ents,
                        dir,
                        k - 1,
                    )[j] == i;
                assert(accepted_upto(l, ents, dir, k)[j] == i);
            } else {
                let m = accepted_upto(l, ents, dir, k - 1).len() as int;
                assert(accepted_upto(l, ents, dir, k)[m] == i);
            }
        }
    }
}

/// The combined entity list and momentum queue a resolution step works on.
pub open spec fn apply_players_from(
    l: Level,
    idxs: Seq<int>,
    dir: (i32, i32),
    st: (Seq<(Entity, i32, i32)>, Seq<((i32, i32), (i32, i32))>),
    i: int,
) -> (Seq<(Entity, i32, i32)>, Seq<((i32, i32), (i32, i32))>)
    decreases idxs.len() - i,
{
    if i < 0 || i >= idxs.len() {
        st
    } else {
        let k = idxs[i];
        let x = st.0[k].1 as int;
        let y = st.0[k].2 as int;
        let next = if l.in_bounds(x + dir.0, y + dir.1) {
            let a = apply_spec(l, st.0, dir, x, y);
            (a.0, st.1 + a.1)
        } else {
            st
        };
        apply_players_from(l, idxs, dir, next, i + 1)
    }
}

/// Drain one settling pass from position `k` of the working copy of the
/// momentum queue: each record re-tests acceptance against the state its
/// predecessors left, and slides on success.
pub open spec fn settle_from(
    l: Level,
    work: Seq<((i32, i32), (i32, i32))>,
    st: (Seq<(Entity, i32, i32)>, Seq<((i32, i32), (i32, i32))>),
    k: int,
) -> (Seq<(Entity, i32, i32)>, Seq<((i32, i32), (i32, i32))>)
    decreases work.len() - k,
{
    if k < 0 || k >= work.len() {
        st
    } else {
        let mpos = work[k].0;
        let mdir = work[k].1;
        let next = if l.in_bounds(mpos.0 as int, mpos.1 as int) && accept_spec(
            l,
            st.0,
            mdir,
            mpos.0 as int,
            mpos.1 as int,
        ) {
            let a = apply_spec(l, st.0, mdir, mpos.0 as int, mpos.1 as int);
            (a.0, st.1 + a.1)
        } else {
            st
        };
        settle_from(l, work, next, k + 1)
    }
}

/// One full settling pass: the queue is drained into working storage, cleared,
/// and rebuilt from whatever keeps sliding.
pub open spec fn settle_pass(
    l: Level,
    st: (Seq<(Entity, i32, i32)>, Seq<((i32, i32), (i32, i32))>),
) -> (Seq<(Entity, i32, i32)>, Seq<((i32, i32), (i32, i32))>) {
    settle_from(l, st.1, (st.0, Seq::<((i32, i32), (i32, i32))>::empty()), 0)
}

/// `n` settling passes in sequence.
pub open spec fn settle_n(
    l: Level,
    st: (Seq<(Entity, i32, i32)>, Seq<((i32, i32), (i32, i32))>),
    n: nat,
) -> (Seq<(Entity, i32, i32)>, Seq<((i32, i32), (i32, i32))>)
    decreases n,
{
    if n == 0 {
        st
    } else {
        settle_pass(l, settle_n(l, st, (n - 1) as nat))
    }
}

/// The entity list a successful `try_move` leaves behind: every accepted
/// player's push applied in index order, then settling passes run until the
/// momentum queue stays empty. A pass on an empty queue changes nothing, so
/// the pass count pins the result.
pub open spec fn move_outcome(
    l: Level,
    orig: Seq<(Entity, i32, i32)>,
    dir: (i32, i32),
    result: Seq<(Entity, i32, i32)>,
) -> bool {
    exists|n: nat|
        {
            let settled = #[trigger] settle_n(
                l,
                apply_players_from(
                    l,
                    accepted_upto(l, orig, dir, orig.len() as int),
                    dir,
                    (orig, Seq::<((i32, i32), (i32, i32))>::empty()),
                    0,
                ),
                n,
            );
            settled.1.len() == 0 && settled.0 == result
        }
}

/// The live mutable play state: the originating level, the current entity
/// positions, the undo history of entity-list snapshots, and the transient
/// momentum queue driving ice sliding.
pub struct LevelInstance {
    pub l: Level,
    pub current_entities: Vec<(Entity, i32, i32)>,
    pub history: Vec<Vec<(Entity, i32, i32)>>,
    pub momentum: Vec<((i32, i32), (i32, i32))>,
}

impl LevelInstance {
    /// Well-formedness: the level is well formed, every live and historic
    /// entity lies on the grid, and every queued momentum entry names an
    /// on-grid cell and a unit direction.
    pub open spec fn wf(&self) -> bool {
        &&& self.l.wf()
        &&& forall|k: int|
            0 <= k < self.current_entities@.len() ==> ent_in_bounds(
                self.l.w as int,
                self.l.h as int,
                #[trigger] self.current_entities@[k],
            )
        &&& forall|k: int, j: int|
            0 <= k < self.history@.len() && 0 <= j < self.history@[k]@.len() ==> ent_in_bounds(
                self.l.w as int,
                self.l.h as int,
                #[trigger] self.history@[k]@[j],
            )
        &&& forall|k: int|
            0 <= k < self.momentum@.len() ==> {
                &&& self.l.in_bounds(
                    (#[trigger] self.momentum@[k]).0.0 as int,
                    self.momentum@[k].0.1 as int,
                )
                &&& is_dir(self.momentum@[k].1)
            }
    }

    /// The recursive acceptance test of the resolution algorithm.
    #[verifier::loop_isolation(false)]
    pub fn accept_move(&self, dir: (i32, i32), pos: (i32, i32)) -> (r: bool)
        requires
            self.wf(),
            is_dir(dir),
            self.l.in_bounds(pos.0 as int, pos.1 as int),
        ensures
            r == accept_spec(self.l, self.current_entities@, dir, pos.0 as int, pos.1 as int),
        decreases ray_measure(self.l, dir, pos.0 as int, pos.1 as int),
    {
        let cand = (pos.0 + dir.0, pos.1 + dir.1);
        if !(0 <= cand.0 && cand.0 < self.l.w && 0 <= cand.1 && cand.1 < self.l.h) {
            return false;
        }
        proof {
            lemma_cell_index(self.l, cand.0 as int, cand.1 as int);
        }
        if self.l.tiles[(self.l.w * cand.1 + cand.0) as usize] == Tile::Wall {
            return false;
        }
        let ents = &self.current_entities;
        proof {
            assert(ents@.skip(0) =~= ents@);
        }
        let mut k: usize = 0;
        while k < ents.len()
            invariant
                k <= ents@.len(),
                first_mover_at(ents@, pos.0 as int, pos.1 as int) == first_mover_at(
                    ents@.skip(k as int),
                    pos.0 as int,
                    pos.1 as int,
                ),
                forall|j: int|
                    0 <= j < k ==> !((#[trigger] ents@[j]).1 == pos.0 && ents@[j].2 == pos.1
                        && ents@[j].0.spec_can_move()),
            decreases ents@.len() - k,
        {
            let e = &ents[k];
            if e.1 == pos.0 && e.2 == pos.1 && e.0.can_move() {
                proof {
                    assert(ents@.skip(k as int)[0] == ents@[k as int]);
                    assert(first_mover_at(ents@, pos.0 as int, pos.1 as int) == Some(
                        ents@[k as int].0,
                    ));
                }
                if matches!(&e.0, Entity::Player) && !Self::blocks_player_exec(
                    ents,
                    cand.0,
                    cand.1,
                ) {
                    return true;
                } else if !Self::blocks_boxes_exec(ents, cand.0, cand.1) {
                    return true;
                } else {
                    proof {
                        assert(0 <= ray_measure(self.l, dir, cand.0 as int, cand.1 as int)
                            < ray_measure(self.l, dir, pos.0 as int, pos.1 as int));
                    }
                    return self.accept_move(dir, cand);
                }
            }
            proof {
                lemma_first_mover_skip(ents@, pos.0 as int, pos.1 as int, k as int);
            }
            k += 1;
        }
        proof {
            assert(ents@.skip(k as int) =~= Seq::<(Entity, i32, i32)>::empty());
        }
        true
    }

    #[verifier::loop_isolation(false)]
    fn blocks_player_exec(ents: &Vec<(Entity, i32, i32)>, x: i32, y: i32) -> (r: bool)
        ensures
            r == blocks_player(ents@, x as int, y as int),
    {
        let mut k: usize = 0;
        while k < ents.len()
            invariant
                k <= ents@.len(),
                forall|j: int|
                    0 <= j < k ==> !((#[trigger] ents@[j]).1 == x && ents@[j].2 == y
                        && !ents@[j].0.spec_player_allowed()),
            decreases ents@.len() - k,
        {
            let e = &ents[k];
            if e.1 == x && e.2 == y && !e.0.player_allowed() {
                return true;
            }
            k += 1;
        }
        false
    }

    #[verifier::loop_isolation(false)]
    fn has_mover_exec(ents: &Vec<(Entity, i32, i32)>, x: i32, y: i32) -> (r: bool)
        ensures
            r == has_mover_at(ents@, x as int, y as int),
    {
        let mut k: usize = 0;
        #[verifier::loop_isolation(false)]
        while k < ents.len()
            invariant
                k <= ents@.len(),
                forall|j: int|
                    0 <= j < k ==> !((#[trigger] ents@[j]).1 == x && ents@[j].2 == y
                        && ents@[j].0.spec_can_move()),
            decreases ents@.len() - k,
        {
            let e = &ents[k];
            if e.1 == x && e.2 == y && e.0.can_move() {
                return true;
            }
            k += 1;
        }
        false
    }

    /// Realise a push at `pos`: relocate the chain ahead first, then every
    /// movable on `pos`, queueing momentum for each mover that lands on ice.
    #[verifier::loop_isolation(false)]
    pub fn apply_move(&mut self, dir: (i32, i32), pos: (i32, i32))
        requires
            old(self).wf(),
            is_dir(dir),
            old(self).l.in_bounds(pos.0 as int, pos.1 as int),
            old(self).l.in_bounds(pos.0 + dir.0, pos.1 + dir.1),
        ensures
            final(self).l == old(self).l,
            final(self).history == old(self).history,
            final(self).current_entities@ == apply_spec(
                old(self).l,
                old(self).current_entities@,
                dir,
                pos.0 as int,
                pos.1 as int,
            ).0,
            final(self).momentum@ == old(self).momentum@ + apply_spec(
                old(self).l,
                old(self).current_entities@,
                dir,
                pos.0 as int,
                pos.1 as int,
            ).1,
            final(self).wf(),
        decreases ray_measure(old(self).l, dir, pos.0 as int, pos.1 as int),
    {
        let ghost ents0 = self.current_entities@;
        let cand = (pos.0 + dir.0, pos.1 + dir.1);
        let found = Self::has_mover_exec(&self.current_entities, cand.0, cand.1);
        let ghost spec_result = apply_spec(
            old(self).l,
            ents0,
            dir,
            pos.0 as int,
            pos.1 as int,
        );
        if found && 0 <= cand.0 + dir.0 && cand.0 + dir.0 < self.l.w && 0 <= cand.1 + dir.1
            && cand.1 + dir.1 < self.l.h {
            proof {
                assert(0 <= ray_measure(self.l, dir, cand.0 as int, cand.1 as int) < ray_measure(
                    self.l,
                    dir,
                    pos.0 as int,
                    pos.1 as int,
                ));
            }
            self.apply_move(dir, cand);
        }
        let ghost rec = if has_mover_at(ents0, cand.0 as int, cand.1 as int) && old(self).l.in_bounds(cand.0 + dir.0, cand.1 + dir.1) {
            apply_spec(old(self).l, ents0, dir, cand.0 as int, cand.1 as int)
        } else {
            (ents0, Seq::<((i32, i32), (i32, i32))>::empty())
        };
        let ghost ents1 = self.current_entities@;
        let ghost mom_base = self.momentum@;
        proof {
            assert(ents1 == rec.0);
            assert(mom_base == old(self).momentum@ + rec.1);
            lemma_cell_index(self.l, cand.0 as int, cand.1 as int);
        }
        let ice = self.l.tiles[(self.l.w * cand.1 + cand.0) as usize] == Tile::Ice;
        let ghost moved = move_all_at(ents1, pos.0 as int, pos.1 as int, cand.0, cand.1);
        let n = self.current_entities.len();
        let mut k: usize = 0;
        while k < n
            invariant
                k <= n,
                self.l == old(self).l,
                self.history == old(self).history,
                self.current_entities@.len() == n,
                ents1.len() == n,
                forall|j: int| 0 <= j < k ==> self.current_entities@[j] == moved[j],
                forall|j: int| k <= j < n ==> self.current_entities@[j] == ents1[j],
                ice == (old(self).l.tile_at(cand.0 as int, cand.1 as int) is Ice),
                ice ==> self.momentum@ == mom_base + momentum_entries(
                    count_movers_at(ents1.take(k as int), pos.0 as int, pos.1 as int),
                    cand.0,
                    cand.1,
                    dir,
                ),
                !ice ==> self.momentum@ == mom_base,
            decreases n - k,
        {
            let ghost pre = self.current_entities@;
            let ghost mom_pre = self.momentum@;
            let ex = self.current_entities[k].1;
            let ey = self.current_entities[k].2;
            let is_mover = self.current_entities[k].0.can_move();
            if ex == pos.0 && ey == pos.1 && is_mover {
                let kind = self.current_entities[k].0.duplicate();
                self.current_entities.set(k, (kind, cand.0, cand.1));
                if ice {
                    self.momentum.push((cand, dir));
                }
            }
            proof {
                lemma_count_movers_push(
                    ents1.take(k as int),
                    ents1[k as int],
                    pos.0 as int,
                    pos.1 as int,
                );
                assert(ents1.take(k as int).push(ents1[k as int]) =~= ents1.take(k as int + 1));
                if ice {
                    assert(self.momentum@ =~= mom_base + momentum_entries(
                        count_movers_at(ents1.take(k as int + 1), pos.0 as int, pos.1 as int),
                        cand.0,
                        cand.1,
                        dir,
                    ));
                }
            }
            k += 1;
        }
        proof {
            assert(ents1.take(n as int) =~= ents1);
            assert(self.current_entities@ =~= moved);
            assert(self.current_entities@ == spec_result.0);
            assert(self.momentum@ == old(self).momentum@ + spec_result.1);
            lemma_apply_preserves(old(self).l, ents0, dir, pos.0 as int, pos.1 as int);
        }
    }

    /// Resolve one directional input. Identify every player whose position
    /// accepts the move; if none, report a rejected move and leave the entity
    /// list and history untouched. Otherwise snapshot the entity list for
    /// undo, apply each accepted player's push in index order, and run the
    /// settling loop until no queued momentum can slide anything further.
    #[verifier::loop_isolation(false)]
    pub fn try_move(&mut self, dir: (i32, i32)) -> (r: bool)
        requires
            old(self).wf(),
            is_dir(dir),
        ensures
            final(self).wf(),
            final(self).l == old(self).l,
            final(self).momentum@.len() == 0,
            r == players_accept(old(self).l, old(self).current_entities@, dir),
            !r ==> final(self).current_entities == old(self).current_entities && final(self).history == old(self).history,
            r ==> final(self).history@.len() == old(self).history@.len() + 1 && final(self).history@[old(self).history@.len() as int]@ == old(self).current_entities@ && (forall|
                i: int,
            |
                0 <= i < old(self).history@.len() ==> final(self).history@[i] == old(self).history@[i]),
            r ==> move_outcome(
                old(self).l,
                old(self).current_entities@,
                dir,
                final(self).current_entities@,
            ),
            final(self).current_entities@.len() == old(self).current_entities@.len(),
            forall|k: int|
                0 <= k < old(self).current_entities@.len() ==> (#[trigger] final(self).current_entities@[k]).0 == old(self).current_entities@[k].0,
            forall|k: int|
                0 <= k < old(self).current_entities@.len() && !old(self).current_entities@[k].0.spec_can_move() ==> #[trigger] final(self).current_entities@[k] == old(self).current_entities@[k],
    {
        self.momentum.clear();
        let ghost l = self.l;
        let ghost orig = self.current_entities@;
        let n = self.current_entities.len();
        let mut movers: Vec<usize> = Vec::new();
        let mut k: usize = 0;
        while k < n
            invariant
                k <= n,
                self.l == old(self).l,
                self.current_entities == old(self).current_entities,
                self.history == old(self).history,
                self.momentum@.len() == 0,
                movers@.map_values(|u: usize| u as int) == accepted_upto(l, orig, dir, k as int),
            decreases n - k,
        {
            let is_player = matches!(&self.current_entities[k].0, Entity::Player);
            let px = self.current_entities[k].1;
            let py = self.current_entities[k].2;
            if is_player && self.accept_move(dir, (px, py)) {
                movers.push(k);
                proof {
                    assert(movers@.map_values(|u: usize| u as int) =~= accepted_upto(
                        l,
                        orig,
                        dir,
                        k as int,
                    ).push(k as int));
                    assert(accepted_upto(l, orig, dir, k as int).push(k as int) =~= accepted_upto(
                        l,
                        orig,
                        dir,
                        k as int + 1,
                    ));
                }
            } else {
                proof {
                    assert(movers@.map_values(|u: usize| u as int) =~= accepted_upto(
                        l,
                        orig,
                        dir,
                        k as int + 1,
                    ));
                }
            }
            k += 1;
        }
        let ghost idxs = accepted_upto(l, orig, dir, n as int);
        proof {
            lemma_accepted_upto_complete(l, orig, dir, n as int);
        }
        if movers.len() == 0 {
            proof {
                assert(!players_accept(l, orig, dir)) by {
                    if players_accept(l, orig, dir) {
                        let w = choose|j: int|
                            0 <= j < orig.len() && accepted_player(l, orig, dir, j);
                        assert(idxs.contains(w));
                    }
                }
            }
            return false;
        }
        proof {
            assert(players_accept(l, orig, dir)) by {
                assert(accepted_player(l, orig, dir, idxs[0]));
            }
        }
        self.history.push(clone_entities(&self.current_entities));
        let ghost hist1 = self.history@;
        let mut i: usize = 0;
        while i < movers.len()
            invariant
                i <= movers@.len(),
                self.wf(),
                self.l == old(self).l,
                self.history@ == hist1,
                apply_players_from(
                    l,
                    idxs,
                    dir,
                    (orig, Seq::<((i32, i32), (i32, i32))>::empty()),
                    0,
                ) == apply_players_from(
                    l,
                    idxs,
                    dir,
                    (self.current_entities@, self.momentum@),
                    i as int,
                ),
                forall|j: int| 0 <= j < self.momentum@.len() ==> (#[trigger] self.momentum@[j]).1 == dir,
                self.current_entities@.len() == orig.len(),
                forall|j: int|
                    0 <= j < orig.len() ==> (#[trigger] self.current_entities@[j]).0 == orig[j].0,
                forall|j: int|
                    0 <= j < orig.len() && !orig[j].0.spec_can_move()
                        ==> #[trigger] self.current_entities@[j] == orig[j],
            decreases movers@.len() - i,
        {
            let mp = movers[i];
            proof {
                assert(idxs[i as int] == mp as int);
            }
            let ghost pre = self.current_entities@;
            let px = self.current_entities[mp].1;
            let py = self.current_entities[mp].2;
            if 0 <= px + dir.0 && px + dir.0 < self.l.w && 0 <= py + dir.1 && py + dir.1
                < self.l.h {
                proof {
                    lemma_apply_preserves(l, pre, dir, px as int, py as int);
                }
                self.apply_move(dir, (px, py));
            }
            i += 1;
        }
        let ghost phase1 = apply_players_from(
            l,
            idxs,
            dir,
            (orig, Seq::<((i32, i32), (i32, i32))>::empty()),
            0,
        );
        proof {
            assert((self.current_entities@, self.momentum@) == phase1);
            assert((self.current_entities@, self.momentum@) == settle_n(l, phase1, 0));
        }
        let ghost mut passes: nat = 0nat;
        while self.momentum.len() != 0
            invariant
                self.wf(),
                self.l == old(self).l,
                self.history@ == hist1,
                (self.current_entities@, self.momentum@) == settle_n(l, phase1, passes),
                forall|j: int| 0 <= j < self.momentum@.len() ==> (#[trigger] self.momentum@[j]).1 == dir,
                self.current_entities@.len() == orig.len(),
                forall|j: int|
                    0 <= j < orig.len() ==> (#[trigger] self.current_entities@[j]).0 == orig[j].0,
                forall|j: int|
                    0 <= j < orig.len() && !orig[j].0.spec_can_move()
                        ==> #[trigger] self.current_entities@[j] == orig[j],
            decreases queue_measure(l, dir, self.momentum@),
        {
            let ghost st_start = (self.current_entities@, self.momentum@);
            let ghost bound = queue_measure(l, dir, st_start.1);
            proof {
                lemma_queue_measure_bounds(l, dir, st_start.1);
            }
            let mut work: Vec<((i32, i32), (i32, i32))> = Vec::new();
            let mut t: usize = 0;
            while t < self.momentum.len()
                invariant
                    t <= self.momentum@.len(),
                    work@ =~= self.momentum@.take(t as int),
                decreases self.momentum@.len() - t,
            {
                work.push(self.momentum[t]);
                t += 1;
            }
            proof {
                assert(work@ =~= st_start.1);
            }
            self.momentum.clear();
            let mut k2: usize = 0;
            while k2 < work.len()
                invariant
                    k2 <= work@.len(),
                    self.wf(),
                    self.l == old(self).l,
                    self.history@ == hist1,
                    forall|j: int|
                        0 <= j < work@.len() ==> self.l.in_bounds(
                            (#[trigger] work@[j]).0.0 as int,
                            work@[j].0.1 as int,
                        ) && work@[j].1 == dir,
                    forall|j: int|
                        0 <= j < self.momentum@.len() ==> (#[trigger] self.momentum@[j]).1 == dir
                            && ray_measure(
                            l,
                            dir,
                            self.momentum@[j].0.0 as int,
                            self.momentum@[j].0.1 as int,
                        ) < bound,
                    settle_from(
                        l,
                        work@,
                        (st_start.0, Seq::<((i32, i32), (i32, i32))>::empty()),
                        0,
                    ) == settle_from(l, work@, (self.current_entities@, self.momentum@), k2 as int),
                    self.current_entities@.len() == orig.len(),
                    forall|j: int|
                        0 <= j < orig.len() ==> (#[trigger] self.current_entities@[j]).0
                            == orig[j].0,
                    forall|j: int|
                        0 <= j < orig.len() && !orig[j].0.spec_can_move()
                            ==> #[trigger] self.current_entities@[j] == orig[j],
                decreases work@.len() - k2,
            {
                let entry = work[k2];
                let mpos = entry.0;
                let mdir = entry.1;
                let ghost pre = self.current_entities@;
                if self.accept_move(mdir, mpos) {
                    proof {
                        lemma_apply_preserves(l, pre, mdir, mpos.0 as int, mpos.1 as int);
                    }
                    self.apply_move(mdir, mpos);
                }
                k2 += 1;
            }
            proof {
                assert(settle_pass(l, st_start) == (self.current_entities@, self.momentum@));
                passes = passes + 1;
                assert(settle_n(l, phase1, passes) == settle_pass(
                    l,
                    settle_n(l, phase1, (passes - 1) as nat),
                ));
                if self.momentum@.len() > 0 {
                    lemma_queue_measure_le(l, dir, self.momentum@, bound - 1);
                }
                assert(queue_measure(l, dir, self.momentum@) < bound);
            }
        }
        proof {
            let settled = settle_n(l, phase1, passes);
            assert(settled.1.len() == 0 && settled.0 == self.current_entities@);
            assert(move_outcome(l, orig, dir, self.current_entities@));
        }
        true
    }

    /// Pop the most recent history snapshot and restore it as the live entity
    /// list; with no history this reports false and changes nothing.
    pub fn undo(&mut self) -> (r: bool)
        requires
            old(self).wf(),
        ensures
            final(self).wf(),
            final(self).l == old(self).l,
            final(self).momentum == old(self).momentum,
            r == (old(self).history@.len() > 0),
            !r ==> *final(self) == *old(self),
            r ==> final(self).current_entities == old(self).history@.last() && final(self).history@ == old(self).history@.drop_last(),
    {
        if self.history.len() == 0 {
            return false;
        }
        let top = self.history.pop().unwrap();
        self.current_entities = top;
        true
    }

    /// Victory of the live state: delegated to the shared static evaluation
    /// against the current entity list.
    pub fn victorious(&self) -> (r: bool)
        ensures
            r == victorious_spec(self.current_entities@),
    {
        Level::victorious(
            self.l.w,
            self.l.h,
            self.l.tiles.as_slice(),
            self.current_entities.as_slice(),
        )
    }

    fn blocks_boxes_exec(ents: &Vec<(Entity, i32, i32)>, x: i32, y: i32) -> (r: bool)
        ensures
            r == blocks_boxes(ents@, x as int, y as int),
    {
        let mut k: usize = 0;
        while k < ents.len()
            invariant
                k <= ents@.len(),
                forall|j: int|
                    0 <= j < k ==> !((#[trigger] ents@[j]).1 == x && ents@[j].2 == y
                        && !ents@[j].0.spec_boxes_allowed()),
            decreases ents@.len() - k,
        {
            let e = &ents[k];
            if e.1 == x && e.2 == y && !e.0.boxes_allowed() {
                return true;
            }
            k += 1;
        }
        false
    }
}

/// A settling pass over an empty queue changes nothing.
proof fn lemma_settle_pass_fixed(
    l: Level,
    st: (Seq<(Entity, i32, i32)>, Seq<((i32, i32), (i32, i32))>),
)
    requires
        st.1.len() == 0,
    ensures
        settle_pass(l, st) == st,
{
    assert(st.1 =~= Seq::<((i32, i32), (i32, i32))>::empty());
    assert((st.0, Seq::<((i32, i32), (i32, i32))>::empty()) =~~= st);
}

proof fn lemma_settle_n_stable(
    l: Level,
    st: (Seq<(Entity, i32, i32)>, Seq<((i32, i32), (i32, i32))>),
    n: nat,
    m: nat,
)
    requires
        settle_n(l, st, n).1.len() == 0,
        n <= m,
    ensures
        settle_n(l, st, m) == settle_n(l, st, n),
    decreases m,
{
    if m > n {
        lemma_settle_n_stable(l, st, n, (m - 1) as nat);
        lemma_settle_pass_fixed(l, settle_n(l, st, (m - 1) as nat));
    }
}

/// The result of a successful move is pinned: any two entity lists that
/// satisfy `move_outcome` for the same level, starting entities and direction
/// are the same list, whatever pass counts witnessed them.
pub proof fn lemma_move_outcome_unique(
    l: Level,
    orig: Seq<(Entity, i32, i32)>,
    dir: (i32, i32),
    result_a: Seq<(Entity, i32, i32)>,
    result_b: Seq<(Entity, i32, i32)>,
)
    requires
        move_outcome(l, orig, dir, result_a),
        move_outcome(l, orig, dir, result_b),
    ensures
        result_a == result_b,
{
    let phase1 = apply_players_from(
        l,
        accepted_upto(l, orig, dir, orig.len() as int),
        dir,
        (orig, Seq::<((i32, i32), (i32, i32))>::empty()),
        0,
    );
    let na = choose|n: nat|
        {
            let settled = #[trigger] settle_n(l, phase1, n);
            settled.1.len() == 0 && settled.0 == result_a
        };
    let nb = choose|n: nat|
        {
            let settled = #[trigger] settle_n(l, phase1, n);
            settled.1.len() == 0 && settled.0 == result_b
        };
    if na <= nb {
        lemma_settle_n_stable(l, phase1, na, nb);
    } else {
        lemma_settle_n_stable(l, phase1, nb, na);
    }
}

/// One successful move as the undo machinery records it: the history grew by
/// exactly one snapshot holding the entity list that preceded the move, with
/// the earlier snapshots untouched. `try_move` guarantees this whenever it
/// returns true.
pub open spec fn move_step(a: LevelInstance, b: LevelInstance) -> bool {
    &&& b.history@.len() == a.history@.len() + 1
    &&& b.history@[a.history@.len() as int]@ == a.current_entities@
    &&& forall|i: int| 0 <= i < a.history@.len() ==> b.history@[i] == a.history@[i]
}

/// One successful undo: the latest snapshot restored as the live entity list
/// and removed from the history. `undo` guarantees this whenever it returns
/// true.
pub open spec fn undo_step(a: LevelInstance, b: LevelInstance) -> bool {
    &&& a.history@.len() > 0
    &&& b.current_entities == a.history@.last()
    &&& b.history@ == a.history@.drop_last()
}

proof fn lemma_move_chain(states: Seq<LevelInstance>, i: int)
    requires
        0 <= i < states.len(),
        states[0].history@.len() == 0,
        forall|t: int| 0 <= t < states.len() - 1 ==> move_step(#[trigger] states[t], states[t + 1]),
    ensures
        states[i].history@.len() == i,
        forall|j: int|
            0 <= j < i ==> (#[trigger] states[i].history@[j])@ == states[j].current_entities@,
    decreases i,
{
    if i > 0 {
        lemma_move_chain(states, i - 1);
        assert(move_step(states[i - 1], states[i]));
    }
}

proof fn lemma_undo_chain(start: LevelInstance, back: Seq<LevelInstance>, k: int)
    requires
        0 <= k < back.len(),
        back[0] == start,
        back.len() == start.history@.len() + 1,
        forall|t: int| 0 <= t < back.len() - 1 ==> undo_step(#[trigger] back[t], back[t + 1]),
    ensures
        back[k].history@.len() == start.history@.len() - k,
        forall|j: int|
            0 <= j < start.history@.len() - k ==> #[trigger] back[k].history@[j]
                == start.history@[j],
        k >= 1 ==> back[k].current_entities == start.history@[start.history@.len() - k],
    decreases k,
{
    if k > 0 {
        lemma_undo_chain(start, back, k - 1);
        assert(undo_step(back[k - 1], back[k]));
    }
}

/// Undo inverts moves exactly: after any run of successful moves from a state
/// with empty history, the same number of undos restores the entity list the
/// run started from and leaves the history empty again. `forward` holds the
/// states the successful moves pass through, `backward` the states the undos
/// pass through, sharing the middle state.
pub proof fn lemma_undo_inverts_moves(forward: Seq<LevelInstance>, backward: Seq<LevelInstance>)
    requires
        forward.len() >= 1,
        backward.len() == forward.len(),
        forward[0].history@.len() == 0,
        forall|t: int|
            0 <= t < forward.len() - 1 ==> move_step(#[trigger] forward[t], forward[t + 1]),
        backward[0] == forward.last(),
        forall|t: int|
            0 <= t < backward.len() - 1 ==> undo_step(#[trigger] backward[t], backward[t + 1]),
    ensures
        backward.last().history@.len() == 0,
        backward.last().current_entities@ == forward[0].current_entities@,
{
    let n = forward.len() as int;
    lemma_move_chain(forward, n - 1);
    lemma_undo_chain(forward.last(), backward, n - 1);
    if n >= 2 {
        assert(backward[n - 1].current_entities == forward.last().history@[0]);
        assert(forward.last().history@[0]@ == forward[0].current_entities@);
    }
}

/// An element-wise copy of a tile row, equal in view to the original.
#[verifier::loop_isolation(false)]
pub fn clone_tiles(v: &Vec<Tile>) -> (r: Vec<Tile>)
    ensures
        r@ == v@,
{
    let mut r: Vec<Tile> = Vec::new();
    let mut k: usize = 0;
    while k < v.len()
        invariant
            k <= v@.len(),
            r@ =~= v@.take(k as int),
        decreases v@.len() - k,
    {
        r.push(v[k]);
        k += 1;
    }
    proof {
        assert(v@.take(v@.len() as int) =~= v@);
    }
    r
}

/// An element-wise copy of an entity list, equal in view to the original.
#[verifier::loop_isolation(false)]
pub fn clone_entities(v: &Vec<(Entity, i32, i32)>) -> (r: Vec<(Entity, i32, i32)>)
    ensures
        r@ == v@,
{
    let mut r: Vec<(Entity, i32, i32)> = Vec::new();
    let mut k: usize = 0;
    while k < v.len()
        invariant
            k <= v@.len(),
            r@ =~= v@.take(k as int),
        decreases v@.len() - k,
    {
        let e = &v[k];
        r.push((e.0.duplicate(), e.1, e.2));
        k += 1;
    }
    proof {
        assert(v@.take(v@.len() as int) =~= v@);
    }
    r
}

impl Level {
    /// Begin a play session: the live entity list starts as a copy of the
    /// template's placement, with empty history and momentum.
    pub fn instance(&self) -> (r: LevelInstance)
        ensures
            r.l.title == self.title,
            r.l.w == self.w,
            r.l.h == self.h,
            r.l.tiles@ == self.tiles@,
            r.l.entities@ == self.entities@,
            r.current_entities@ == self.entities@,
            r.history@ == Seq::<Vec<(Entity, i32, i32)>>::empty(),
            r.momentum@ == Seq::<((i32, i32), (i32, i32))>::empty(),
            self.wf() ==> r.wf(),
    {
        let l = Level {
            title: self.title.clone(),
            w: self.w,
            h: self.h,
            tiles: clone_tiles(&self.tiles),
            entities: clone_entities(&self.entities),
        };
        LevelInstance {
            l,
            current_entities: clone_entities(&self.entities),
            history: Vec::new(),
            momentum: Vec::new(),
        }
    }
}

} // verus!
