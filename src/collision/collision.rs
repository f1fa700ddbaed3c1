use vstd::prelude::*;
use crate::advance::{advance_single_ball, logged};
use crate::ball::{Ball, Trails};
use crate::collision::buckets::{buckets_new, buckets_put, buckets_take, Buckets, Cell, Occupant};
use crate::collision::colliders::{can_resolve, collide, resolution, resolvable};
use crate::collision::collidable::{Collidable, Generation, GenerationalCollisionEntity};
use crate::collision::event_queue::{queue_is_empty, queue_new, queue_pop, queue_push, queued, EventKey, EventQueue};
use crate::collision::solvers::{
    can_solve, can_track, collision_solution, get_movement_bounding_box, lemma_solution_not_before,
    lemma_solution_unique, max_int, min_int, movement_box, segments_intersect, solvable,
    solve_collision, trackable,
};
use crate::simulation::SimulationData;

verus! {

/// Side of a grid cell, in length units.
pub const CELL_SIZE: i64 = 20000;

/// Cells are indexed from 0 to `GRID_CELLS` along each axis; boxes beyond the
/// play area are clamped to it.
pub const GRID_CELLS: i64 = 100;

/// Cells `[i0, i1) x [j0, j1)`, as `(i0, i1, j0, j1)`.
pub type CellRange = (i32, i32, i32, i32);

/// A body of the simulated world: its shape and motion, how often contacts
/// changed it, and the path it travelled this frame.
pub struct Body {
    pub collidable: Collidable,
    pub generation: Generation,
    pub trails: Trails,
}

/// Every body is within the limits.
pub open spec fn bodies_wf(world: Seq<Body>) -> bool {
    forall|e: int| 0 <= e < world.len() ==> (#[trigger] world[e]).collidable.wf()
}

/// The first grid line index at or below coordinate `v`, clamped at 0.
pub open spec fn cell_floor(v: int) -> int {
    max_int(0, v / (CELL_SIZE as int))
}

/// One past the grid line index at or above coordinate `v`, clamped to the
/// grid.
pub open spec fn cell_ceil(v: int) -> int {
    let c = if v >= 0 {
        (v + CELL_SIZE - 1) / (CELL_SIZE as int)
    } else {
        -((-v) / (CELL_SIZE as int))
    };
    min_int(GRID_CELLS as int, c) + 1
}

/// The cells that the box swept by a body up to `next_time` overlaps,
/// clamped to the grid.
pub open spec fn cell_range(c: Collidable, next_time: int) -> (int, int, int, int) {
    let b = movement_box(c, next_time);
    (cell_floor(b.0), cell_ceil(b.2), cell_floor(b.1), cell_ceil(b.3))
}

/// Cell `c` lies in range `r`.
pub open spec fn covers(r: CellRange, c: Cell) -> bool {
    r.0 <= c.0 < r.1 && r.2 <= c.1 < r.3
}

/// Entity `x` is registered with a range that covers cell `c`.
pub open spec fn covers_entity(last_box: Seq<Option<(i64, CellRange)>>, x: int, c: Cell) -> bool {
    &&& 0 <= x < last_box.len()
    &&& last_box[x] is Some
    &&& covers(last_box[x].unwrap().1, c)
}

/// The range lies within the grid.
pub open spec fn range_ok(r: CellRange) -> bool {
    0 <= r.0 && r.1 <= GRID_CELLS + 1 && 0 <= r.2 && r.3 <= GRID_CELLS + 1
}

fn floor_cell(v: i64) -> (r: i32)
    requires
        -0x4000_0000 <= v <= 0x4000_0000,
    ensures
        r == cell_floor(v as int),
        0 <= r <= 0x1_0000,
{
    if v < 0 {
        assert(v / CELL_SIZE < 0) by {
            vstd::arithmetic::div_mod::lemma_fundamental_div_mod(v as int, CELL_SIZE as int);
        }
        0
    } else {
        (v / CELL_SIZE) as i32
    }
}

fn ceil_cell(v: i64) -> (r: i32)
    requires
        -0x4000_0000 <= v <= 0x4000_0000,
    ensures
        r == cell_ceil(v as int),
        r <= GRID_CELLS + 1,
{
    let c: i64 = if v >= 0 {
        (v + CELL_SIZE - 1) / CELL_SIZE
    } else {
        -((-v) / CELL_SIZE)
    };
    if c < GRID_CELLS {
        (c + 1) as i32
    } else {
        (GRID_CELLS + 1) as i32
    }
}

/// The cells a body's swept box overlaps up to `next_time`.
pub fn get_cell_range_for_movement(collidable: &Collidable, next_time: i64) -> (r: CellRange)
    requires
        trackable(*collidable, next_time as int),
    ensures
        (r.0 as int, r.1 as int, r.2 as int, r.3 as int) == cell_range(
            *collidable,
            next_time as int,
        ),
        range_ok(r),
{
    let (lo, hi) = get_movement_bounding_box(collidable, next_time);
    (floor_cell(lo.x), ceil_cell(hi.x), floor_cell(lo.y), ceil_cell(hi.y))
}

/// The solver finds a contact of `c0` with `c1` entering at `t0`, with an
/// interval `[t0, t1]` that meets the window `[time, next_time]`.
pub open spec fn found(c0: Collidable, c1: Collidable, t0: i64, t1: i64, time: int, next_time: int) -> bool {
    collision_solution(c0, c1, Some((t0, t1))) && t1 >= time && next_time >= t0
}

/// `prio` is the queue priority of a contact of `c0` with `c1` that the solver
/// finds, with an interval meeting the window `[time, next_time]`.
pub open spec fn event_ok(c0: Collidable, c1: Collidable, prio: i64, time: int, next_time: int) -> bool {
    exists|t1: i64|
        #![trigger collision_solution(c0, c1, Some(((-prio) as i64, t1)))]
        collision_solution(c0, c1, Some(((-prio) as i64, t1))) && t1 >= time && next_time >= -prio
}

fn contains_occupant(v: &Vec<Occupant>, x: Occupant) -> (r: bool)
    ensures
        r == v@.contains(x),
{
    let mut k: usize = 0;
    while k < v.len()
        invariant
            k <= v@.len(),
            forall|m: int| 0 <= m < k ==> v@[m] != x,
        decreases v@.len() - k,
    {
        if v[k].0 == x.0 && v[k].1 == x.1 {
            assert(v@[k as int] == x);
            return true;
        }
        k = k + 1;
    }
    false
}

/// The per-frame broad-phase index and event queue.
pub struct CollisionDetectionData {
    /// The registered bodies in each cell.
    pub spatial_buckets: Buckets,
    /// For each entity, the generation and cell range it is registered with.
    pub last_box: Vec<Option<(i64, CellRange)>>,
    /// Tentative contact events, earliest first.
    pub collisions_events: EventQueue,
}

impl CollisionDetectionData {
    /// Occupant `o` of cell `c` is registered with its generation and a range
    /// that covers `c`.
    pub open spec fn registered_in(&self, o: Occupant, c: Cell) -> bool {
        &&& o.0 < self.last_box@.len()
        &&& self.last_box@[o.0 as int] matches Some((g, r))
        &&& g == o.1
        &&& covers(r, c)
    }

    /// The entity is registered with this generation.
    pub open spec fn is_registered(&self, entity: GenerationalCollisionEntity) -> bool {
        &&& entity.entity < self.last_box@.len()
        &&& self.last_box@[entity.entity as int] is Some
        &&& self.last_box@[entity.entity as int].unwrap().0 == entity.generation
    }

    /// Every occupant of a cell is registered there, within the grid.
    pub open spec fn sound(&self) -> bool {
        &&& forall|c: Cell, i: int|
            #![trigger self.spatial_buckets@[c]@[i]]
            self.spatial_buckets@.contains_key(c) && 0 <= i < self.spatial_buckets@[c]@.len()
                ==> self.registered_in(self.spatial_buckets@[c]@[i], c)
        &&& forall|e: int|
            0 <= e < self.last_box@.len() && #[trigger] self.last_box@[e] is Some ==> range_ok(
                self.last_box@[e].unwrap().1,
            )
    }

    /// Every registered entity but `skip` occupies each cell of its range.
    pub open spec fn complete_except(&self, skip: int) -> bool {
        forall|x: int, c: Cell|
            #[trigger] covers_entity(self.last_box@, x, c) && x != skip ==> self.spatial_buckets@.contains_key(
                c,
            ) && self.spatial_buckets@[c]@.contains((x as usize, self.last_box@[x].unwrap().0))
    }

    /// The index agrees with the recorded ranges, both ways.
    pub open spec fn wf(&self) -> bool {
        self.sound() && self.complete_except(-1)
    }

    /// Entities `e0` and `e1` are registered with ranges that share a cell.
    pub open spec fn share_cell(&self, e0: usize, e1: usize) -> bool {
        &&& e0 < self.last_box@.len()
        &&& e1 < self.last_box@.len()
        &&& self.last_box@[e0 as int] matches Some((_, r0))
        &&& self.last_box@[e1 as int] matches Some((_, r1))
        &&& exists|c: Cell| covers(r0, c) && covers(r1, c)
    }

    /// An index for a world of `n` entities, with nothing registered.
    pub fn new(n: usize) -> (r: CollisionDetectionData)
        ensures
            r.wf(),
            r.last_box@.len() == n,
            forall|e: int| 0 <= e < n ==> #[trigger] r.last_box@[e] is None,
            r.spatial_buckets@ =~= Map::empty(),
            queued(r.collisions_events) =~= Map::empty(),
    {
        let mut last_box: Vec<Option<(i64, CellRange)>> = Vec::new();
        let mut k: usize = 0;
        while k < n
            invariant
                k <= n,
                last_box@.len() == k,
                forall|e: int| 0 <= e < k ==> #[trigger] last_box@[e] is None,
            decreases n - k,
        {
            last_box.push(None);
            k = k + 1;
        }
        CollisionDetectionData {
            spatial_buckets: buckets_new(),
            last_box,
            collisions_events: queue_new(),
        }
    }

    /// Registers `entity` for the window `[time, next_time]` and queues its
    /// contacts with the bodies already registered in the cells it sweeps.
    ///
    /// A body that cannot be followed up to `next_time` within the limits is
    /// not registered.  Each new event pairs `entity` with a body whose
    /// recorded range shares a cell with the new one, and its priority is the
    /// negated entry time of a solution whose interval meets the window.
    /// Conversely, every such body with such a solution gets its event.
    /// Events already queued stay, unless replaced by a new one.
    pub fn add(
        &mut self,
        world: &Vec<Body>,
        entity: GenerationalCollisionEntity,
        time: i64,
        next_time: i64,
    )
        requires
            old(self).wf(),
            old(self).last_box@.len() == world@.len(),
            entity.entity < world@.len(),
            old(self).last_box@[entity.entity as int] is None,
            bodies_wf(world@),
        ensures
            final(self).wf(),
            final(self).last_box@ == old(self).last_box@.update(
                entity.entity as int,
                final(self).last_box@[entity.entity as int],
            ),
            final(self).last_box@[entity.entity as int] is Some <==> trackable(
                world@[entity.entity as int].collidable,
                next_time as int,
            ),
            final(self).last_box@[entity.entity as int] matches Some((g, r)) ==> g
                == entity.generation && (r.0 as int, r.1 as int, r.2 as int, r.3 as int)
                == cell_range(world@[entity.entity as int].collidable, next_time as int),
            forall|k: EventKey| #[trigger]
                queued(final(self).collisions_events).contains_key(k) ==> (queued(
                    old(self).collisions_events,
                ).contains_key(k) && queued(final(self).collisions_events)[k] == queued(
                    old(self).collisions_events,
                )[k]) || (k.0 == (entity.entity, entity.generation) && final(self).share_cell(
                    k.0.0,
                    k.1.0,
                ) && k.1.1 == final(self).last_box@[k.1.0 as int].unwrap().0 && k.1.0 < world@.len()
                    && k.1.0 != k.0.0 && event_ok(
                    world@[entity.entity as int].collidable,
                    world@[k.1.0 as int].collidable,
                    queued(final(self).collisions_events)[k],
                    time as int,
                    next_time as int,
                )),
            forall|k: EventKey| #[trigger]
                queued(old(self).collisions_events).contains_key(k) ==> queued(
                    final(self).collisions_events,
                ).contains_key(k) && (queued(final(self).collisions_events)[k] == queued(
                    old(self).collisions_events,
                )[k] || k.0 == (entity.entity, entity.generation)),
            forall|x: usize, t0: i64, t1: i64|
                #![trigger final(self).share_cell(entity.entity, x), found(world@[entity.entity as int].collidable, world@[x as int].collidable, t0, t1, time as int, next_time as int)]
                x < world@.len() && x != entity.entity && final(self).share_cell(entity.entity, x)
                    && solvable(world@[entity.entity as int].collidable, world@[x as int].collidable)
                    && found(
                    world@[entity.entity as int].collidable,
                    world@[x as int].collidable,
                    t0,
                    t1,
                    time as int,
                    next_time as int,
                ) ==> queued(final(self).collisions_events).contains_key(
                    ((entity.entity, entity.generation), (x, final(self).last_box@[x as int].unwrap().0)),
                ) && queued(final(self).collisions_events)[(
                    (entity.entity, entity.generation),
                    (x, final(self).last_box@[x as int].unwrap().0),
                )] == -t0,
    {
        let e = entity.entity;
        let n: usize = self.last_box.len();
        assert(e < n);
        let c = world[e].collidable;
        assert(c.wf());
        if !can_track(&c, next_time) {
            return ;
        }
        let range = get_cell_range_for_movement(&c, next_time);
        let ghost queue = queued(self.collisions_events);
        let ghost old_lb = self.last_box@;
        let ghost pre = *self;
        assert forall|cc: Cell, k: int|
            self.spatial_buckets@.contains_key(cc) && 0 <= k < self.spatial_buckets@[cc]@.len()
                implies (#[trigger] self.spatial_buckets@[cc]@[k]).0 != e by {
            assert(self.registered_in(self.spatial_buckets@[cc]@[k], cc));
        }
        self.last_box.set(e, Some((entity.generation, range)));
        let ghost lb = self.last_box@;
        let ghost b0 = self.spatial_buckets@;
        assert forall|cc: Cell, k: int|
            self.spatial_buckets@.contains_key(cc) && 0 <= k < self.spatial_buckets@[cc]@.len()
                implies self.registered_in(#[trigger] self.spatial_buckets@[cc]@[k], cc) by {
            let ghost o2 = self.spatial_buckets@[cc]@[k];
            assert(old_lb[o2.0 as int] == lb[o2.0 as int]);
        }
        assert forall|x: int|
            0 <= x < self.last_box@.len() && #[trigger] self.last_box@[x] is Some implies range_ok(
            self.last_box@[x].unwrap().1,
        ) by {
            if x != e {
                assert(old_lb[x] is Some);
            }
        }
        assert forall|x: int, cc: Cell|
            #[trigger] covers_entity(self.last_box@, x, cc) && x != e implies self.spatial_buckets@.contains_key(
            cc,
        ) && self.spatial_buckets@[cc]@.contains((x as usize, self.last_box@[x].unwrap().0)) by {
            assert(covers_entity(pre.last_box@, x, cc));
        }
        let me: Occupant = (e, entity.generation);
        let (i0, i1, j0, j1) = range;
        let mut cands: Vec<Occupant> = Vec::new();
        let ghost mut wit: Seq<Cell> = Seq::empty();
        let mut i: i32 = i0;
        while i < i1
            invariant
                self.sound(),
                self.complete_except(e as int),
                self.last_box@ == lb,
                queued(self.collisions_events) == queue,
                lb[e as int] == Some((entity.generation, range)),
                e < lb.len() <= usize::MAX,
                me == (e, entity.generation),
                range == (i0, i1, j0, j1),
                range_ok(range),
                i0 <= i,
                i <= i1 || i == i0,
                forall|cc: Cell, k: int|
                    self.spatial_buckets@.contains_key(cc) && 0 <= k
                        < self.spatial_buckets@[cc]@.len()
                        && (#[trigger] self.spatial_buckets@[cc]@[k]).0 == e ==> cc.0 < i,
                forall|cc: Cell|
                    #[trigger] covers(range, cc) && cc.0 < i ==> self.spatial_buckets@.contains_key(cc)
                        && self.spatial_buckets@[cc]@.contains(me),
                forall|cc: Cell|
                    !(#[trigger] covers(range, cc) && cc.0 < i) ==> (
                    self.spatial_buckets@.contains_key(cc) == b0.contains_key(cc) && (b0.contains_key(
                        cc,
                    ) ==> self.spatial_buckets@[cc] == b0[cc])),
                forall|cc: Cell, o: Occupant|
                    covers(range, cc) && cc.0 < i && b0.contains_key(cc) && #[trigger] b0[cc]@.contains(
                        o,
                    ) ==> cands@.contains(o),
                cands@.no_duplicates(),
                wit.len() == cands@.len(),
                forall|m: int|
                    0 <= m < cands@.len() ==> covers(range, #[trigger] wit[m])
                        && self.registered_in(cands@[m], wit[m]) && cands@[m].0 != e,
            decreases i1 - i,
        {
            let mut j: i32 = j0;
            while j < j1
                invariant
                    self.sound(),
                    self.complete_except(e as int),
                    self.last_box@ == lb,
                    queued(self.collisions_events) == queue,
                    lb[e as int] == Some((entity.generation, range)),
                    e < lb.len() <= usize::MAX,
                    me == (e, entity.generation),
                    range == (i0, i1, j0, j1),
                    range_ok(range),
                    i0 <= i < i1,
                    j0 <= j,
                    j <= j1 || j == j0,
                    forall|cc: Cell, k: int|
                        self.spatial_buckets@.contains_key(cc) && 0 <= k
                            < self.spatial_buckets@[cc]@.len()
                            && (#[trigger] self.spatial_buckets@[cc]@[k]).0 == e ==> cc.0 < i || (
                        cc.0 == i && cc.1 < j),
                    forall|cc: Cell|
                        #[trigger] covers(range, cc) && (cc.0 < i || (cc.0 == i && cc.1 < j))
                            ==> self.spatial_buckets@.contains_key(cc)
                            && self.spatial_buckets@[cc]@.contains(me),
                    forall|cc: Cell|
                        !(#[trigger] covers(range, cc) && (cc.0 < i || (cc.0 == i && cc.1 < j)))
                            ==> (self.spatial_buckets@.contains_key(cc) == b0.contains_key(cc) && (
                        b0.contains_key(cc) ==> self.spatial_buckets@[cc] == b0[cc])),
                    forall|cc: Cell, o: Occupant|
                        covers(range, cc) && (cc.0 < i || (cc.0 == i && cc.1 < j)) && b0.contains_key(
                            cc,
                        ) && #[trigger] b0[cc]@.contains(o) ==> cands@.contains(o),
                    cands@.no_duplicates(),
                    wit.len() == cands@.len(),
                    forall|m: int|
                        0 <= m < cands@.len() ==> covers(range, #[trigger] wit[m])
                            && self.registered_in(cands@[m], wit[m]) && cands@[m].0 != e,
                decreases j1 - j,
            {
                let cell: Cell = (i, j);
                let ghost before = self.spatial_buckets@;
                let ghost pre_self = *self;
                assert(covers(range, cell));
                assert(before.contains_key(cell) == b0.contains_key(cell) && (b0.contains_key(cell)
                    ==> before[cell] == b0[cell]));
                let mut v = match buckets_take(&mut self.spatial_buckets, cell) {
                    Some(v) => v,
                    None => Vec::new(),
                };
                let ghost vv = v@;
                assert forall|m: int| 0 <= m < v@.len() implies self.registered_in(
                    #[trigger] v@[m],
                    cell,
                ) && v@[m].0 != e by {
                    assert(before[cell]@[m] == v@[m]);
                }
                let mut k: usize = 0;
                while k < v.len()
                    invariant
                        k <= v@.len(),
                        v@ == vv,
                        self.last_box@ == lb,
                        i0 <= i < i1,
                        j0 <= j < j1,
                        cell == (i, j),
                        range == (i0, i1, j0, j1),
                        forall|m: int|
                            0 <= m < v@.len() ==> self.registered_in(#[trigger] v@[m], cell)
                                && v@[m].0 != e,
                        forall|m: int| 0 <= m < k ==> cands@.contains(#[trigger] v@[m]),
                        forall|cc: Cell, o: Occupant|
                            covers(range, cc) && (cc.0 < i || (cc.0 == i && cc.1 < j))
                                && b0.contains_key(cc) && #[trigger] b0[cc]@.contains(o)
                                ==> cands@.contains(o),
                        cands@.no_duplicates(),
                        wit.len() == cands@.len(),
                        forall|m: int|
                            0 <= m < cands@.len() ==> covers(range, #[trigger] wit[m])
                                && self.registered_in(cands@[m], wit[m]) && cands@[m].0 != e,
                    decreases v@.len() - k,
                {
                    let x = v[k];
                    let ghost cands_before = cands@;
                    if !contains_occupant(&cands, x) {
                        cands.push(x);
                        proof {
                            wit = wit.push(cell);
                            assert(cands@[cands@.len() - 1] == x);
                            assert forall|a: int, b: int|
                                0 <= a < b < cands@.len() implies cands@[a] != cands@[b] by {
                                if b == cands@.len() - 1 {
                                    assert(cands_before[a] == cands@[a]);
                                }
                            }
                        }
                    }
                    proof {
                        assert forall|o: Occupant| cands_before.contains(o) implies cands@.contains(
                            o,
                        ) by {
                            let jj = choose|jj: int| 0 <= jj < cands_before.len() && cands_before[jj] == o;
                            assert(cands@[jj] == o);
                        }
                        assert(cands@.contains(x));
                    }
                    k = k + 1;
                }
                v.push(me);
                assert(v@[v@.len() - 1] == me);
                assert forall|m: int| 0 <= m < v@.len() implies self.registered_in(
                    #[trigger] v@[m],
                    cell,
                ) by {
                    if m < vv.len() {
                        assert(v@[m] == vv[m]);
                    }
                }
                let ghost nv = v@;
                buckets_put(&mut self.spatial_buckets, cell, v);
                assert forall|cc: Cell, kk: int|
                    self.spatial_buckets@.contains_key(cc) && 0 <= kk
                        < self.spatial_buckets@[cc]@.len() implies self.registered_in(
                    #[trigger] self.spatial_buckets@[cc]@[kk],
                    cc,
                ) by {
                    if cc != cell {
                        assert(before[cc]@[kk] == self.spatial_buckets@[cc]@[kk]);
                    }
                }
                assert forall|cc: Cell, kk: int|
                    self.spatial_buckets@.contains_key(cc) && 0 <= kk
                        < self.spatial_buckets@[cc]@.len()
                        && (#[trigger] self.spatial_buckets@[cc]@[kk]).0 == e implies cc.0 < i || (
                cc.0 == i && cc.1 < j + 1) by {
                    if cc != cell {
                        assert(before[cc]@[kk] == self.spatial_buckets@[cc]@[kk]);
                    }
                }
                assert forall|x: int, cc: Cell|
                    #[trigger] covers_entity(self.last_box@, x, cc) && x != e implies self.spatial_buckets@.contains_key(
                    cc,
                ) && self.spatial_buckets@[cc]@.contains((x as usize, self.last_box@[x].unwrap().0)) by {
                    assert(covers_entity(pre_self.last_box@, x, cc));
                    if cc == cell {
                        let ox = (x as usize, lb[x].unwrap().0);
                        assert(before[cell]@.contains(ox));
                        let jj = choose|jj: int| 0 <= jj < vv.len() && vv[jj] == ox;
                        assert(nv[jj] == ox);
                    }
                }
                assert forall|cc: Cell|
                    #[trigger] covers(range, cc) && (cc.0 < i || (cc.0 == i && cc.1 < j + 1))
                        implies self.spatial_buckets@.contains_key(cc)
                        && self.spatial_buckets@[cc]@.contains(me) by {
                    if cc == cell {
                        assert(nv[nv.len() - 1] == me);
                    }
                }
                assert forall|cc: Cell|
                    !(#[trigger] covers(range, cc) && (cc.0 < i || (cc.0 == i && cc.1 < j + 1)))
                        implies (self.spatial_buckets@.contains_key(cc) == b0.contains_key(cc) && (
                    b0.contains_key(cc) ==> self.spatial_buckets@[cc] == b0[cc])) by {
                    assert(cc != cell);
                    assert(!(covers(range, cc) && (cc.0 < i || (cc.0 == i && cc.1 < j))));
                }
                assert forall|cc: Cell, o: Occupant|
                    covers(range, cc) && (cc.0 < i || (cc.0 == i && cc.1 < j + 1)) && b0.contains_key(
                        cc,
                    ) && #[trigger] b0[cc]@.contains(o) implies cands@.contains(o) by {
                    if cc == cell {
                        let jj = choose|jj: int| 0 <= jj < b0[cc]@.len() && b0[cc]@[jj] == o;
                        assert(vv[jj] == o);
                    }
                }
                j = j + 1;
            }
            i = i + 1;
        }
        assert forall|x: int, cc: Cell|
            #[trigger] covers_entity(self.last_box@, x, cc) && x != -1 implies self.spatial_buckets@.contains_key(
            cc,
        ) && self.spatial_buckets@[cc]@.contains((x as usize, self.last_box@[x].unwrap().0)) by {
            if x == e {
                assert(covers(range, cc));
            }
        }
        // Every body registered in a cell of the new range is a candidate.
        let ghost registered = *self;
        assert forall|x: usize|
            #![trigger registered.share_cell(e, x)]
            x != e && registered.share_cell(e, x) implies cands@.contains((x, lb[x as int].unwrap().0)) by {
            let r2 = lb[x as int].unwrap().1;
            let cc = choose|cc: Cell| covers(range, cc) && covers(r2, cc);
            assert(covers_entity(pre.last_box@, x as int, cc));
            assert(b0.contains_key(cc) && b0[cc]@.contains((x, lb[x as int].unwrap().0)));
        }
        let mut m: usize = 0;
        while m < cands.len()
            invariant
                self.wf(),
                self.last_box@ == lb,
                lb[e as int] == Some((entity.generation, range)),
                e < lb.len(),
                lb.len() == world@.len(),
                me == (e, entity.generation),
                c == world@[e as int].collidable,
                c.wf(),
                bodies_wf(world@),
                cands@.no_duplicates(),
                wit.len() == cands@.len(),
                forall|mm: int|
                    0 <= mm < cands@.len() ==> covers(range, #[trigger] wit[mm])
                        && self.registered_in(cands@[mm], wit[mm]) && cands@[mm].0 != e,
                forall|k: EventKey| #[trigger]
                    queued(self.collisions_events).contains_key(k) ==> (queue.contains_key(k)
                        && queued(self.collisions_events)[k] == queue[k]) || (k.0 == me
                        && self.share_cell(k.0.0, k.1.0) && k.1.1 == self.last_box@[k.1.0 as int].unwrap().0
                        && k.1.0 < world@.len() && k.1.0 != k.0.0 && event_ok(
                        c,
                        world@[k.1.0 as int].collidable,
                        queued(self.collisions_events)[k],
                        time as int,
                        next_time as int,
                    )),
                forall|k: EventKey| #[trigger]
                    queue.contains_key(k) ==> queued(self.collisions_events).contains_key(k) && (
                    queued(self.collisions_events)[k] == queue[k] || k.0 == me),
                forall|mm: int, t0: i64, t1: i64|
                    #![trigger cands@[mm], found(c, world@[cands@[mm].0 as int].collidable, t0, t1, time as int, next_time as int)]
                    0 <= mm < m && cands@[mm].0 < world@.len() && solvable(
                        c,
                        world@[cands@[mm].0 as int].collidable,
                    ) && found(
                        c,
                        world@[cands@[mm].0 as int].collidable,
                        t0,
                        t1,
                        time as int,
                        next_time as int,
                    ) ==> queued(self.collisions_events).contains_key((me, cands@[mm])) && queued(
                        self.collisions_events,
                    )[(me, cands@[mm])] == -t0,
            decreases cands@.len() - m,
        {
            let o = cands[m];
            let ghost q_before = queued(self.collisions_events);
            let ghost mut called = false;
            let ghost mut sol_g: Option<(i64, i64)> = None;
            if o.0 < world.len() {
                let c2 = world[o.0].collidable;
                assert(c2.wf());
                if can_solve(&c, &c2) {
                    let sol = solve_collision(&c, &c2);
                    proof {
                        called = true;
                        sol_g = sol;
                    }
                    match sol {
                        Some((t0, t1)) => {
                            proof {
                                lemma_solution_not_before(c, c2, sol);
                            }
                            if segments_intersect((t0, t1), (time, next_time)) {
                                queue_push(&mut self.collisions_events, (me, o), -t0);
                                proof {
                                    let w = wit[m as int];
                                    assert(covers(range, w));
                                    assert(self.share_cell(e, o.0));
                                    assert(collision_solution(
                                        c,
                                        c2,
                                        Some(((-(-t0)) as i64, t1)),
                                    ));
                                    assert(event_ok(c, c2, (-t0) as i64, time as int, next_time as int));
                                    assert forall|k: EventKey| #[trigger]
                                        queued(self.collisions_events).contains_key(k) implies (
                                    queue.contains_key(k) && queued(self.collisions_events)[k]
                                        == queue[k]) || (k.0 == me && self.share_cell(k.0.0, k.1.0)
                                        && k.1.1 == self.last_box@[k.1.0 as int].unwrap().0
                                        && k.1.0 != k.0.0
                                        && k.1.0 < world@.len() && event_ok(
                                        c,
                                        world@[k.1.0 as int].collidable,
                                        queued(self.collisions_events)[k],
                                        time as int,
                                        next_time as int,
                                    )) by {
                                        if k != (me, o) {
                                            assert(q_before.contains_key(k));
                                        }
                                    }
                                }
                            }
                        },
                        None => {},
                    }
                }
            }
            proof {
                assert forall|mm: int, t0: i64, t1: i64|
                    0 <= mm < m + 1 && cands@[mm].0 < world@.len() && solvable(
                        c,
                        world@[cands@[mm].0 as int].collidable,
                    ) && #[trigger] found(
                        c,
                        world@[cands@[mm].0 as int].collidable,
                        t0,
                        t1,
                        time as int,
                        next_time as int,
                    ) implies queued(self.collisions_events).contains_key((me, cands@[mm]))
                    && queued(self.collisions_events)[(me, cands@[mm])] == -t0 by {
                    if mm < m {
                        assert(cands@[mm] != cands@[m as int]);
                        assert(q_before.contains_key((me, cands@[mm])));
                    } else {
                        let c2 = world@[o.0 as int].collidable;
                        assert(cands@[mm] == o);
                        assert(called);
                        lemma_solution_unique(c, c2, sol_g, Some((t0, t1)));
                    }
                }
            }
            m = m + 1;
        }
        proof {
            assert forall|x: usize, t0: i64, t1: i64|
                x < world@.len() && x != e && self.share_cell(e, x) && solvable(
                    c,
                    world@[x as int].collidable,
                ) && #[trigger] found(
                    c,
                    world@[x as int].collidable,
                    t0,
                    t1,
                    time as int,
                    next_time as int,
                ) implies queued(self.collisions_events).contains_key(
                (me, (x, self.last_box@[x as int].unwrap().0)),
            ) && queued(self.collisions_events)[(me, (x, self.last_box@[x as int].unwrap().0))]
                == -t0 by {
                let ox = (x, lb[x as int].unwrap().0);
                assert(registered.share_cell(e, x));
                assert(cands@.contains(ox));
                let mm = choose|mm: int| 0 <= mm < cands@.len() && cands@[mm] == ox;
                assert(found(c, world@[cands@[mm].0 as int].collidable, t0, t1, time as int, next_time as int));
            }
        }
    }

    /// Unregisters `entity` if it is registered with that generation: it
    /// leaves every cell of its recorded range.  Otherwise nothing changes.
    pub fn remove(&mut self, entity: GenerationalCollisionEntity)
        requires
            old(self).wf(),
        ensures
            final(self).wf(),
            queued(final(self).collisions_events) == queued(old(self).collisions_events),
            if old(self).is_registered(entity) {
                final(self).last_box@ == old(self).last_box@.update(entity.entity as int, None)
            } else {
                final(self).last_box@ == old(self).last_box@ && final(self).spatial_buckets@
                    == old(self).spatial_buckets@
            },
    {
        let e = entity.entity;
        if e >= self.last_box.len() {
            return;
        }
        let (g, range) = match self.last_box[e] {
            Some(x) => x,
            None => {
                return ;
            },
        };
        if g != entity.generation {
            return ;
        }
        let o: Occupant = (e, g);
        let ghost lb = self.last_box@;
        let ghost queue = queued(self.collisions_events);
        let (i0, i1, j0, j1) = range;
        assert(range_ok(range));
        assert forall|c: Cell, k: int|
            self.spatial_buckets@.contains_key(c) && 0 <= k < self.spatial_buckets@[c]@.len()
                && #[trigger] self.spatial_buckets@[c]@[k] == o implies covers(range, c) by {
            assert(self.registered_in(self.spatial_buckets@[c]@[k], c));
        }
        let mut i: i32 = i0;
        while i < i1
            invariant
                self.sound(),
                self.complete_except(e as int),
                self.last_box@ == lb,
                queued(self.collisions_events) == queue,
                lb[e as int] == Some((g, range)),
                e < lb.len() <= usize::MAX,
                o == (e, g),
                range == (i0, i1, j0, j1),
                range_ok(range),
                i0 <= i,
                i <= i1 || i == i0,
                forall|c: Cell, k: int|
                    self.spatial_buckets@.contains_key(c) && 0 <= k
                        < self.spatial_buckets@[c]@.len() && #[trigger] self.spatial_buckets@[c]@[k]
                        == o ==> covers(range, c) && c.0 >= i,
            decreases i1 - i,
        {
            let mut j: i32 = j0;
            while j < j1
                invariant
                    self.sound(),
                    self.complete_except(e as int),
                    self.last_box@ == lb,
                    queued(self.collisions_events) == queue,
                    lb[e as int] == Some((g, range)),
                    e < lb.len() <= usize::MAX,
                    o == (e, g),
                    range == (i0, i1, j0, j1),
                    range_ok(range),
                    i0 <= i < i1,
                    j0 <= j,
                    j <= j1 || j == j0,
                    forall|c: Cell, k: int|
                        self.spatial_buckets@.contains_key(c) && 0 <= k
                            < self.spatial_buckets@[c]@.len()
                            && #[trigger] self.spatial_buckets@[c]@[k] == o ==> covers(range, c)
                            && (c.0 > i || (c.0 == i && c.1 >= j)),
                decreases j1 - j,
            {
                let cell: Cell = (i, j);
                let ghost before = self.spatial_buckets@;
                let ghost pre_self = *self;
                match buckets_take(&mut self.spatial_buckets, cell) {
                    None => {},
                    Some(v) => {
                        assert forall|m: int| 0 <= m < v@.len() implies self.registered_in(
                            #[trigger] v@[m],
                            cell,
                        ) by {
                            assert(before[cell]@[m] == v@[m]);
                        }
                        let mut w: Vec<Occupant> = Vec::new();
                        let mut k: usize = 0;
                        while k < v.len()
                            invariant
                                k <= v@.len(),
                                self.last_box@ == lb,
                                forall|m: int|
                                    0 <= m < k && #[trigger] v@[m] != o ==> w@.contains(v@[m]),
                                forall|m: int|
                                    0 <= m < v@.len() ==> self.registered_in(#[trigger] v@[m], cell),
                                forall|m: int|
                                    0 <= m < w@.len() ==> #[trigger] w@[m] != o && self.registered_in(
                                        w@[m],
                                        cell,
                                    ),
                            decreases v@.len() - k,
                        {
                            let x = v[k];
                            let ghost w_before = w@;
                            if !(x.0 == o.0 && x.1 == o.1) {
                                w.push(x);
                                assert(w@[w@.len() - 1] == x);
                            }
                            assert forall|m: int|
                                0 <= m < k + 1 && #[trigger] v@[m] != o implies w@.contains(v@[m]) by {
                                if m < k {
                                    assert(w_before.contains(v@[m]));
                                    let j = choose|j: int| 0 <= j < w_before.len() && w_before[j] == v@[m];
                                    assert(w@[j] == v@[m]);
                                }
                            }
                            k = k + 1;
                        }
                        let ghost wv = w@;
                        buckets_put(&mut self.spatial_buckets, cell, w);
                        assert forall|x: int|
                            #[trigger] covers_entity(pre_self.last_box@, x, cell) && x != e implies wv.contains(
                            (x as usize, lb[x].unwrap().0),
                        ) by {
                            let ox = (x as usize, lb[x].unwrap().0);
                            assert(pre_self.complete_except(e as int));
                            assert(pre_self.spatial_buckets@[cell]@.contains(ox));
                            assert(before[cell] == v);
                            assert(v@.contains(ox));
                            let jj = choose|jj: int| 0 <= jj < v@.len() && v@[jj] == ox;
                            assert(0 <= x < lb.len());
                            assert((x as usize) != e);
                            assert(ox.0 != o.0);
                            assert(v@[jj] != o);
                        }
                    },
                }
                assert forall|x: int, c: Cell|
                    #[trigger] covers_entity(self.last_box@, x, c) && x != e implies self.spatial_buckets@.contains_key(
                    c,
                ) && self.spatial_buckets@[c]@.contains((x as usize, self.last_box@[x].unwrap().0)) by {
                    assert(covers_entity(pre_self.last_box@, x, c));
                }
                assert forall|c: Cell, k: int|
                    self.spatial_buckets@.contains_key(c) && 0 <= k
                        < self.spatial_buckets@[c]@.len()
                        && #[trigger] self.spatial_buckets@[c]@[k] == o implies covers(range, c)
                        && (c.0 > i || (c.0 == i && c.1 >= j + 1)) by {
                    if c != cell {
                        assert(before.contains_key(c) && before[c]@[k] == o);
                    }
                }
                j = j + 1;
            }
            i = i + 1;
        }
        assert forall|c: Cell, k: int|
            self.spatial_buckets@.contains_key(c) && 0 <= k < self.spatial_buckets@[c]@.len()
                implies (#[trigger] self.spatial_buckets@[c]@[k]).0 != e by {
            assert(self.registered_in(self.spatial_buckets@[c]@[k], c));
        }
        let ghost pre = *self;
        self.last_box.set(e, None);
        assert forall|c: Cell, k: int|
            self.spatial_buckets@.contains_key(c) && 0 <= k < self.spatial_buckets@[c]@.len()
                implies self.registered_in(#[trigger] self.spatial_buckets@[c]@[k], c) by {
            let ghost o2 = self.spatial_buckets@[c]@[k];
            assert(o2.0 != e);
            assert(self.last_box@[o2.0 as int] == lb[o2.0 as int]);
        }
        assert forall|x: int|
            0 <= x < self.last_box@.len() && #[trigger] self.last_box@[x] is Some implies range_ok(
            self.last_box@[x].unwrap().1,
        ) by {
            assert(lb[x] is Some);
        }
        assert forall|x: int, c: Cell|
            #[trigger] covers_entity(self.last_box@, x, c) && x != -1 implies self.spatial_buckets@.contains_key(
            c,
        ) && self.spatial_buckets@[c]@.contains((x as usize, self.last_box@[x].unwrap().0)) by {
            assert(x != e);
            assert(self.last_box@[x] == lb[x]);
            assert(covers_entity(pre.last_box@, x, c));
        }
    }
}

/// Detection: resets the index and queue, then registers every body of the
/// world for the frame window, queueing the contacts found on the way.
///
/// Afterwards each body that can be followed to the end of the window is
/// registered with its current generation and the cells it sweeps.  Every
/// queued event pairs two such bodies whose ranges share a cell, the later
/// of the two in the world first, with the negated entry time of a solution
/// whose interval meets the window; and every such pair with such a
/// solution is queued.
pub fn collision(
    world: &Vec<Body>,
    simulation_data: &SimulationData,
    collision_detection_data: &mut CollisionDetectionData,
)
    requires
        bodies_wf(world@),
    ensures
        final(collision_detection_data).wf(),
        registrations_current(*final(collision_detection_data), world@),
        forall|e: int|
            0 <= e < world@.len() ==> (#[trigger] final(collision_detection_data).last_box@[e]
                is Some <==> trackable(world@[e].collidable, simulation_data.next_time as int)),
        forall|e: int|
            0 <= e < world@.len() ==> (#[trigger] final(collision_detection_data).last_box@[e]
                matches Some((g, r)) ==> g == world@[e].generation.generation && (
            r.0 as int,
            r.1 as int,
            r.2 as int,
            r.3 as int,
        ) == cell_range(world@[e].collidable, simulation_data.next_time as int)),
        forall|k: EventKey| #[trigger]
            queued(final(collision_detection_data).collisions_events).contains_key(k) ==> {
                &&& final(collision_detection_data).share_cell(k.0.0, k.1.0)
                &&& k.1.0 < k.0.0 < world@.len()
                &&& k.0.1 == world@[k.0.0 as int].generation.generation
                &&& k.1.1 == world@[k.1.0 as int].generation.generation
                &&& event_ok(
                    world@[k.0.0 as int].collidable,
                    world@[k.1.0 as int].collidable,
                    queued(final(collision_detection_data).collisions_events)[k],
                    simulation_data.time as int,
                    simulation_data.next_time as int,
                )
            },
        forall|x: usize, y: usize, t0: i64, t1: i64|
            #![trigger final(collision_detection_data).share_cell(y, x), found(world@[y as int].collidable, world@[x as int].collidable, t0, t1, simulation_data.time as int, simulation_data.next_time as int)]
            x < y < world@.len() && final(collision_detection_data).share_cell(y, x) && solvable(
                world@[y as int].collidable,
                world@[x as int].collidable,
            ) && found(
                world@[y as int].collidable,
                world@[x as int].collidable,
                t0,
                t1,
                simulation_data.time as int,
                simulation_data.next_time as int,
            ) ==> queued(final(collision_detection_data).collisions_events).contains_key(
                ((y, world@[y as int].generation.generation), (x, world@[x as int].generation.generation)),
            ) && queued(final(collision_detection_data).collisions_events)[(
                (y, world@[y as int].generation.generation),
                (x, world@[x as int].generation.generation),
            )] == -t0,
{
    let n = world.len();
    *collision_detection_data = CollisionDetectionData::new(n);
    let mut e: usize = 0;
    while e < n
        invariant
            n == world@.len(),
            bodies_wf(world@),
            e <= n,
            collision_detection_data.wf(),
            collision_detection_data.last_box@.len() == n,
            forall|x: int| e <= x < n ==> #[trigger] collision_detection_data.last_box@[x] is None,
            forall|x: int|
                0 <= x < e ==> (#[trigger] collision_detection_data.last_box@[x] is Some
                    <==> trackable(world@[x].collidable, simulation_data.next_time as int)),
            forall|x: int|
                0 <= x < e ==> (#[trigger] collision_detection_data.last_box@[x] matches Some(
                    (g, r),
                ) ==> g == world@[x].generation.generation && (
                r.0 as int,
                r.1 as int,
                r.2 as int,
                r.3 as int,
            ) == cell_range(world@[x].collidable, simulation_data.next_time as int)),
            forall|k: EventKey| #[trigger]
                queued(collision_detection_data.collisions_events).contains_key(k) ==> {
                    &&& collision_detection_data.share_cell(k.0.0, k.1.0)
                    &&& k.1.0 < k.0.0 < e
                    &&& k.0.1 == world@[k.0.0 as int].generation.generation
                &&& k.1.1 == world@[k.1.0 as int].generation.generation
                    &&& event_ok(
                        world@[k.0.0 as int].collidable,
                        world@[k.1.0 as int].collidable,
                        queued(collision_detection_data.collisions_events)[k],
                        simulation_data.time as int,
                        simulation_data.next_time as int,
                    )
                },
            forall|x: usize, y: usize, t0: i64, t1: i64|
                #![trigger collision_detection_data.share_cell(y, x), found(world@[y as int].collidable, world@[x as int].collidable, t0, t1, simulation_data.time as int, simulation_data.next_time as int)]
                x < y < e && collision_detection_data.share_cell(y, x) && solvable(
                    world@[y as int].collidable,
                    world@[x as int].collidable,
                ) && found(
                    world@[y as int].collidable,
                    world@[x as int].collidable,
                    t0,
                    t1,
                    simulation_data.time as int,
                    simulation_data.next_time as int,
                ) ==> queued(collision_detection_data.collisions_events).contains_key(
                    ((y, world@[y as int].generation.generation), (x, world@[x as int].generation.generation)),
                ) && queued(collision_detection_data.collisions_events)[(
                    (y, world@[y as int].generation.generation),
                    (x, world@[x as int].generation.generation),
                )] == -t0,
        decreases n - e,
    {
        let ghost before = *collision_detection_data;
        let entity = GenerationalCollisionEntity {
            entity: e,
            generation: world[e].generation.generation,
        };
        collision_detection_data.add(world, entity, simulation_data.time, simulation_data.next_time);
        proof {
            let d = *collision_detection_data;
            assert forall|k: EventKey| #[trigger]
                queued(d.collisions_events).contains_key(k) implies {
                &&& d.share_cell(k.0.0, k.1.0)
                &&& k.1.0 < k.0.0 < e + 1
                &&& k.0.1 == world@[k.0.0 as int].generation.generation
                &&& k.1.1 == world@[k.1.0 as int].generation.generation
                &&& event_ok(
                    world@[k.0.0 as int].collidable,
                    world@[k.1.0 as int].collidable,
                    queued(d.collisions_events)[k],
                    simulation_data.time as int,
                    simulation_data.next_time as int,
                )
            } by {
                if queued(before.collisions_events).contains_key(k) && queued(d.collisions_events)[k]
                    == queued(before.collisions_events)[k] {
                    assert(before.share_cell(k.0.0, k.1.0));
                    assert(k.0.0 != e && k.1.0 != e);
                    assert(d.last_box@[k.0.0 as int] == before.last_box@[k.0.0 as int]);
                    assert(d.last_box@[k.1.0 as int] == before.last_box@[k.1.0 as int]);
                }
            }
            assert forall|x: int|
                0 <= x < e + 1 implies (#[trigger] d.last_box@[x] is Some <==> trackable(
                world@[x].collidable,
                simulation_data.next_time as int,
            )) by {
                if x != e {
                    assert(d.last_box@[x] == before.last_box@[x]);
                }
            }
            assert forall|x: int|
                0 <= x < e + 1 implies (#[trigger] d.last_box@[x] matches Some((g, r)) ==> g
                == world@[x].generation.generation && (
                r.0 as int,
                r.1 as int,
                r.2 as int,
                r.3 as int,
            ) == cell_range(world@[x].collidable, simulation_data.next_time as int)) by {
                if x != e {
                    assert(d.last_box@[x] == before.last_box@[x]);
                }
            }
            assert forall|x: int| e + 1 <= x < n implies #[trigger] d.last_box@[x] is None by {
                assert(d.last_box@[x] == before.last_box@[x]);
            }
            assert forall|x: usize, y: usize, t0: i64, t1: i64|
                x < y < e + 1 && d.share_cell(y, x) && solvable(
                    world@[y as int].collidable,
                    world@[x as int].collidable,
                ) && #[trigger] found(
                    world@[y as int].collidable,
                    world@[x as int].collidable,
                    t0,
                    t1,
                    simulation_data.time as int,
                    simulation_data.next_time as int,
                ) implies queued(d.collisions_events).contains_key(
                ((y, world@[y as int].generation.generation), (x, world@[x as int].generation.generation)),
            ) && queued(d.collisions_events)[(
                (y, world@[y as int].generation.generation),
                (x, world@[x as int].generation.generation),
            )] == -t0 by {
                assert(d.last_box@[x as int] == before.last_box@[x as int]);
                assert(d.last_box@[x as int] is Some);
                if y < e {
                    assert(d.last_box@[y as int] == before.last_box@[y as int]);
                    assert(before.share_cell(y, x));
                    let k = ((y, world@[y as int].generation.generation), (x, world@[x as int].generation.generation));
                    assert(queued(before.collisions_events).contains_key(k));
                } else {
                    assert(d.share_cell(e, x));
                }
            }
        }
        e = e + 1;
    }
}

/// Every registration carries the current generation of its body.
pub open spec fn registrations_current(data: CollisionDetectionData, world: Seq<Body>) -> bool {
    &&& data.last_box@.len() == world.len()
    &&& forall|x: int|
        0 <= x < world.len() && #[trigger] data.last_box@[x] is Some ==> data.last_box@[x].unwrap().0
            == world[x].generation.generation
}

/// The event refers to a body that is missing, or whose generation moved on
/// since the event was queued.
pub open spec fn stale(world: Seq<Body>, event: EventKey) -> bool {
    ||| event.0.0 >= world.len()
    ||| event.1.0 >= world.len()
    ||| world[event.0.0 as int].generation.generation != event.0.1
    ||| world[event.1.0 as int].generation.generation != event.1.1
}

/// The event is current and its contact at `t` can be resolved.
pub open spec fn can_apply(world: Seq<Body>, event: EventKey, t: int) -> bool {
    &&& !stale(world, event)
    &&& event.0.0 != event.1.0
    &&& resolvable(world[event.0.0 as int].collidable, world[event.1.0 as int].collidable, t)
    &&& world[event.0.0 as int].generation.generation < i64::MAX
    &&& world[event.1.0 as int].generation.generation < i64::MAX
}

/// Body `after` is `before` with the contact outcome `n` written back: a
/// bounced ball gets its new state, one more generation and the travelled
/// piece of path; `None` leaves the body as it was.
pub open spec fn updated(before: Body, after: Body, n: Option<Ball>, t: int) -> bool {
    match n {
        None => after == before,
        Some(b) => {
            &&& after.collidable == Collidable::Ball(b)
            &&& after.generation.generation == before.generation.generation + 1
            &&& before.collidable matches Collidable::Ball(ob)
            &&& after.trails.trails@ == logged(before.trails.trails@, ob, t)
        },
    }
}

/// The world `after` is `before` with the contact of `event` at `t` resolved.
pub open spec fn applied(before: Seq<Body>, after: Seq<Body>, event: EventKey, t: int) -> bool {
    let e0 = event.0.0 as int;
    let e1 = event.1.0 as int;
    let outcome = resolution(before[e0].collidable, before[e1].collidable, t);
    &&& after.len() == before.len()
    &&& updated(before[e0], after[e0], outcome.0, t)
    &&& updated(before[e1], after[e1], outcome.1, t)
    &&& forall|x: int| 0 <= x < before.len() && x != e0 && x != e1 ==> after[x] == before[x]
}

/// A copy of an entity's shape and motion.
pub fn fetch_collidable_copy(world: &Vec<Body>, entity: usize) -> (r: Collidable)
    requires
        entity < world@.len(),
    ensures
        r == world@[entity as int].collidable,
{
    world[entity].collidable
}

/// What the index holds: the cells, the registrations and the queued events.
pub type IndexView = (Map<Cell, Vec<Occupant>>, Seq<Option<(i64, CellRange)>>, Map<EventKey, i64>);

pub open spec fn index_view(d: CollisionDetectionData) -> IndexView {
    (d.spatial_buckets@, d.last_box@, queued(d.collisions_events))
}

/// Snapshot `s` names a body that changed from `ow` to `fw`, at its new
/// generation.
pub open spec fn renewed(ow: Seq<Body>, fw: Seq<Body>, s: Occupant) -> bool {
    &&& s.0 < ow.len()
    &&& fw[s.0 as int] != ow[s.0 as int]
    &&& s.1 == fw[s.0 as int].generation.generation
}

/// Event `k`, queued with priority `prio` while handling a contact at `t`,
/// pairs a changed body at its new generation with another body at the
/// generation it had when the pair was solved, and `prio` is the negated
/// entry time of a solution that meets `[t, next_time]`.
pub open spec fn new_event_ok(
    ow: Seq<Body>,
    fw: Seq<Body>,
    k: EventKey,
    prio: i64,
    t: int,
    next_time: int,
) -> bool {
    &&& renewed(ow, fw, k.0)
    &&& k.1.0 < ow.len()
    &&& k.1.0 != k.0.0
    &&& ((k.1.1 == ow[k.1.0 as int].generation.generation && event_ok(
        fw[k.0.0 as int].collidable,
        ow[k.1.0 as int].collidable,
        prio,
        t,
        next_time,
    )) || (k.1.1 == fw[k.1.0 as int].generation.generation && event_ok(
        fw[k.0.0 as int].collidable,
        fw[k.1.0 as int].collidable,
        prio,
        t,
        next_time,
    )))
}

/// The effect of handling `event` at time `t` on world `ow` and index `oi`,
/// giving `fw` and `fi`.  A stale or unresolvable event changes nothing.
/// Otherwise the contact is applied; each changed body is registered again
/// (exactly when it can be followed to `next_time`) and its new contacts are
/// queued; everything else in the index stays.
pub open spec fn event_effect(
    ow: Seq<Body>,
    oi: IndexView,
    event: EventKey,
    t: int,
    fw: Seq<Body>,
    fi: IndexView,
    next_time: int,
) -> bool {
    if can_apply(ow, event, t) {
        &&& applied(ow, fw, event, t)
        &&& fi.1.len() == oi.1.len()
        &&& forall|x: int| 0 <= x < ow.len() && fw[x] == ow[x] ==> #[trigger] fi.1[x] == oi.1[x]
        &&& forall|x: int|
            0 <= x < ow.len() && fw[x] != ow[x] ==> (#[trigger] fi.1[x] is Some <==> trackable(
                fw[x].collidable,
                next_time,
            ))
        &&& forall|k: EventKey| #[trigger]
            oi.2.contains_key(k) ==> fi.2.contains_key(k) && (fi.2[k] == oi.2[k] || renewed(
                ow,
                fw,
                k.0,
            ))
        &&& forall|k: EventKey| #[trigger]
            fi.2.contains_key(k) ==> (oi.2.contains_key(k) && fi.2[k] == oi.2[k]) || new_event_ok(
                ow,
                fw,
                k,
                fi.2[k],
                t,
                next_time,
            )
    } else {
        fw == ow && fi == oi
    }
}

/// Writes a bounced ball back into the world, logs its path up to `t`, and
/// moves its generation on.
fn write_collidable(world: &mut Vec<Body>, entity: usize, ball: Ball, t: i64)
    requires
        entity < old(world)@.len(),
        old(world)@[entity as int].collidable matches Collidable::Ball(ob) && ob.wf()
            && ob.can_advance_to(t as int) && ball.position == ob.advanced(t as int).position,
        old(world)@[entity as int].generation.generation < i64::MAX,
    ensures
        final(world)@.len() == old(world)@.len(),
        updated(old(world)@[entity as int], final(world)@[entity as int], Some(ball), t as int),
        forall|x: int|
            0 <= x < old(world)@.len() && x != entity ==> final(world)@[x] == old(world)@[x],
{
    if let Collidable::Ball(ob) = world[entity].collidable {
        let mut moved = ob;
        advance_single_ball(&mut moved, &mut world[entity].trails, t);
        world[entity].collidable = Collidable::Ball(ball);
        world[entity].generation.generation = world[entity].generation.generation + 1;
    }
}

/// Handles one event popped from the queue, with contact time `t`.
///
/// A stale event, or one whose contact cannot be resolved within the limits,
/// is dropped and changes nothing.  Otherwise the contact is resolved, each
/// body it changes is written back with one more generation, and is
/// registered again for `[t, next_time]` so that its later contacts in this
/// frame are found.  Returns whether the contact was resolved.
pub fn process_event(
    world: &mut Vec<Body>,
    collision_detection_data: &mut CollisionDetectionData,
    event: EventKey,
    t: i64,
    next_time: i64,
) -> (r: bool)
    requires
        old(collision_detection_data).wf(),
        registrations_current(*old(collision_detection_data), old(world)@),
        bodies_wf(old(world)@),
    ensures
        final(collision_detection_data).wf(),
        registrations_current(*final(collision_detection_data), final(world)@),
        bodies_wf(final(world)@),
        r == can_apply(old(world)@, event, t as int),
        event_effect(
            old(world)@,
            index_view(*old(collision_detection_data)),
            event,
            t as int,
            final(world)@,
            index_view(*final(collision_detection_data)),
            next_time as int,
        ),
{
    let ((e0, g0), (e1, g1)) = event;
    let n = world.len();
    if e0 >= n || e1 >= n || e0 == e1 {
        return false;
    }
    if world[e0].generation.generation != g0 || world[e1].generation.generation != g1 {
        return false;
    }
    if g0 == i64::MAX || g1 == i64::MAX {
        return false;
    }
    let c0 = fetch_collidable_copy(world, e0);
    let c1 = fetch_collidable_copy(world, e1);
    assert(c0.wf() && c1.wf());
    if !can_resolve(&c0, &c1, t) {
        return false;
    }
    let ghost w0 = world@;
    let outcome = collide(&c0, &c1, t);
    let (n0, n1) = outcome;
    let ghost lb0 = collision_detection_data.last_box@;
    let ghost q0 = queued(collision_detection_data.collisions_events);
    if let Some(b) = n0 {
        let old_entity = GenerationalCollisionEntity { entity: e0, generation: g0 };
        collision_detection_data.remove(old_entity);
        assert(collision_detection_data.last_box@[e0 as int] is None);
        write_collidable(world, e0, b, t);
        assert(bodies_wf(world@)) by {
            assert forall|x: int| 0 <= x < world@.len() implies (#[trigger] world@[x]).collidable.wf() by {
                if x != e0 {
                    assert(world@[x] == w0[x]);
                }
            }
        }
        collision_detection_data.add(world, old_entity.next(), t, next_time);
    }
    let ghost w1 = world@;
    let ghost lb1 = collision_detection_data.last_box@;
    let ghost q1 = queued(collision_detection_data.collisions_events);
    proof {
        assert forall|x: int|
            0 <= x < world@.len() && #[trigger] collision_detection_data.last_box@[x] is Some implies collision_detection_data.last_box@[x].unwrap().0
            == world@[x].generation.generation by {
            if x != e0 {
                assert(world@[x] == w0[x]);
                assert(collision_detection_data.last_box@[x] == lb0[x]);
            }
        }
    }
    if let Some(b) = n1 {
        assert(w1[e1 as int] == w0[e1 as int]);
        let old_entity = GenerationalCollisionEntity { entity: e1, generation: g1 };
        assert(collision_detection_data.last_box@[e1 as int] == lb0[e1 as int]);
        collision_detection_data.remove(old_entity);
        assert(collision_detection_data.last_box@[e1 as int] is None);
        write_collidable(world, e1, b, t);
        assert(bodies_wf(world@)) by {
            assert forall|x: int| 0 <= x < world@.len() implies (#[trigger] world@[x]).collidable.wf() by {
                if x != e1 {
                    assert(world@[x] == w1[x]);
                }
            }
        }
        collision_detection_data.add(world, old_entity.next(), t, next_time);
    }
    proof {
        assert(world@[e0 as int] == w1[e0 as int]);
        assert forall|x: int|
            0 <= x < world@.len() && #[trigger] collision_detection_data.last_box@[x] is Some implies collision_detection_data.last_box@[x].unwrap().0
            == world@[x].generation.generation by {
            if x != e1 {
                assert(world@[x] == w1[x]);
                assert(collision_detection_data.last_box@[x] == lb1[x]);
            }
        }
        let fw = world@;
        let q2 = queued(collision_detection_data.collisions_events);
        assert(applied(w0, fw, event, t as int));
        assert forall|k: EventKey| #[trigger] q0.contains_key(k) implies q2.contains_key(k) && (
        q2[k] == q0[k] || renewed(w0, fw, k.0)) by {
            assert(q1.contains_key(k));
        }
        assert forall|k: EventKey| #[trigger] q2.contains_key(k) implies (q0.contains_key(k) && q2[k]
            == q0[k]) || new_event_ok(w0, fw, k, q2[k], t as int, next_time as int) by {
            if q1.contains_key(k) && q2[k] == q1[k] {
                if !(q0.contains_key(k) && q1[k] == q0[k]) {
                    // Queued when the first body was registered again.
                    assert(k.0 == (e0, (g0 + 1) as i64));
                    assert(w1[k.1.0 as int] == w0[k.1.0 as int]);
                    assert(fw[e0 as int] == w1[e0 as int]);
                }
            } else {
                // Queued when the second body was registered again.
                assert(k.0 == (e1, (g1 + 1) as i64));
                assert(fw[k.1.0 as int] == w1[k.1.0 as int]);
            }
        }
    }
    true
}

/// The world together with its index.
pub type WorldState = (Seq<Body>, IndexView);

/// From `a` to `b`: `event`, of greatest priority in `a`'s queue, is popped
/// and handled at the negated priority as its time.  An event whose priority
/// has no negation is only popped.
pub open spec fn popped_then(a: WorldState, b: WorldState, event: EventKey, next_time: int) -> bool {
    let q = a.1.2;
    let p = q[event];
    let rest: IndexView = (a.1.0, a.1.1, q.remove(event));
    &&& q.contains_key(event)
    &&& forall|other: EventKey| #[trigger] q.contains_key(other) ==> q[other] <= p
    &&& if p > i64::MIN {
        event_effect(a.0, rest, event, -p, b.0, b.1, next_time)
    } else {
        b == (a.0, rest)
    }
}

/// One event is popped and handled from `a`, giving `b`.
pub open spec fn handled_step(a: WorldState, b: WorldState, next_time: int) -> bool {
    exists|event: EventKey| #[trigger] a.1.2.contains_key(event) && popped_then(a, b, event, next_time)
}

/// Each state follows from the one before by handling one event, earliest
/// first.
pub open spec fn handled_in_order(states: Seq<WorldState>, next_time: int) -> bool {
    forall|i: int| 0 <= i < states.len() - 1 ==> handled_step(#[trigger] states[i], states[i + 1], next_time)
}

/// Once a contact has changed a body, every other event queued against that
/// body's earlier generation is stale, and handling it changes nothing.
pub proof fn lemma_generation_invalidation(
    before: Seq<Body>,
    after: Seq<Body>,
    first: EventKey,
    t: int,
    later: EventKey,
)
    requires
        can_apply(before, first, t),
        applied(before, after, first, t),
        resolution(
            before[first.0.0 as int].collidable,
            before[first.1.0 as int].collidable,
            t,
        ).0 is Some,
        later.0 == first.0 || later.1 == first.0,
    ensures
        stale(after, later),
{
}

/// In a handling step, an event whose snapshot of either body is stale is
/// only popped: the world and the rest of the index stay as they were.
pub proof fn lemma_stale_step_is_no_op(a: WorldState, b: WorldState, event: EventKey, next_time: int)
    requires
        popped_then(a, b, event, next_time),
        stale(a.0, event),
    ensures
        b == (a.0, (a.1.0, a.1.1, a.1.2.remove(event))),
{
}

/// Handling: pops events earliest first and handles each, until the queue is
/// empty or `max_events` events have been popped.  Returns whether the queue
/// is empty at the end.  The states passed through are recorded step by step
/// by `handled_in_order`: each pops an event of greatest priority and has the
/// effect `process_event` states.  Walls never change, and generations only
/// grow.
pub fn collision_handle(
    world: &mut Vec<Body>,
    simulation_data: &SimulationData,
    collision_detection_data: &mut CollisionDetectionData,
    max_events: usize,
) -> (r: bool)
    requires
        old(collision_detection_data).wf(),
        registrations_current(*old(collision_detection_data), old(world)@),
        bodies_wf(old(world)@),
    ensures
        final(collision_detection_data).wf(),
        registrations_current(*final(collision_detection_data), final(world)@),
        final(world)@.len() == old(world)@.len(),
        bodies_wf(final(world)@),
        r == (queued(final(collision_detection_data).collisions_events) =~= Map::empty()),
        exists|states: Seq<WorldState>|
            #![trigger handled_in_order(states, simulation_data.next_time as int)]
            {
                &&& states.len() >= 1
                &&& states[0] == (old(world)@, index_view(*old(collision_detection_data)))
                &&& states.last() == (final(world)@, index_view(*final(collision_detection_data)))
                &&& handled_in_order(states, simulation_data.next_time as int)
                &&& states.len() <= max_events + 1
                &&& (!r ==> states.len() == max_events + 1)
            },
        forall|x: int|
            0 <= x < old(world)@.len() ==> (#[trigger] final(world)@[x]).generation.generation
                >= old(world)@[x].generation.generation,
        forall|x: int|
            0 <= x < old(world)@.len() && old(world)@[x].collidable is Wall ==> (#[trigger] final(world)@[x])
                == old(world)@[x],
{
    let next_time = simulation_data.next_time;
    let ghost start: WorldState = (world@, index_view(*collision_detection_data));
    let ghost mut states: Seq<WorldState> = seq![start];
    let mut handled: usize = 0;
    while handled < max_events
        invariant
            collision_detection_data.wf(),
            registrations_current(*collision_detection_data, world@),
            world@.len() == old(world)@.len(),
            bodies_wf(world@),
            next_time == simulation_data.next_time,
            handled <= max_events,
            states.len() == handled + 1,
            states[0] == (old(world)@, index_view(*old(collision_detection_data))),
            states.last() == (world@, index_view(*collision_detection_data)),
            handled_in_order(states, next_time as int),
            forall|x: int|
                0 <= x < old(world)@.len() ==> (#[trigger] world@[x]).generation.generation
                    >= old(world)@[x].generation.generation,
            forall|x: int|
                0 <= x < old(world)@.len() && old(world)@[x].collidable is Wall ==> (#[trigger] world@[x])
                    == old(world)@[x],
        decreases max_events - handled,
    {
        let ghost w_before = world@;
        let ghost a: WorldState = (world@, index_view(*collision_detection_data));
        match queue_pop(&mut collision_detection_data.collisions_events) {
            None => {
                assert(queued(collision_detection_data.collisions_events) =~= Map::empty());
                return true;
            },
            Some((event, priority)) => {
                assert(index_view(*collision_detection_data) == (a.1.0, a.1.1, a.1.2.remove(event)));
                if priority > i64::MIN {
                    process_event(world, collision_detection_data, event, -priority, next_time);
                    proof {
                        assert forall|x: int| 0 <= x < old(world)@.len() implies (#[trigger] world@[x]).generation.generation
                            >= old(world)@[x].generation.generation && (old(world)@[x].collidable is Wall ==> world@[x]
                            == old(world)@[x]) by {
                            assert(w_before[x].generation.generation >= old(world)@[x].generation.generation);
                        }
                    }
                }
                proof {
                    let b: WorldState = (world@, index_view(*collision_detection_data));
                    assert(popped_then(a, b, event, next_time as int));
                    assert(handled_step(a, b, next_time as int));
                    let old_states = states;
                    states = states.push(b);
                    assert forall|i: int| 0 <= i < states.len() - 1 implies handled_step(
                        #[trigger] states[i],
                        states[i + 1],
                        next_time as int,
                    ) by {
                        if i < old_states.len() - 1 {
                            assert(states[i] == old_states[i] && states[i + 1] == old_states[i + 1]);
                        } else {
                            assert(states[i] == a);
                        }
                    }
                }
            },
        }
        handled = handled + 1;
    }
    queue_is_empty(&collision_detection_data.collisions_events)
}

} // verus!
