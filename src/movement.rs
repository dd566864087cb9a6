//! Movement of actors through the terrain.
use vstd::prelude::*;
use crate::arena::Cell;
use crate::geometry::{actor_box, in_interior, Point, Rect, ACTOR_SIZE, MAX_X, MAX_Y, MIN_X, MIN_Y, STEP_X, STEP_Y};
use crate::world::{actor_ok, hits_terrain, moved_to, terrain_hit, Actor, World};

verus! {

/// A direction of movement.
#[derive(Clone, Copy, Debug, PartialEq, Eq)]
pub enum Direction {
    Up,
    Down,
    Left,
    Right,
}

/// One step from `p` towards `d`, clamped to the arena's interior.
pub open spec fn step_target(p: Point, d: Direction) -> Point {
    match d {
        Direction::Up => Point { y: if p.y + STEP_Y > MAX_Y { MAX_Y } else { (p.y + STEP_Y) as i64 }, ..p },
        Direction::Down => Point { y: if p.y - STEP_Y < MIN_Y { MIN_Y } else { (p.y - STEP_Y) as i64 }, ..p },
        Direction::Right => Point { x: if p.x + STEP_X > MAX_X { MAX_X } else { (p.x + STEP_X) as i64 }, ..p },
        Direction::Left => Point { x: if p.x - STEP_X < MIN_X { MIN_X } else { (p.x - STEP_X) as i64 }, ..p },
    }
}

/// Where an actor at `p` ends up after one step towards `d`. A step
/// changes one axis only, so any terrain the candidate box touches is met
/// on that axis, and that axis (the only one that moved) is not committed.
pub open spec fn resolved(cells: Seq<Cell>, p: Point, d: Direction) -> Point {
    let c = step_target(p, d);
    if hits_terrain(cells, actor_box(c)) {
        p
    } else {
        c
    }
}

/// Resolves one step of an actor at `p` towards `d` against the terrain.
pub fn resolve_move(cells: &Vec<Cell>, p: Point, d: Direction) -> (r: Point)
    requires
        forall|i: int| 0 <= i < cells@.len() ==> (#[trigger] cells@[i]).wf(),
        in_interior(p),
    ensures
        r == resolved(cells@, p, d),
        in_interior(r),
{
    let c = match d {
        Direction::Up => Point { y: if p.y + STEP_Y > MAX_Y { MAX_Y } else { p.y + STEP_Y }, ..p },
        Direction::Down => Point { y: if p.y - STEP_Y < MIN_Y { MIN_Y } else { p.y - STEP_Y }, ..p },
        Direction::Right => Point { x: if p.x + STEP_X > MAX_X { MAX_X } else { p.x + STEP_X }, ..p },
        Direction::Left => Point { x: if p.x - STEP_X < MIN_X { MIN_X } else { p.x - STEP_X }, ..p },
    };
    let b = Rect { x: c.x, y: c.y, w: ACTOR_SIZE, h: ACTOR_SIZE };
    if terrain_hit(cells, &b) {
        p
    } else {
        c
    }
}

/// A step never takes an actor out of the arena's interior, and never onto
/// terrain when it started clear of it.
pub proof fn lemma_move_stays_clear(cells: Seq<Cell>, p: Point, d: Direction)
    requires
        in_interior(p),
        !hits_terrain(cells, actor_box(p)),
    ensures
        in_interior(resolved(cells, p, d)),
        !hits_terrain(cells, actor_box(resolved(cells, p, d))),
{
}

impl World {
    /// Moves the actor `id` one step towards `d`; a step for an absent
    /// actor is ignored.
    pub fn move_actor(&mut self, id: u64, d: Direction)
        requires
            old(self).wf(),
        ensures
            final(self).wf(),
            final(self).cells@ == old(self).cells@,
            final(self).devices@ == old(self).devices@,
            final(self).blasts@ == old(self).blasts@,
            final(self).score == old(self).score,
            final(self).game_over == old(self).game_over,
            final(self).next_id == old(self).next_id,
            final(self).actors@.len() == old(self).actors@.len(),
            forall|k: int|
                0 <= k < old(self).actors@.len() ==> (#[trigger] final(self).actors@[k]) == if old(
                    self,
                ).actors@[k].id == id {
                    moved_to(old(self).actors@[k], resolved(old(self).cells@, old(self).actors@[k].pos, d))
                } else {
                    old(self).actors@[k]
                },
    {
        let idx = match self.find_actor(id) {
            Some(i) => i,
            None => return,
        };
        let a = self.actors[idx];
        proof {
            assert(actor_ok(self.actors@[idx as int], self.cells@));
        }
        let np = resolve_move(&self.cells, a.pos, d);
        let ghost old_actors = self.actors@;
        self.actors.set(idx, Actor { pos: np, ..a });
        proof {
            lemma_move_stays_clear(self.cells@, a.pos, d);
            assert forall|k: int| 0 <= k < old_actors.len() implies (#[trigger] self.actors@[k]) == if old_actors[k].id == id {
                moved_to(old_actors[k], resolved(self.cells@, old_actors[k].pos, d))
            } else {
                old_actors[k]
            } by {
                if k != idx {
                    assert(old_actors[k].id != old_actors[idx as int].id);
                }
            }
        }
    }
}

} // verus!
