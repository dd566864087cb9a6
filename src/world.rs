//! The entity store: actors, terrain, devices and blast regions, with the
//! score and the game-over latch.
use vstd::prelude::*;
use crate::arena::{arena_layout, build_arena, column_x, kind_of, lemma_arena_follows_rule, row_y, Cell, CellKind};
use crate::geometry::{actor_box, in_interior, overlaps, rects_overlap, Point, Rect, ACTOR_SIZE, COLS, MAX_X, MAX_Y, MIN_X, MIN_Y, ROWS};

verus! {

/// Ticks a device waits before it detonates.
pub const FUSE_TICKS: u64 = 60;
/// Ticks a blast region stays before it expires.
pub const BLAST_TICKS: u64 = 60;

/// A moving participant; at most one is the controlled one.
#[derive(Clone, Copy, Debug, PartialEq, Eq)]
pub struct Actor {
    pub id: u64,
    pub pos: Point,
    pub controlled: bool,
    pub max_devices: u8,
    pub active_devices: u8,
    pub power: u8,
}

/// A placed, timed explosive.
#[derive(Clone, Copy, Debug, PartialEq, Eq)]
pub struct Device {
    pub id: u64,
    pub owner: u64,
    pub pos: Point,
    pub elapsed: u64,
    pub power: u8,
}

/// A transient blast region: one bar of a detonation.
#[derive(Clone, Copy, Debug, PartialEq, Eq)]
pub struct Blast {
    pub pos: Point,
    pub horizontal: bool,
    pub power: u8,
    pub elapsed: u64,
}

/// The whole simulation state.
pub struct World {
    pub actors: Vec<Actor>,
    pub cells: Vec<Cell>,
    pub devices: Vec<Device>,
    pub blasts: Vec<Blast>,
    pub score: u64,
    pub game_over: bool,
    pub next_id: u64,
}

/// The whole store as a mathematical value.
pub struct Sim {
    pub actors: Seq<Actor>,
    pub cells: Seq<Cell>,
    pub devices: Seq<Device>,
    pub blasts: Seq<Blast>,
    pub score: u64,
    pub game_over: bool,
    pub next_id: u64,
}

/// Some terrain cell overlaps box `b`.
pub open spec fn hits_terrain(cells: Seq<Cell>, b: Rect) -> bool {
    exists|i: int| 0 <= i < cells.len() && overlaps((#[trigger] cells[i]).spec_rect(), b)
}

/// Number of devices in `devs` owned by actor `id`.
pub open spec fn owned_count(devs: Seq<Device>, id: u64) -> nat
    decreases devs.len(),
{
    if devs.len() == 0 {
        0
    } else {
        owned_count(devs.drop_last(), id) + if devs.last().owner == id {
            1nat
        } else {
            0nat
        }
    }
}

/// An actor stands inside the arena, clear of all terrain, within its
/// device allowance.
pub open spec fn actor_ok(a: Actor, cells: Seq<Cell>) -> bool {
    &&& in_interior(a.pos)
    &&& !hits_terrain(cells, actor_box(a.pos))
    &&& a.active_devices <= a.max_devices
}

/// A device stands inside the arena with its fuse not past its length.
pub open spec fn device_ok(d: Device) -> bool {
    in_interior(d.pos) && d.elapsed <= FUSE_TICKS
}

/// A blast region is centred inside the arena with its lifetime not past
/// its length.
pub open spec fn blast_ok(b: Blast) -> bool {
    in_interior(b.pos) && b.elapsed <= BLAST_TICKS
}

/// An actor with identity `id` is in `actors`.
pub open spec fn has_actor(actors: Seq<Actor>, id: u64) -> bool {
    exists|i: int| 0 <= i < actors.len() && (#[trigger] actors[i]).id == id
}

/// A device with identity `id` is in `devs`.
pub open spec fn has_device(devs: Seq<Device>, id: u64) -> bool {
    exists|i: int| 0 <= i < devs.len() && (#[trigger] devs[i]).id == id
}

/// Adding a device adds one to its owner's count only.
pub proof fn lemma_owned_count_push(s: Seq<Device>, d: Device, id: u64)
    ensures
        owned_count(s.push(d), id) == owned_count(s, id) + if d.owner == id {
            1nat
        } else {
            0nat
        },
{
    assert(s.push(d).drop_last() == s);
}

/// Removing a device takes one from its owner's count only.
pub proof fn lemma_owned_count_remove(s: Seq<Device>, i: int, id: u64)
    requires
        0 <= i < s.len(),
    ensures
        owned_count(s.remove(i), id) + (if s[i].owner == id {
            1nat
        } else {
            0nat
        }) == owned_count(s, id),
    decreases s.len(),
{
    if i == s.len() - 1 {
        assert(s.remove(i) == s.drop_last());
    } else {
        lemma_owned_count_remove(s.drop_last(), i, id);
        assert(s.remove(i).drop_last() == s.drop_last().remove(i));
        assert(s.remove(i).last() == s.last());
    }
}

/// An actor that owns none of `s` has a count of zero.
pub proof fn lemma_owned_count_none(s: Seq<Device>, id: u64)
    requires
        forall|i: int| 0 <= i < s.len() ==> (#[trigger] s[i]).owner != id,
    ensures
        owned_count(s, id) == 0,
    decreases s.len(),
{
    if s.len() > 0 {
        lemma_owned_count_none(s.drop_last(), id);
    }
}

/// The actor with identity `id` (meaningful when there is one).
pub open spec fn actor_with(actors: Seq<Actor>, id: u64) -> Actor {
    actors[choose|i: int| 0 <= i < actors.len() && (#[trigger] actors[i]).id == id]
}

/// Nearest multiple of a cell to `v`, halves rounded away from zero.
pub open spec fn snap(v: int) -> int {
    if v >= 0 {
        (v + 25) / 50 * 50
    } else {
        -((-v + 25) / 50 * 50)
    }
}

/// Grid-snapped position of a device placed from `p`.
pub open spec fn snap_point(p: Point) -> Point {
    Point { x: snap(p.x as int) as i64, y: snap(p.y as int) as i64 }
}

/// Snaps a coordinate to the nearest multiple of a cell.
pub fn snap_coord(v: i64) -> (r: i64)
    requires
        -1000 <= v <= 1000,
    ensures
        r == snap(v as int),
{
    if v >= 0 {
        (v + 25) / 50 * 50
    } else {
        -((-v + 25) / 50 * 50)
    }
}

/// Snapping keeps a position inside the arena.
pub proof fn lemma_snap_interior(p: Point)
    requires
        in_interior(p),
    ensures
        in_interior(snap_point(p)),
{
    let x = p.x as int;
    let y = p.y as int;
    assert(-300 <= snap(x) <= 300);
    assert(-250 <= snap(y) <= 250);
}

/// A device may be placed by actor `id`: it exists, it is below its
/// allowance, and identities are not exhausted.
pub open spec fn can_place(w: &World, id: u64) -> bool {
    &&& has_actor(w.actors@, id)
    &&& actor_with(w.actors@, id).active_devices < actor_with(w.actors@, id).max_devices
    &&& w.next_id < u64::MAX
}

/// Actor `a` with one more device out.
pub open spec fn with_one_more(a: Actor) -> Actor {
    Actor { active_devices: (a.active_devices + 1) as u8, ..a }
}

/// Actor `a` at position `p`.
pub open spec fn moved_to(a: Actor, p: Point) -> Actor {
    Actor { pos: p, ..a }
}

/// No actor's box overlaps cell `c`.
pub open spec fn clear_of_actors(actors: Seq<Actor>, c: Cell) -> bool {
    forall|i: int| 0 <= i < actors.len() ==> !overlaps(c.spec_rect(), actor_box((#[trigger] actors[i]).pos))
}

/// The starting actors: the controlled one top left, the others in the
/// three remaining corners.
pub open spec fn starting_actors() -> Seq<Actor> {
    seq![
        Actor { id: 0, pos: Point { x: MIN_X, y: MAX_Y }, controlled: true, max_devices: 1, active_devices: 0, power: 1 },
        Actor { id: 1, pos: Point { x: MAX_X, y: MAX_Y }, controlled: false, max_devices: 1, active_devices: 0, power: 1 },
        Actor { id: 2, pos: Point { x: MAX_X, y: MIN_Y }, controlled: false, max_devices: 1, active_devices: 0, power: 1 },
        Actor { id: 3, pos: Point { x: MIN_X, y: MIN_Y }, controlled: false, max_devices: 1, active_devices: 0, power: 1 },
    ]
}

proof fn lemma_corner_clear(row: int, col: int)
    requires
        0 <= row < ROWS,
        0 <= col < COLS,
        kind_of(row, col) == CellKind::Empty,
    ensures
        !hits_terrain(arena_layout(), actor_box(Point { x: column_x(col) as i64, y: row_y(row) as i64 })),
{
    lemma_arena_follows_rule();
    let b = actor_box(Point { x: column_x(col) as i64, y: row_y(row) as i64 });
    let cells = arena_layout();
    assert forall|i: int| 0 <= i < cells.len() implies !overlaps((#[trigger] cells[i]).spec_rect(), b) by {
        let c = cells[i];
        if overlaps(c.spec_rect(), b) {
            assert(c.col == col);
            assert(c.row == row);
        }
    }
}

/// Counts depend on the owners alone.
pub proof fn lemma_owned_count_same_owners(s: Seq<Device>, t: Seq<Device>, id: u64)
    requires
        s.len() == t.len(),
        forall|i: int| 0 <= i < s.len() ==> (#[trigger] s[i]).owner == t[i].owner,
    ensures
        owned_count(s, id) == owned_count(t, id),
    decreases s.len(),
{
    if s.len() > 0 {
        lemma_owned_count_same_owners(s.drop_last(), t.drop_last(), id);
    }
}

/// An actor at its allowance cannot place a device.
pub proof fn lemma_placement_at_allowance_refused(w: &World, id: u64)
    requires
        w.wf(),
        has_actor(w.actors@, id),
        actor_with(w.actors@, id).active_devices == actor_with(w.actors@, id).max_devices,
    ensures
        !can_place(w, id),
{
}

/// Between two well-formed stores, an actor present in both has freed one
/// slot per device of its own that left the store, whether those devices
/// detonated one at a time or in a cascade.
pub proof fn lemma_freed_slots_match_consumed(before: &World, after: &World, id: u64)
    requires
        before.wf(),
        after.wf(),
        has_actor(before.actors@, id),
        has_actor(after.actors@, id),
    ensures
        actor_with(after.actors@, id).active_devices + owned_count(before.devices@, id) - owned_count(after.devices@, id)
            == actor_with(before.actors@, id).active_devices,
{
    let i = choose|i: int| 0 <= i < before.actors@.len() && (#[trigger] before.actors@[i]).id == id;
    let j = choose|j: int| 0 <= j < after.actors@.len() && (#[trigger] after.actors@[j]).id == id;
}

impl World {
    /// The store as a mathematical value.
    pub open spec fn sim(&self) -> Sim {
        Sim {
            actors: self.actors@,
            cells: self.cells@,
            devices: self.devices@,
            blasts: self.blasts@,
            score: self.score,
            game_over: self.game_over,
            next_id: self.next_id,
        }
    }

    /// The store's invariant.
    pub open spec fn wf(&self) -> bool {
        let actors = self.actors@;
        let cells = self.cells@;
        let devs = self.devices@;
        &&& forall|i: int| 0 <= i < cells.len() ==> (#[trigger] cells[i]).wf()
        &&& forall|i: int|
            0 <= i < actors.len() ==> {
                &&& actor_ok(#[trigger] actors[i], cells)
                &&& actors[i].id < self.next_id
                &&& actors[i].active_devices == owned_count(devs, actors[i].id)
            }
        &&& forall|i: int, j: int|
            0 <= i < actors.len() && 0 <= j < actors.len() && i != j ==> (#[trigger] actors[i]).id
                != (#[trigger] actors[j]).id && !(actors[i].controlled && actors[j].controlled)
        &&& forall|i: int|
            0 <= i < devs.len() ==> device_ok(#[trigger] devs[i]) && devs[i].id < self.next_id
                && devs[i].owner < self.next_id
        &&& forall|i: int, j: int|
            0 <= i < devs.len() && 0 <= j < devs.len() && i != j ==> (#[trigger] devs[i]).id
                != (#[trigger] devs[j]).id
        &&& forall|i: int| 0 <= i < self.blasts@.len() ==> blast_ok(#[trigger] self.blasts@[i])
    }

    /// An arena with no terrain and nobody in it.
    pub fn empty() -> (w: World)
        ensures
            w.wf(),
            w.actors@.len() == 0,
            w.cells@.len() == 0,
            w.devices@.len() == 0,
            w.blasts@.len() == 0,
            w.score == 0,
            !w.game_over,
            w.next_id == 0,
    {
        World {
            actors: Vec::new(),
            cells: Vec::new(),
            devices: Vec::new(),
            blasts: Vec::new(),
            score: 0,
            game_over: false,
            next_id: 0,
        }
    }

    /// The standard arena: the fixed terrain layout and four actors with
    /// default attributes, one in each corner, the top-left one controlled.
    pub fn new() -> (w: World)
        ensures
            w.wf(),
            w.cells@ == arena_layout(),
            w.actors@ == starting_actors(),
            w.devices@.len() == 0,
            w.blasts@.len() == 0,
            w.score == 0,
            !w.game_over,
    {
        let cells = build_arena();
        let mut actors: Vec<Actor> = Vec::new();
        actors.push(Actor { id: 0, pos: Point { x: MIN_X, y: MAX_Y }, controlled: true, max_devices: 1, active_devices: 0, power: 1 });
        actors.push(Actor { id: 1, pos: Point { x: MAX_X, y: MAX_Y }, controlled: false, max_devices: 1, active_devices: 0, power: 1 });
        actors.push(Actor { id: 2, pos: Point { x: MAX_X, y: MIN_Y }, controlled: false, max_devices: 1, active_devices: 0, power: 1 });
        actors.push(Actor { id: 3, pos: Point { x: MIN_X, y: MIN_Y }, controlled: false, max_devices: 1, active_devices: 0, power: 1 });
        let w = World {
            actors,
            cells,
            devices: Vec::new(),
            blasts: Vec::new(),
            score: 0,
            game_over: false,
            next_id: 4,
        };
        proof {
            assert(w.actors@ == starting_actors());
            lemma_arena_follows_rule();
            lemma_corner_clear(10, 0);
            lemma_corner_clear(10, 12);
            lemma_corner_clear(0, 12);
            lemma_corner_clear(0, 0);
            assert(owned_count(w.devices@, 0) == 0);
        }
        w
    }

    /// Adds an actor with default attributes at `pos`. It is accepted, and
    /// given the next identity, when `pos` is inside the arena and clear of
    /// terrain, when no other actor is controlled if it is to be, and while
    /// identities last.
    pub fn add_actor(&mut self, pos: Point, controlled: bool) -> (r: Option<u64>)
        requires
            old(self).wf(),
        ensures
            final(self).wf(),
            final(self).cells@ == old(self).cells@,
            final(self).devices@ == old(self).devices@,
            final(self).blasts@ == old(self).blasts@,
            final(self).score == old(self).score,
            final(self).game_over == old(self).game_over,
            ({
                let ok = in_interior(pos) && !hits_terrain(old(self).cells@, actor_box(pos))
                    && !(controlled && old(self).has_controlled()) && old(self).next_id < u64::MAX;
                if ok {
                    &&& r == Some(old(self).next_id)
                    &&& final(self).actors@ == old(self).actors@.push(
                        Actor { id: old(self).next_id, pos, controlled, max_devices: 1, active_devices: 0, power: 1 },
                    )
                    &&& final(self).next_id == old(self).next_id + 1
                } else {
                    &&& r.is_none()
                    &&& final(self).actors@ == old(self).actors@
                    &&& final(self).next_id == old(self).next_id
                }
            }),
    {
        if !(MIN_X <= pos.x && pos.x <= MAX_X && MIN_Y <= pos.y && pos.y <= MAX_Y) {
            return None;
        }
        let b = Rect { x: pos.x, y: pos.y, w: ACTOR_SIZE, h: ACTOR_SIZE };
        if terrain_hit(&self.cells, &b) {
            return None;
        }
        if controlled {
            if let Some(_) = self.find_controlled() {
                return None;
            }
        }
        if self.next_id == u64::MAX {
            return None;
        }
        let id = self.next_id;
        proof {
            lemma_owned_count_none(self.devices@, id);
        }
        self.actors.push(Actor { id, pos, controlled, max_devices: 1, active_devices: 0, power: 1 });
        self.next_id = id + 1;
        Some(id)
    }

    /// Adds a terrain cell at grid position (`row`, `col`). It is accepted
    /// when the position is on the grid and no actor overlaps the cell.
    pub fn add_cell(&mut self, row: usize, col: usize, breakable: bool) -> (added: bool)
        requires
            old(self).wf(),
        ensures
            final(self).wf(),
            final(self).actors@ == old(self).actors@,
            final(self).devices@ == old(self).devices@,
            final(self).blasts@ == old(self).blasts@,
            final(self).score == old(self).score,
            final(self).game_over == old(self).game_over,
            final(self).next_id == old(self).next_id,
            ({
                let c = Cell { row, col, breakable };
                let ok = row < ROWS && col < COLS && clear_of_actors(old(self).actors@, c);
                &&& added == ok
                &&& final(self).cells@ == if ok {
                    old(self).cells@.push(c)
                } else {
                    old(self).cells@
                }
            }),
    {
        if row >= ROWS || col >= COLS {
            return false;
        }
        let c = Cell { row, col, breakable };
        let r = c.rect();
        let mut i: usize = 0;
        while i < self.actors.len()
            invariant
                self.wf(),
                self.actors@ == old(self).actors@,
                self.cells@ == old(self).cells@,
                self.devices@ == old(self).devices@,
                self.blasts@ == old(self).blasts@,
                self.score == old(self).score,
                self.game_over == old(self).game_over,
                self.next_id == old(self).next_id,
                c.wf(),
                r == c.spec_rect(),
                r.wf(),
                i <= self.actors@.len(),
                forall|k: int|
                    0 <= k < i ==> !overlaps(c.spec_rect(), actor_box((#[trigger] self.actors@[k]).pos)),
            ensures
                i <= self.actors@.len(),
                forall|k: int|
                    0 <= k < i ==> !overlaps(c.spec_rect(), actor_box((#[trigger] self.actors@[k]).pos)),
                i < self.actors@.len() ==> overlaps(c.spec_rect(), actor_box(self.actors@[i as int].pos)),
            decreases self.actors@.len() - i,
        {
            let p = self.actors[i].pos;
            let b = Rect { x: p.x, y: p.y, w: ACTOR_SIZE, h: ACTOR_SIZE };
            if rects_overlap(&r, &b) {
                break;
            }
            i = i + 1;
        }
        if i < self.actors.len() {
            assert(overlaps(c.spec_rect(), actor_box(self.actors@[i as int].pos)));
            return false;
        }
        let ghost old_cells = self.cells@;
        self.cells.push(c);
        proof {
            assert forall|k: int| 0 <= k < self.actors@.len() implies actor_ok(
                #[trigger] self.actors@[k],
                self.cells@,
            ) by {
                let a = self.actors@[k];
                assert(actor_ok(a, old_cells));
                if hits_terrain(self.cells@, actor_box(a.pos)) {
                    let j = choose|j: int|
                        0 <= j < self.cells@.len() && overlaps(
                            (#[trigger] self.cells@[j]).spec_rect(),
                            actor_box(a.pos),
                        );
                    if j < old_cells.len() {
                        assert(self.cells@[j] == old_cells[j]);
                    }
                }
            }
            assert forall|k: int| 0 <= k < self.cells@.len() implies (#[trigger] self.cells@[k]).wf() by {
                if k < old_cells.len() {
                    assert(self.cells@[k] == old_cells[k]);
                }
            }
        }
        true
    }

    /// Places a device for actor `actor_id` at its grid-snapped position,
    /// with the actor's blast power and a fresh fuse. Rejected (nothing
    /// changes) when the actor is absent or already at its allowance, or
    /// when identities are exhausted.
    pub fn place_device(&mut self, actor_id: u64) -> (placed: bool)
        requires
            old(self).wf(),
        ensures
            final(self).wf(),
            placed == can_place(old(self), actor_id),
            final(self).cells@ == old(self).cells@,
            final(self).blasts@ == old(self).blasts@,
            final(self).score == old(self).score,
            final(self).game_over == old(self).game_over,
            placed ==> {
                let a = actor_with(old(self).actors@, actor_id);
                &&& final(self).devices@ == old(self).devices@.push(
                    Device { id: old(self).next_id, owner: actor_id, pos: snap_point(a.pos), elapsed: 0, power: a.power },
                )
                &&& final(self).actors@.len() == old(self).actors@.len()
                &&& forall|k: int|
                    0 <= k < old(self).actors@.len() ==> (#[trigger] final(self).actors@[k]) == if old(
                        self,
                    ).actors@[k].id == actor_id {
                        with_one_more(old(self).actors@[k])
                    } else {
                        old(self).actors@[k]
                    }
                &&& final(self).next_id == old(self).next_id + 1
            },
            !placed ==> {
                &&& final(self).devices@ == old(self).devices@
                &&& final(self).actors@ == old(self).actors@
                &&& final(self).next_id == old(self).next_id
            },
    {
        let idx = match self.find_actor(actor_id) {
            Some(i) => i,
            None => return false,
        };
        proof {
            let j = choose|j: int| 0 <= j < self.actors@.len() && (#[trigger] self.actors@[j]).id == actor_id;
            assert(self.actors@[j].id == self.actors@[idx as int].id);
        }
        let a = self.actors[idx];
        if a.active_devices >= a.max_devices || self.next_id == u64::MAX {
            return false;
        }
        let id = self.next_id;
        let pos = Point { x: snap_coord(a.pos.x), y: snap_coord(a.pos.y) };
        proof {
            lemma_snap_interior(a.pos);
            lemma_owned_count_push(self.devices@, Device { id, owner: actor_id, pos, elapsed: 0, power: a.power }, actor_id);
        }
        let ghost old_actors = self.actors@;
        let ghost old_devs = self.devices@;
        self.devices.push(Device { id, owner: actor_id, pos, elapsed: 0, power: a.power });
        self.actors.set(idx, Actor { active_devices: a.active_devices + 1, ..a });
        self.next_id = id + 1;
        proof {
            let d = Device { id, owner: actor_id, pos, elapsed: 0, power: a.power };
            assert forall|k: int| 0 <= k < self.actors@.len() implies {
                &&& actor_ok(#[trigger] self.actors@[k], self.cells@)
                &&& self.actors@[k].id < self.next_id
                &&& self.actors@[k].active_devices == owned_count(self.devices@, self.actors@[k].id)
            } by {
                lemma_owned_count_push(old_devs, d, old_actors[k].id);
                if k != idx {
                    assert(old_actors[k].id != actor_id);
                }
            }
            assert forall|k: int| 0 <= k < self.devices@.len() implies device_ok(#[trigger] self.devices@[k])
                && self.devices@[k].id < self.next_id && self.devices@[k].owner < self.next_id by {
                if k < old_devs.len() {
                    assert(self.devices@[k] == old_devs[k]);
                }
            }
            assert forall|k: int| 0 <= k < old_actors.len() implies (#[trigger] self.actors@[k]) == if old_actors[k].id == actor_id {
                with_one_more(old_actors[k])
            } else {
                old_actors[k]
            } by {
                if k != idx {
                    assert(old_actors[k].id != actor_id);
                }
            }
        }
        true
    }

    /// Index of the actor with identity `id`.
    pub fn find_actor(&self, id: u64) -> (r: Option<usize>)
        ensures
            match r {
                Some(i) => i < self.actors@.len() && self.actors@[i as int].id == id,
                None => !has_actor(self.actors@, id),
            },
    {
        let mut i: usize = 0;
        while i < self.actors.len()
            invariant
                i <= self.actors@.len(),
                forall|k: int| 0 <= k < i ==> (#[trigger] self.actors@[k]).id != id,
            decreases self.actors@.len() - i,
        {
            if self.actors[i].id == id {
                return Some(i);
            }
            i = i + 1;
        }
        None
    }

    /// Index of the device with identity `id`.
    pub fn find_device(&self, id: u64) -> (r: Option<usize>)
        ensures
            match r {
                Some(i) => i < self.devices@.len() && self.devices@[i as int].id == id,
                None => !has_device(self.devices@, id),
            },
    {
        let mut i: usize = 0;
        while i < self.devices.len()
            invariant
                i <= self.devices@.len(),
                forall|k: int| 0 <= k < i ==> (#[trigger] self.devices@[k]).id != id,
            decreases self.devices@.len() - i,
        {
            if self.devices[i].id == id {
                return Some(i);
            }
            i = i + 1;
        }
        None
    }

    /// Some actor holds the controlled tag.
    pub open spec fn has_controlled(&self) -> bool {
        exists|i: int| 0 <= i < self.actors@.len() && (#[trigger] self.actors@[i]).controlled
    }

    /// Index of the controlled actor, if there is one.
    pub fn find_controlled(&self) -> (r: Option<usize>)
        ensures
            match r {
                Some(i) => i < self.actors@.len() && self.actors@[i as int].controlled,
                None => !self.has_controlled(),
            },
    {
        let mut i: usize = 0;
        while i < self.actors.len()
            invariant
                i <= self.actors@.len(),
                forall|k: int| 0 <= k < i ==> !(#[trigger] self.actors@[k]).controlled,
            decreases self.actors@.len() - i,
        {
            if self.actors[i].controlled {
                return Some(i);
            }
            i = i + 1;
        }
        None
    }
}

/// Whether some cell of `cells` overlaps box `b`.
pub fn terrain_hit(cells: &Vec<Cell>, b: &Rect) -> (r: bool)
    requires
        forall|i: int| 0 <= i < cells@.len() ==> (#[trigger] cells@[i]).wf(),
        b.wf(),
    ensures
        r == hits_terrain(cells@, *b),
{
    let mut i: usize = 0;
    while i < cells.len()
        invariant
            i <= cells@.len(),
            b.wf(),
            forall|k: int| 0 <= k < cells@.len() ==> (#[trigger] cells@[k]).wf(),
            forall|k: int| 0 <= k < i ==> !overlaps((#[trigger] cells@[k]).spec_rect(), *b),
        decreases cells@.len() - i,
    {
        let r = cells[i].rect();
        if rects_overlap(&r, b) {
            return true;
        }
        i = i + 1;
    }
    false
}

} // verus!
