//! Timed detonation: blast bars, terrain and actor resolution, chain
//! reactions resolved to a fixed point, and expiry of blast regions.
use vstd::prelude::*;
use crate::arena::Cell;
use crate::timers::is_due_id;
use crate::geometry::{actor_box, device_box, overlaps, rects_overlap, Point, Rect, ACTOR_SIZE, CELL_H, CELL_W, DEVICE_SIZE};
use crate::world::{actor_ok, actor_with, blast_ok, device_ok, has_device, FUSE_TICKS, hits_terrain, lemma_owned_count_remove, owned_count, Actor, Blast, Device, Sim, World};

verus! {

/// The horizontal blast bar of a device of power `power` at `p`.
pub open spec fn h_bar(p: Point, power: u8) -> Rect {
    Rect { x: p.x, y: p.y, w: (CELL_W * (2 * power + 1)) as i64, h: CELL_H }
}

/// The vertical blast bar of a device of power `power` at `p`.
pub open spec fn v_bar(p: Point, power: u8) -> Rect {
    Rect { x: p.x, y: p.y, w: CELL_W, h: (CELL_H * (2 * power + 1)) as i64 }
}

/// Box `b` is caught by the blast of device `d`.
pub open spec fn in_blast(d: Device, b: Rect) -> bool {
    overlaps(h_bar(d.pos, d.power), b) || overlaps(v_bar(d.pos, d.power), b)
}

impl Blast {
    /// The box the blast region covers: its bar along its axis.
    pub fn rect(&self) -> (r: Rect)
        requires
            blast_ok(*self),
        ensures
            r == if self.horizontal {
                h_bar(self.pos, self.power)
            } else {
                v_bar(self.pos, self.power)
            },
            r.wf(),
    {
        let reach = 2 * (self.power as i64) + 1;
        if self.horizontal {
            Rect { x: self.pos.x, y: self.pos.y, w: CELL_W * reach, h: CELL_H }
        } else {
            Rect { x: self.pos.x, y: self.pos.y, w: CELL_W, h: CELL_H * reach }
        }
    }
}

/// Whether box `b` is caught by the blast of device `d`.
pub fn blast_hits(d: &Device, b: &Rect) -> (r: bool)
    requires
        device_ok(*d),
        b.wf(),
    ensures
        r == in_blast(*d, *b),
{
    let reach = 2 * (d.power as i64) + 1;
    let h = Rect { x: d.pos.x, y: d.pos.y, w: CELL_W * reach, h: CELL_H };
    let v = Rect { x: d.pos.x, y: d.pos.y, w: CELL_W, h: CELL_H * reach };
    rects_overlap(&h, b) || rects_overlap(&v, b)
}

/// The cells left standing by the blast of `d`: breakable ones it catches go.
pub open spec fn kept_cells(cells: Seq<Cell>, d: Device) -> Seq<Cell>
    decreases cells.len(),
{
    if cells.len() == 0 {
        seq![]
    } else {
        let rest = kept_cells(cells.drop_last(), d);
        let c = cells.last();
        if c.breakable && in_blast(d, c.spec_rect()) {
            rest
        } else {
            rest.push(c)
        }
    }
}

/// Actor `a` after a device of `owner` detonated: its slot is freed.
pub open spec fn release(a: Actor, owner: u64) -> Actor {
    if a.id == owner {
        Actor { active_devices: (a.active_devices - 1) as u8, ..a }
    } else {
        a
    }
}

/// The actors left after the blast of `d`, each with its slot freed if it
/// owned `d`.
pub open spec fn survivors(actors: Seq<Actor>, d: Device) -> Seq<Actor>
    decreases actors.len(),
{
    if actors.len() == 0 {
        seq![]
    } else {
        let rest = survivors(actors.drop_last(), d);
        let a = actors.last();
        if in_blast(d, actor_box(a.pos)) {
            rest
        } else {
            rest.push(release(a, d.owner))
        }
    }
}

/// Number of autonomous actors the blast of `d` catches.
pub open spec fn autonomous_caught(actors: Seq<Actor>, d: Device) -> nat
    decreases actors.len(),
{
    if actors.len() == 0 {
        0
    } else {
        autonomous_caught(actors.drop_last(), d) + if in_blast(d, actor_box(actors.last().pos))
            && !actors.last().controlled {
            1nat
        } else {
            0nat
        }
    }
}

/// The blast of `d` catches the controlled actor.
pub open spec fn controlled_caught(actors: Seq<Actor>, d: Device) -> bool {
    exists|k: int|
        0 <= k < actors.len() && (#[trigger] actors[k]).controlled && in_blast(d, actor_box(actors[k].pos))
}

/// Identities of the devices of `devs` that the blast of `d` catches, in order.
pub open spec fn chained(devs: Seq<Device>, d: Device) -> Seq<u64>
    decreases devs.len(),
{
    if devs.len() == 0 {
        seq![]
    } else {
        let rest = chained(devs.drop_last(), d);
        if in_blast(d, device_box(devs.last().pos)) {
            rest.push(devs.last().id)
        } else {
            rest
        }
    }
}

/// `s` increased by `n`, saturating at the largest score.
pub open spec fn sat_add(s: u64, n: int) -> u64 {
    if s + n > u64::MAX {
        u64::MAX
    } else {
        (s + n) as u64
    }
}

/// Points a detonation of `d` earns: one per brick, a hundred per
/// autonomous actor.
pub open spec fn points(cells: Seq<Cell>, actors: Seq<Actor>, d: Device) -> int {
    (cells.len() - kept_cells(cells, d).len()) + 100 * (autonomous_caught(actors, d) as int)
}

/// Index of the device with identity `id` in `devs` (meaningful when
/// there is one).
pub open spec fn device_index(devs: Seq<Device>, id: u64) -> int {
    choose|i: int| 0 <= i < devs.len() && devs[i].id == id
}

/// The store after the device at index `i` detonates: the cells, actors,
/// score and latch as its blast leaves them, its two blast regions added,
/// and the device consumed.
pub open spec fn detonated(s: Sim, i: int) -> Sim {
    let d = s.devices[i];
    Sim {
        actors: survivors(s.actors, d),
        cells: kept_cells(s.cells, d),
        devices: s.devices.remove(i),
        blasts: s.blasts.push(Blast { pos: d.pos, horizontal: true, power: d.power, elapsed: 0 }).push(
            Blast { pos: d.pos, horizontal: false, power: d.power, elapsed: 0 },
        ),
        score: sat_add(s.score, points(s.cells, s.actors, d)),
        game_over: s.game_over || controlled_caught(s.actors, d),
        next_id: s.next_id,
    }
}

/// The store after the detonation queue `q` is worked off from position
/// `h`: a queued identity naming a device detonates it and queues the
/// devices its blast catches; one naming no device is dropped.
pub open spec fn cascade(s: Sim, q: Seq<u64>, h: nat) -> Sim
    decreases s.devices.len(), q.len() - h,
{
    if h >= q.len() {
        s
    } else if has_device(s.devices, q[h as int]) {
        let i = device_index(s.devices, q[h as int]);
        cascade(detonated(s, i), q + chained(s.devices.remove(i), s.devices[i]), h + 1)
    } else {
        cascade(s, q, h + 1)
    }
}

/// A cascade whose queue names no device from `h` on leaves the store as
/// it is.
pub proof fn lemma_cascade_of_absent(s: Sim, q: Seq<u64>, h: nat)
    requires
        forall|j: int| h <= j < q.len() ==> !has_device(s.devices, #[trigger] q[j]),
    ensures
        cascade(s, q, h) == s,
    decreases q.len() - h,
{
    if h < q.len() {
        lemma_cascade_of_absent(s, q, h + 1);
    }
}

proof fn lemma_kept_from(cells: Seq<Cell>, d: Device)
    ensures
        kept_cells(cells, d).len() <= cells.len(),
        forall|j: int|
            0 <= j < kept_cells(cells, d).len() ==> exists|k: int|
                0 <= k < cells.len() && cells[k] == #[trigger] kept_cells(cells, d)[j],
    decreases cells.len(),
{
    if cells.len() > 0 {
        let p = cells.drop_last();
        lemma_kept_from(p, d);
        let r = kept_cells(cells, d);
        assert forall|j: int| 0 <= j < r.len() implies exists|k: int|
            0 <= k < cells.len() && cells[k] == #[trigger] r[j] by {
            if j < kept_cells(p, d).len() {
                let k = choose|k: int| 0 <= k < p.len() && p[k] == #[trigger] kept_cells(p, d)[j];
                assert(cells[k] == p[k]);
            } else {
                assert(r[j] == cells[cells.len() - 1]);
            }
        }
    }
}

proof fn lemma_survivors_from(actors: Seq<Actor>, d: Device)
    ensures
        forall|j: int|
            0 <= j < survivors(actors, d).len() ==> exists|k: int|
                0 <= k < actors.len() && #[trigger] survivors(actors, d)[j] == release(actors[k], d.owner)
                    && !in_blast(d, actor_box(actors[k].pos)),
    decreases actors.len(),
{
    if actors.len() > 0 {
        let p = actors.drop_last();
        lemma_survivors_from(p, d);
        let r = survivors(actors, d);
        assert forall|j: int| 0 <= j < r.len() implies exists|k: int|
            0 <= k < actors.len() && #[trigger] r[j] == release(actors[k], d.owner) && !in_blast(d, actor_box(actors[k].pos)) by {
            if j < survivors(p, d).len() {
                let k = choose|k: int|
                    0 <= k < p.len() && #[trigger] survivors(p, d)[j] == release(p[k], d.owner)
                        && !in_blast(d, actor_box(p[k].pos));
                assert(actors[k] == p[k]);
            } else {
                assert(r[j] == release(actors[actors.len() - 1], d.owner));
            }
        }
    }
}

proof fn lemma_survivors_distinct(actors: Seq<Actor>, d: Device)
    requires
        forall|i: int, j: int|
            0 <= i < actors.len() && 0 <= j < actors.len() && i != j ==> (#[trigger] actors[i]).id
                != (#[trigger] actors[j]).id && !(actors[i].controlled && actors[j].controlled),
    ensures
        forall|i: int, j: int|
            0 <= i < survivors(actors, d).len() && 0 <= j < survivors(actors, d).len() && i != j
                ==> (#[trigger] survivors(actors, d)[i]).id != (#[trigger] survivors(actors, d)[j]).id
                && !(survivors(actors, d)[i].controlled && survivors(actors, d)[j].controlled),
    decreases actors.len(),
{
    if actors.len() > 0 {
        let p = actors.drop_last();
        lemma_survivors_distinct(p, d);
        lemma_survivors_from(p, d);
        let r = survivors(actors, d);
        let q = survivors(p, d);
        let n = actors.len() - 1;
        if !in_blast(d, actor_box(actors[n].pos)) {
            assert forall|i: int| 0 <= i < q.len() implies (#[trigger] q[i]).id != actors[n].id
                && !(q[i].controlled && actors[n].controlled) by {
                let k = choose|k: int|
                    0 <= k < p.len() && #[trigger] q[i] == release(p[k], d.owner) && !in_blast(d, actor_box(p[k].pos));
                assert(actors[k] == p[k]);
            }
            assert forall|i: int, j: int|
                0 <= i < r.len() && 0 <= j < r.len() && i != j implies (#[trigger] r[i]).id != (#[trigger] r[j]).id
                && !(r[i].controlled && r[j].controlled) by {
                if i < q.len() && j < q.len() {
                    assert(r[i] == q[i] && r[j] == q[j]);
                } else if i < q.len() {
                    assert(r[i] == q[i]);
                } else {
                    assert(r[j] == q[j]);
                }
            }
        }
    }
}

/// Some device of `devs` with identity `x` is caught by the blast of `d`.
pub open spec fn caught_id(devs: Seq<Device>, d: Device, x: u64) -> bool {
    exists|k: int| 0 <= k < devs.len() && devs[k].id == x && in_blast(d, device_box(devs[k].pos))
}

proof fn lemma_chained_complete(devs: Seq<Device>, d: Device)
    ensures
        forall|k: int|
            0 <= k < devs.len() && in_blast(d, device_box((#[trigger] devs[k]).pos)) ==> chained(devs, d).contains(devs[k].id),
        forall|j: int| 0 <= j < chained(devs, d).len() ==> caught_id(devs, d, #[trigger] chained(devs, d)[j]),
    decreases devs.len(),
{
    if devs.len() > 0 {
        let p = devs.drop_last();
        lemma_chained_complete(p, d);
        let r = chained(devs, d);
        let q = chained(p, d);
        assert forall|k: int|
            0 <= k < devs.len() && in_blast(d, device_box((#[trigger] devs[k]).pos)) implies r.contains(devs[k].id) by {
            if k < p.len() {
                assert(devs[k] == p[k]);
                let j = choose|j: int| 0 <= j < q.len() && q[j] == p[k].id;
                if in_blast(d, device_box(devs.last().pos)) {
                    assert(r[j] == q[j]);
                }
            } else {
                assert(r[r.len() - 1] == devs[k].id);
            }
        }
        assert forall|j: int| 0 <= j < r.len() implies caught_id(devs, d, #[trigger] r[j]) by {
            if j < q.len() {
                assert(r[j] == q[j]);
                assert(caught_id(p, d, q[j]));
                let k = choose|k: int| 0 <= k < p.len() && p[k].id == q[j] && in_blast(d, device_box(p[k].pos));
                assert(devs[k] == p[k]);
            } else {
                let n = devs.len() - 1;
                assert(r[j] == devs[n].id);
            }
        }
    }
}

proof fn lemma_sat_add_step(s: u64, a: int, b: int)
    requires
        a >= 0,
        b >= 0,
    ensures
        sat_add(sat_add(s, a), b) == sat_add(s, a + b),
{
}

/// Appends to `queue` the identities of the devices of `devs` caught by the
/// blast of `d`.
fn chain_ids(devs: &Vec<Device>, d: &Device, queue: &mut Vec<u64>)
    requires
        device_ok(*d),
        forall|k: int| 0 <= k < devs@.len() ==> device_ok(#[trigger] devs@[k]),
    ensures
        final(queue)@ == old(queue)@ + chained(devs@, *d),
{
    let mut k: usize = 0;
    while k < devs.len()
        invariant
            k <= devs@.len(),
            device_ok(*d),
            forall|m: int| 0 <= m < devs@.len() ==> device_ok(#[trigger] devs@[m]),
            queue@ == old(queue)@ + chained(devs@.subrange(0, k as int), *d),
        decreases devs@.len() - k,
    {
        proof {
            assert(devs@.subrange(0, k + 1).drop_last() == devs@.subrange(0, k as int));
            assert(devs@[k as int].pos.x <= 300);
        }
        let e = devs[k];
        let b = Rect { x: e.pos.x, y: e.pos.y, w: DEVICE_SIZE, h: DEVICE_SIZE };
        if blast_hits(d, &b) {
            queue.push(e.id);
        }
        k = k + 1;
    }
    proof {
        assert(devs@.subrange(0, devs@.len() as int) == devs@);
    }
}

/// The cells the blast of `d` leaves standing, and the score raised by one
/// for each brick it breaks.
fn blast_cells(cells: &Vec<Cell>, d: &Device, score: u64) -> (r: (Vec<Cell>, u64))
    requires
        device_ok(*d),
        forall|k: int| 0 <= k < cells@.len() ==> (#[trigger] cells@[k]).wf(),
    ensures
        r.0@ == kept_cells(cells@, *d),
        r.1 == sat_add(score, cells@.len() - kept_cells(cells@, *d).len()),
{
    let mut kept: Vec<Cell> = Vec::new();
    let mut sc = score;
    let mut k: usize = 0;
    while k < cells.len()
        invariant
            k <= cells@.len(),
            device_ok(*d),
            forall|m: int| 0 <= m < cells@.len() ==> (#[trigger] cells@[m]).wf(),
            kept@ == kept_cells(cells@.subrange(0, k as int), *d),
            kept@.len() <= k,
            sc == sat_add(score, k - kept@.len()),
        decreases cells@.len() - k,
    {
        proof {
            assert(cells@.subrange(0, k + 1).drop_last() == cells@.subrange(0, k as int));
        }
        let c = cells[k];
        let b = c.rect();
        if c.breakable && blast_hits(d, &b) {
            proof {
                lemma_sat_add_step(score, k - kept@.len(), 1);
            }
            sc = if sc == u64::MAX { sc } else { sc + 1 };
        } else {
            kept.push(c);
        }
        k = k + 1;
    }
    proof {
        assert(cells@.subrange(0, cells@.len() as int) == cells@);
    }
    (kept, sc)
}

/// The actors the blast of `d` leaves, with the owner's slot freed; the
/// score raised by a hundred per autonomous actor caught; the game-over
/// latch set when the controlled actor is caught.
fn blast_actors(actors: &Vec<Actor>, d: &Device, score: u64, over: bool) -> (r: (Vec<Actor>, u64, bool))
    requires
        device_ok(*d),
        forall|k: int| 0 <= k < actors@.len() ==> crate::geometry::in_interior((#[trigger] actors@[k]).pos),
        forall|k: int| 0 <= k < actors@.len() && (#[trigger] actors@[k]).id == d.owner ==> actors@[k].active_devices >= 1,
    ensures
        r.0@ == survivors(actors@, *d),
        r.1 == sat_add(score, 100 * (autonomous_caught(actors@, *d) as int)),
        r.2 == (over || controlled_caught(actors@, *d)),
{
    let mut out: Vec<Actor> = Vec::new();
    let mut sc = score;
    let mut go = over;
    let mut k: usize = 0;
    while k < actors.len()
        invariant
            k <= actors@.len(),
            device_ok(*d),
            forall|m: int| 0 <= m < actors@.len() ==> crate::geometry::in_interior((#[trigger] actors@[m]).pos),
            forall|m: int| 0 <= m < actors@.len() && (#[trigger] actors@[m]).id == d.owner ==> actors@[m].active_devices >= 1,
            out@ == survivors(actors@.subrange(0, k as int), *d),
            sc == sat_add(score, 100 * (autonomous_caught(actors@.subrange(0, k as int), *d) as int)),
            go == (over || controlled_caught(actors@.subrange(0, k as int), *d)),
        decreases actors@.len() - k,
    {
        let ghost sub = actors@.subrange(0, k as int);
        let ghost next = actors@.subrange(0, k + 1);
        proof {
            assert(next.drop_last() == sub);
        }
        let a = actors[k];
        let b = Rect { x: a.pos.x, y: a.pos.y, w: ACTOR_SIZE, h: ACTOR_SIZE };
        if blast_hits(d, &b) {
            if a.controlled {
                go = true;
            } else {
                proof {
                    lemma_sat_add_step(score, 100 * (autonomous_caught(sub, *d) as int), 100);
                }
                sc = if sc > u64::MAX - 100 { u64::MAX } else { sc + 100 };
            }
            proof {
                assert(next[k as int] == a);
                if a.controlled {
                    assert(controlled_caught(next, *d));
                }
            }
        } else {
            if a.id == d.owner {
                out.push(Actor { active_devices: a.active_devices - 1, ..a });
            } else {
                out.push(a);
            }
        }
        proof {
            assert forall|m: int| 0 <= m < sub.len() implies sub[m] == #[trigger] next[m] by {}
            if !(in_blast(*d, actor_box(a.pos)) && a.controlled) {
                if controlled_caught(next, *d) {
                    let m = choose|m: int|
                        0 <= m < next.len() && (#[trigger] next[m]).controlled && in_blast(*d, actor_box(next[m].pos));
                    assert(m < sub.len());
                    assert(controlled_caught(sub, *d));
                }
            }
        }
        k = k + 1;
    }
    proof {
        assert(actors@.subrange(0, actors@.len() as int) == actors@);
    }
    (out, sc, go)
}

impl World {
    /// Detonates the device at index `i`: devices its bars catch are queued
    /// for chain detonation, breakable cells they catch are destroyed (+1
    /// each), its owner's slot is freed, actors they catch are eliminated
    /// (+100 for an autonomous one; the game-over latch for the controlled
    /// one), two blast regions appear where it stood, and it is consumed.
    pub fn detonate(&mut self, i: usize, queue: &mut Vec<u64>)
        requires
            old(self).wf(),
            i < old(self).devices@.len(),
        ensures
            final(self).wf(),
            ({
                let d = old(self).devices@[i as int];
                &&& final(self).devices@ == old(self).devices@.remove(i as int)
                &&& final(queue)@ == old(queue)@ + chained(old(self).devices@.remove(i as int), d)
                &&& final(self).cells@ == kept_cells(old(self).cells@, d)
                &&& final(self).actors@ == survivors(old(self).actors@, d)
                &&& final(self).score == sat_add(old(self).score, points(old(self).cells@, old(self).actors@, d))
                &&& final(self).game_over == (old(self).game_over || controlled_caught(old(self).actors@, d))
                &&& final(self).blasts@ == old(self).blasts@.push(
                    Blast { pos: d.pos, horizontal: true, power: d.power, elapsed: 0 },
                ).push(Blast { pos: d.pos, horizontal: false, power: d.power, elapsed: 0 })
                &&& final(self).next_id == old(self).next_id
            }),
            final(self).score >= old(self).score,
            final(self).sim() == detonated(old(self).sim(), i as int),
    {
        let ghost old_devs = self.devices@;
        let ghost old_cells = self.cells@;
        let ghost old_actors = self.actors@;
        let d = self.devices.remove(i);
        proof {
            assert(device_ok(old_devs[i as int]));
            assert forall|k: int| 0 <= k < self.devices@.len() implies device_ok(#[trigger] self.devices@[k]) by {
                if k < i {
                    assert(self.devices@[k] == old_devs[k]);
                } else {
                    assert(self.devices@[k] == old_devs[k + 1]);
                }
            }
            assert forall|k: int| 0 <= k < old_actors.len() && (#[trigger] old_actors[k]).id == d.owner
                implies old_actors[k].active_devices >= 1 by {
                lemma_owned_count_remove(old_devs, i as int, d.owner);
            }
            assert forall|k: int| 0 <= k < old_actors.len() implies crate::geometry::in_interior((#[trigger] old_actors[k]).pos) by {
                assert(actor_ok(old_actors[k], old_cells));
            }
        }
        chain_ids(&self.devices, &d, queue);
        let (kept, sc) = blast_cells(&self.cells, &d, self.score);
        let (out, sc2, go) = blast_actors(&self.actors, &d, sc, self.game_over);
        proof {
            lemma_kept_from(old_cells, d);
            lemma_sat_add_step(old(self).score, (old_cells.len() - kept_cells(old_cells, d).len()) as int, 100 * (autonomous_caught(old_actors, d) as int));
            lemma_survivors_from(old_actors, d);
            lemma_survivors_distinct(old_actors, d);
        }
        self.cells = kept;
        self.actors = out;
        self.score = sc2;
        self.game_over = go;
        self.blasts.push(Blast { pos: d.pos, horizontal: true, power: d.power, elapsed: 0 });
        self.blasts.push(Blast { pos: d.pos, horizontal: false, power: d.power, elapsed: 0 });
        proof {
            let cells = self.cells@;
            assert forall|k: int| 0 <= k < cells.len() implies (#[trigger] cells[k]).wf() by {
                let m = choose|m: int| 0 <= m < old_cells.len() && old_cells[m] == #[trigger] kept_cells(old_cells, d)[k];
            }
            let devs = self.devices@;
            assert forall|k: int| 0 <= k < self.actors@.len() implies {
                &&& actor_ok(#[trigger] self.actors@[k], self.cells@)
                &&& self.actors@[k].id < self.next_id
                &&& self.actors@[k].active_devices == owned_count(devs, self.actors@[k].id)
            } by {
                let m = choose|m: int|
                    0 <= m < old_actors.len() && #[trigger] survivors(old_actors, d)[k] == release(old_actors[m], d.owner)
                        && !in_blast(d, actor_box(old_actors[m].pos));
                let a = old_actors[m];
                assert(actor_ok(a, old_cells));
                lemma_owned_count_remove(old_devs, i as int, a.id);
                if hits_terrain(cells, actor_box(a.pos)) {
                    let j = choose|j: int| 0 <= j < cells.len() && overlaps((#[trigger] cells[j]).spec_rect(), actor_box(a.pos));
                    let q = choose|q: int| 0 <= q < old_cells.len() && old_cells[q] == #[trigger] kept_cells(old_cells, d)[j];
                    assert(overlaps(old_cells[q].spec_rect(), actor_box(a.pos)));
                }
            }
            assert forall|k1: int, k2: int|
                0 <= k1 < devs.len() && 0 <= k2 < devs.len() && k1 != k2 implies (#[trigger] devs[k1]).id
                    != (#[trigger] devs[k2]).id by {
                let a1 = if k1 < i { k1 } else { k1 + 1 };
                let a2 = if k2 < i { k2 } else { k2 + 1 };
                assert(devs[k1] == old_devs[a1]);
                assert(devs[k2] == old_devs[a2]);
            }
            assert forall|k: int| 0 <= k < devs.len() implies device_ok(#[trigger] devs[k]) && devs[k].id < self.next_id
                && devs[k].owner < self.next_id by {
                if k < i {
                    assert(devs[k] == old_devs[k]);
                } else {
                    assert(devs[k] == old_devs[k + 1]);
                }
            }
            assert forall|k: int| 0 <= k < self.blasts@.len() implies blast_ok(#[trigger] self.blasts@[k]) by {
                if k < old(self).blasts@.len() {
                    assert(self.blasts@[k] == old(self).blasts@[k]);
                }
            }
        }
    }
}

/// Detonating a device frees exactly one slot of its owner, whether or not
/// its blast eliminates the owner: the owner's record, released before the
/// blast is resolved, carries one device less, as does the store.
pub proof fn lemma_detonation_frees_one_slot(w: &World, i: int)
    requires
        w.wf(),
        0 <= i < w.devices@.len(),
    ensures
        owned_count(w.devices@.remove(i), w.devices@[i].owner) + 1 == owned_count(w.devices@, w.devices@[i].owner),
        forall|k: int|
            0 <= k < w.actors@.len() && (#[trigger] w.actors@[k]).id == w.devices@[i].owner ==> {
                &&& w.actors@[k].active_devices >= 1
                &&& release(w.actors@[k], w.devices@[i].owner).active_devices + 1 == w.actors@[k].active_devices
            },
        forall|j: int|
            0 <= j < survivors(w.actors@, w.devices@[i]).len() && (#[trigger] survivors(w.actors@, w.devices@[i])[j]).id
                == w.devices@[i].owner ==> survivors(w.actors@, w.devices@[i])[j].active_devices + 1 == actor_with(
                w.actors@,
                w.devices@[i].owner,
            ).active_devices,
{
    let d = w.devices@[i];
    lemma_owned_count_remove(w.devices@, i, d.owner);
    lemma_survivors_from(w.actors@, d);
    let sv = survivors(w.actors@, d);
    assert forall|j: int| 0 <= j < sv.len() && (#[trigger] sv[j]).id == d.owner implies sv[j].active_devices + 1
        == actor_with(w.actors@, d.owner).active_devices by {
        let k = choose|k: int|
            0 <= k < w.actors@.len() && #[trigger] sv[j] == release(w.actors@[k], d.owner) && !in_blast(d, actor_box(w.actors@[k].pos));
        let c = choose|c: int| 0 <= c < w.actors@.len() && (#[trigger] w.actors@[c]).id == d.owner;
        assert(c == k);
    }
}

/// `after` is what a cascade started from `ids` left of the devices
/// `before`: only untouched devices remain, none of the started ones, and
/// none that a consumed device's blast catches.
pub open spec fn cascade_closed(before: Seq<Device>, ids: Seq<u64>, after: Seq<Device>) -> bool {
    &&& forall|m: int| 0 <= m < after.len() ==> before.contains(#[trigger] after[m])
    &&& forall|j: int| 0 <= j < ids.len() ==> !has_device(after, #[trigger] ids[j])
    &&& forall|k: int, m: int|
        0 <= k < before.len() && !has_device(after, before[k].id) && 0 <= m < after.len() ==> !in_blast(
            #[trigger] before[k],
            device_box((#[trigger] after[m]).pos),
        )
}

/// `ch` is a chain of indices of `before` that ends at `k`: it starts at a
/// device named in `ids`, and each device's blast catches the next, a
/// different one.
pub open spec fn is_chain(before: Seq<Device>, ids: Seq<u64>, ch: Seq<int>, k: int) -> bool {
    &&& ch.len() > 0
    &&& ch.last() == k
    &&& forall|t: int| 0 <= t < ch.len() ==> 0 <= #[trigger] ch[t] < before.len()
    &&& ids.contains(before[ch[0]].id)
    &&& forall|t: int|
        0 <= t < ch.len() - 1 ==> #[trigger] ch[t] != ch[t + 1] && in_blast(before[ch[t]], device_box(before[ch[t + 1]].pos))
}

/// Device `before[k]` is reached from the devices named in `ids` by a chain
/// of blasts.
pub open spec fn reached(before: Seq<Device>, ids: Seq<u64>, k: int) -> bool {
    exists|ch: Seq<int>| #[trigger] is_chain(before, ids, ch, k)
}

/// A cascade started from `ids` consumes only devices it reaches: every
/// device of `before` missing from `after` is reached.
pub open spec fn cascade_reachable(before: Seq<Device>, ids: Seq<u64>, after: Seq<Device>) -> bool {
    forall|k: int| 0 <= k < before.len() && !has_device(after, before[k].id) ==> #[trigger] reached(before, ids, k)
}

/// Identity `x` names a device of `before` caught by another device already
/// missing from `cur`.
pub open spec fn queued_for_cause(before: Seq<Device>, cur: Seq<Device>, x: u64) -> bool {
    exists|c: int, k: int|
        0 <= c < before.len() && 0 <= k < before.len() && c != k && !has_device(cur, before[c].id)
            && before[k].id == x && in_blast(before[c], device_box(before[k].pos))
}

proof fn lemma_causes_persist(before: Seq<Device>, cur: Seq<Device>, nxt: Seq<Device>)
    requires
        forall|x: u64| has_device(nxt, x) ==> has_device(cur, x),
    ensures
        forall|x: u64| #[trigger] queued_for_cause(before, cur, x) ==> queued_for_cause(before, nxt, x),
{
    assert forall|x: u64| #[trigger] queued_for_cause(before, cur, x) implies queued_for_cause(before, nxt, x) by {
        let (c, k) = choose|c: int, k: int|
            0 <= c < before.len() && 0 <= k < before.len() && c != k && !has_device(cur, before[c].id)
                && before[k].id == x && in_blast(before[c], device_box(before[k].pos));
    }
}

/// Device identities in `devs` are pairwise distinct.
pub open spec fn distinct_ids(devs: Seq<Device>) -> bool {
    forall|i: int, j: int|
        0 <= i < devs.len() && 0 <= j < devs.len() && i != j ==> (#[trigger] devs[i]).id != (#[trigger] devs[j]).id
}

/// Cascade completeness: in a chain of devices where each one's blast
/// catches the next, once the first is started every one of them is
/// consumed by the cascade.
pub proof fn lemma_chain_consumed(before: Seq<Device>, ids: Seq<u64>, after: Seq<Device>, chain: Seq<Device>)
    requires
        cascade_closed(before, ids, after),
        distinct_ids(before),
        chain.len() > 0,
        forall|k: int| 0 <= k < chain.len() ==> before.contains(#[trigger] chain[k]),
        forall|k: int| 0 <= k < chain.len() - 1 ==> in_blast(#[trigger] chain[k], device_box(chain[k + 1].pos)),
        ids.contains(chain[0].id),
    ensures
        forall|k: int| 0 <= k < chain.len() ==> !has_device(after, (#[trigger] chain[k]).id),
    decreases chain.len(),
{
    if chain.len() > 1 {
        let p = chain.drop_last();
        assert forall|k: int| 0 <= k < p.len() - 1 implies in_blast(#[trigger] p[k], device_box(p[k + 1].pos)) by {
            assert(p[k] == chain[k] && p[k + 1] == chain[k + 1]);
        }
        assert forall|k: int| 0 <= k < p.len() implies before.contains(#[trigger] p[k]) by {
            assert(p[k] == chain[k]);
        }
        lemma_chain_consumed(before, ids, after, p);
        let n = chain.len() - 1;
        let prev = chain[n - 1];
        assert(p[n - 1] == prev);
        assert(!has_device(after, prev.id));
        if has_device(after, chain[n].id) {
            let m = choose|m: int| 0 <= m < after.len() && (#[trigger] after[m]).id == chain[n].id;
            assert(before.contains(after[m]));
            let a = choose|a: int| 0 <= a < before.len() && before[a] == after[m];
            let b = choose|b: int| 0 <= b < before.len() && before[b] == chain[n];
            assert(a == b);
            let c = choose|c: int| 0 <= c < before.len() && before[c] == prev;
            assert(in_blast(prev, device_box(chain[n].pos)));
            assert(!in_blast(before[c], device_box(after[m].pos)));
        }
        assert forall|k: int| 0 <= k < chain.len() implies !has_device(after, (#[trigger] chain[k]).id) by {
            if k < n {
                assert(chain[k] == p[k]);
            }
        }
    } else {
        let j = choose|j: int| 0 <= j < ids.len() && ids[j] == chain[0].id;
    }
}

/// A device whose fuse has not run out, and that no other device's blast
/// catches, outlives a cascade started from the devices whose fuses ran out.
pub proof fn lemma_no_early_removal(before: Seq<Device>, ids: Seq<u64>, after: Seq<Device>, k: int)
    requires
        cascade_reachable(before, ids, after),
        distinct_ids(before),
        forall|j: int| 0 <= j < ids.len() ==> is_due_id(before, #[trigger] ids[j]),
        0 <= k < before.len(),
        before[k].elapsed < FUSE_TICKS,
        forall|c: int| 0 <= c < before.len() && c != k ==> !in_blast(#[trigger] before[c], device_box(before[k].pos)),
    ensures
        has_device(after, before[k].id),
{
    if !has_device(after, before[k].id) {
        assert(reached(before, ids, k));
        let ch = choose|ch: Seq<int>| #[trigger] is_chain(before, ids, ch, k);
        if ch.len() == 1 {
            let j = choose|j: int| 0 <= j < ids.len() && ids[j] == before[ch[0]].id;
            assert(is_due_id(before, ids[j]));
            let m = choose|m: int| 0 <= m < before.len() && before[m].id == ids[j] && before[m].elapsed == FUSE_TICKS;
            assert(0 <= ch[0] < before.len());
            assert(m == k);
        } else {
            let t = ch.len() - 2;
            assert(ch[t] != ch[t + 1]);
            assert(0 <= ch[t] < before.len());
            assert(in_blast(before[ch[t]], device_box(before[k].pos)));
        }
    }
}

impl World {
    /// Detonates the devices named by `ids`, in order, and every device a
    /// detonation catches, queued behind them, until the queue is empty.
    /// Names of devices no longer present are skipped.
    pub fn run_cascade(&mut self, ids: Vec<u64>)
        requires
            old(self).wf(),
        ensures
            final(self).wf(),
            cascade_closed(old(self).devices@, ids@, final(self).devices@),
            cascade_reachable(old(self).devices@, ids@, final(self).devices@),
            final(self).sim() == cascade(old(self).sim(), ids@, 0),
            final(self).blasts@.len() == old(self).blasts@.len() + 2 * (old(self).devices@.len()
                - final(self).devices@.len()),
            final(self).score >= old(self).score,
            old(self).game_over ==> final(self).game_over,
            final(self).next_id == old(self).next_id,
    {
        let ghost before = self.devices@;
        let mut queue = ids;
        let mut h: usize = 0;
        while h < queue.len()
            invariant
                self.wf(),
                self.next_id == old(self).next_id,
                before == old(self).devices@,
                distinct_ids(before),
                h <= queue@.len(),
                queue@.len() >= ids@.len(),
                forall|j: int| 0 <= j < ids@.len() ==> queue@[j] == #[trigger] ids@[j],
                forall|m: int| 0 <= m < self.devices@.len() ==> before.contains(#[trigger] self.devices@[m]),
                forall|j: int| 0 <= j < h ==> !has_device(self.devices@, #[trigger] queue@[j]),
                forall|k: int, m: int|
                    0 <= k < before.len() && !has_device(self.devices@, before[k].id) && 0 <= m
                        < self.devices@.len() && in_blast(#[trigger] before[k], device_box((#[trigger] self.devices@[m]).pos))
                        ==> exists|j: int| h <= j < queue@.len() && queue@[j] == self.devices@[m].id,
                self.blasts@.len() == old(self).blasts@.len() + 2 * (before.len() - self.devices@.len()),
                self.devices@.len() <= before.len(),
                cascade_reachable(before, ids@, self.devices@),
                cascade(self.sim(), queue@, h as nat) == cascade(old(self).sim(), ids@, 0),
                forall|j: int| ids@.len() <= j < queue@.len() ==> queued_for_cause(before, self.devices@, #[trigger] queue@[j]),
                self.score >= old(self).score,
                old(self).game_over ==> self.game_over,
            decreases self.devices@.len(), queue@.len() - h,
        {
            let id = queue[h];
            let ghost cur = self.devices@;
            let ghost q0 = queue@;
            match self.find_device(id) {
                None => {
                    proof {
                        assert forall|k: int, m: int|
                            0 <= k < before.len() && !has_device(cur, before[k].id) && 0 <= m < cur.len()
                                && in_blast(#[trigger] before[k], device_box((#[trigger] cur[m]).pos))
                                implies exists|j: int| h + 1 <= j < q0.len() && q0[j] == cur[m].id by {
                            let j = choose|j: int| h <= j < q0.len() && q0[j] == cur[m].id;
                            assert(j != h);
                        }
                    }
                    h = h + 1;
                },
                Some(i) => {
                    let ghost e0 = cur[i as int];
                    let ghost s0 = self.sim();
                    proof {
                        let ci = device_index(cur, id);
                        assert(cur[ci].id == cur[i as int].id);
                    }
                    self.detonate(i, &mut queue);
                    proof {
                        let nxt = self.devices@;
                        let q1 = queue@;
                        lemma_chained_complete(nxt, e0);
                        assert forall|m: int| 0 <= m < nxt.len() implies nxt[m] == cur[if m < i { m } else { m + 1 }] by {}
                        assert forall|m: int| 0 <= m < nxt.len() implies (#[trigger] nxt[m]).id != e0.id by {
                            assert(nxt[m] == cur[if m < i { m } else { m + 1 }]);
                        }
                        assert forall|x: u64| has_device(nxt, x) implies has_device(cur, x) by {
                            let m = choose|m: int| 0 <= m < nxt.len() && (#[trigger] nxt[m]).id == x;
                            assert(nxt[m] == cur[if m < i { m } else { m + 1 }]);
                        }
                        assert forall|m: int| 0 <= m < nxt.len() implies before.contains(#[trigger] nxt[m]) by {
                            assert(nxt[m] == cur[if m < i { m } else { m + 1 }]);
                        }
                        assert forall|j: int| 0 <= j < ids@.len() implies q1[j] == #[trigger] ids@[j] by {
                            assert(q1[j] == q0[j]);
                        }
                        assert forall|j: int| 0 <= j < h + 1 implies !has_device(nxt, #[trigger] q1[j]) by {
                            assert(q1[j] == q0[j]);
                            if j < h {
                                assert(!has_device(cur, q0[j]));
                            }
                        }
                        assert(before.contains(e0));
                        lemma_causes_persist(before, cur, nxt);
                        let w0 = choose|w: int| 0 <= w < before.len() && before[w] == e0;
                        assert forall|k: int|
                            0 <= k < before.len() && !has_device(nxt, before[k].id) implies #[trigger] reached(before, ids@, k) by {
                            if has_device(cur, before[k].id) {
                                let w = choose|w: int| 0 <= w < cur.len() && (#[trigger] cur[w]).id == before[k].id;
                                if w != i {
                                    assert(nxt[if w < i { w } else { w - 1 }] == cur[w]);
                                    assert(false);
                                }
                                assert(k == w0);
                                if (h as int) < ids@.len() {
                                    assert(q0[h as int] == ids@[h as int]);
                                    let ch = seq![k];
                                    assert(is_chain(before, ids@, ch, k));
                                } else {
                                    assert(queued_for_cause(before, cur, q0[h as int]));
                                    let (c, kk) = choose|c: int, kk: int|
                                        0 <= c < before.len() && 0 <= kk < before.len() && c != kk && !has_device(cur, before[c].id)
                                            && before[kk].id == q0[h as int] && in_blast(before[c], device_box(before[kk].pos));
                                    assert(kk == k);
                                    assert(reached(before, ids@, c));
                                    let cc = choose|cc: Seq<int>| #[trigger] is_chain(before, ids@, cc, c);
                                    let ch = cc.push(k);
                                    assert forall|t: int| 0 <= t < ch.len() implies 0 <= #[trigger] ch[t] < before.len() by {
                                        if t < cc.len() {
                                            assert(ch[t] == cc[t]);
                                        }
                                    }
                                    assert forall|t: int| 0 <= t < ch.len() - 1 implies #[trigger] ch[t] != ch[t + 1]
                                        && in_blast(before[ch[t]], device_box(before[ch[t + 1]].pos)) by {
                                        assert(ch[t] == cc[t]);
                                        if t < cc.len() - 1 {
                                            assert(ch[t + 1] == cc[t + 1]);
                                        }
                                    }
                                    assert(ch[0] == cc[0]);
                                    assert(is_chain(before, ids@, ch, k));
                                }
                            }
                        }
                        assert forall|j: int| ids@.len() <= j < q1.len() implies queued_for_cause(before, nxt, #[trigger] q1[j]) by {
                            if j < q0.len() {
                                assert(q1[j] == q0[j]);
                                assert(queued_for_cause(before, cur, q0[j]));
                            } else {
                                let c = chained(nxt, e0);
                                assert(q1[j] == c[j - q0.len()]);
                                assert(caught_id(nxt, e0, c[j - q0.len()]));
                                let m = choose|m: int| 0 <= m < nxt.len() && nxt[m].id == c[j - q0.len()] && in_blast(e0, device_box(nxt[m].pos));
                                assert(before.contains(nxt[m]));
                                let k3 = choose|k3: int| 0 <= k3 < before.len() && before[k3] == nxt[m];
                                assert(k3 != w0);
                                assert(!has_device(nxt, before[w0].id));
                            }
                        }
                        assert forall|k: int, m: int|
                            0 <= k < before.len() && !has_device(nxt, before[k].id) && 0 <= m < nxt.len()
                                && in_blast(#[trigger] before[k], device_box((#[trigger] nxt[m]).pos))
                                implies exists|j: int| h + 1 <= j < q1.len() && q1[j] == nxt[m].id by {
                            let mm = if m < i { m } else { m + 1 };
                            assert(nxt[m] == cur[mm]);
                            if !has_device(cur, before[k].id) {
                                let j = choose|j: int| h <= j < q0.len() && q0[j] == cur[mm].id;
                                assert(q1[j] == q0[j]);
                                assert(j != h);
                            } else {
                                let w = choose|w: int| 0 <= w < cur.len() && (#[trigger] cur[w]).id == before[k].id;
                                if w != i {
                                    assert(nxt[if w < i { w } else { w - 1 }] == cur[w]);
                                    assert(false);
                                }
                                let a = choose|a: int| 0 <= a < before.len() && before[a] == e0;
                                assert(a == k);
                                let c = chained(nxt, e0);
                                let j = choose|j: int| 0 <= j < c.len() && c[j] == nxt[m].id;
                                assert(q1[q0.len() + j] == c[j]);
                            }
                        }
                    }
                    h = h + 1;
                },
            }
        }
        proof {
            let fin = self.devices@;
            assert forall|k: int, m: int|
                0 <= k < before.len() && !has_device(fin, before[k].id) && 0 <= m < fin.len() implies !in_blast(
                    #[trigger] before[k],
                    device_box((#[trigger] fin[m]).pos),
                ) by {
                if in_blast(before[k], device_box(fin[m].pos)) {
                    let j = choose|j: int| h <= j < queue@.len() && queue@[j] == fin[m].id;
                }
            }
            assert forall|j: int| 0 <= j < ids@.len() implies !has_device(fin, #[trigger] ids@[j]) by {
                assert(queue@[j] == ids@[j]);
            }
        }
    }
}

} // verus!
