//! Intents: what the controlled actor's held inputs and the autonomous
//! actors' random draws ask for, and the per-tick step that applies them.
use vstd::prelude::*;
use rand::distributions::{Distribution, Uniform};
use crate::detonation::{cascade, cascade_closed, cascade_reachable};
use crate::timers::{due_ids, fuse_advanced, surviving_blasts};
use crate::arena::Cell;
use crate::movement::{resolved, Direction};
use crate::world::{actor_with, device_ok, has_actor, has_device, moved_to, snap_point, with_one_more, Actor, Device, Sim, World, FUSE_TICKS};

verus! {

/// A held input of the controlled actor.
#[derive(Clone, Copy, Debug, PartialEq, Eq)]
pub enum Input {
    Up,
    Down,
    Left,
    Right,
    Place,
}

/// What an actor asks to do this tick.
#[derive(Clone, Copy, Debug, PartialEq, Eq)]
pub enum Intent {
    Move { actor: u64, dir: Direction },
    Place { actor: u64 },
}

/// Number of outcomes an autonomous actor draws from.
pub const POLICY_OUTCOMES: u8 = 5;

/// The intent a held input gives actor `actor`.
pub open spec fn input_intent(actor: u64, i: Input) -> Intent {
    match i {
        Input::Up => Intent::Move { actor, dir: Direction::Up },
        Input::Down => Intent::Move { actor, dir: Direction::Down },
        Input::Left => Intent::Move { actor, dir: Direction::Left },
        Input::Right => Intent::Move { actor, dir: Direction::Right },
        Input::Place => Intent::Place { actor },
    }
}

/// The intent a draw in `0..5` gives autonomous actor `actor`: down, left,
/// right, up, or placing a device.
pub open spec fn draw_intent(actor: u64, draw: u8) -> Intent {
    if draw == 0 {
        Intent::Move { actor, dir: Direction::Down }
    } else if draw == 1 {
        Intent::Move { actor, dir: Direction::Left }
    } else if draw == 2 {
        Intent::Move { actor, dir: Direction::Right }
    } else if draw == 3 {
        Intent::Move { actor, dir: Direction::Up }
    } else {
        Intent::Place { actor }
    }
}

/// Intent of a held input.
pub fn intent_for_input(actor: u64, i: Input) -> (r: Intent)
    ensures
        r == input_intent(actor, i),
{
    match i {
        Input::Up => Intent::Move { actor, dir: Direction::Up },
        Input::Down => Intent::Move { actor, dir: Direction::Down },
        Input::Left => Intent::Move { actor, dir: Direction::Left },
        Input::Right => Intent::Move { actor, dir: Direction::Right },
        Input::Place => Intent::Place { actor },
    }
}

/// Intent of an autonomous actor's draw.
pub fn intent_for_draw(actor: u64, draw: u8) -> (r: Intent)
    requires
        draw < POLICY_OUTCOMES,
    ensures
        r == draw_intent(actor, draw),
{
    if draw == 0 {
        Intent::Move { actor, dir: Direction::Down }
    } else if draw == 1 {
        Intent::Move { actor, dir: Direction::Left }
    } else if draw == 2 {
        Intent::Move { actor, dir: Direction::Right }
    } else if draw == 3 {
        Intent::Move { actor, dir: Direction::Up }
    } else {
        Intent::Place { actor }
    }
}

/// Relies on rand's `Uniform::from(0..n)` and `Distribution::sample` with
/// the thread-local generator (`thread_rng`): the draw lies in `0..n`, and
/// `Uniform::new` panics only on an empty range.
#[verifier::external_body]
fn draw_below(n: u8) -> (r: u8)
    requires
        n > 0,
    ensures
        r < n,
{
    Uniform::from(0u8..n).sample(&mut rand::thread_rng())
}

/// Intents of the controlled actor: one per held input, in order; none when
/// no actor is controlled.
pub open spec fn controlled_intents(actors: Seq<Actor>, held: Seq<Input>) -> Seq<Intent> {
    if exists|k: int| 0 <= k < actors.len() && (#[trigger] actors[k]).controlled {
        let id = actors[choose|k: int| 0 <= k < actors.len() && (#[trigger] actors[k]).controlled].id;
        held.map_values(|i: Input| input_intent(id, i))
    } else {
        seq![]
    }
}

/// Intents of the autonomous actors among `actors`, in store order: actor
/// `k` acts on `draws[k]` when that draw exists and is below the outcome
/// count.
pub open spec fn autonomous_intents(actors: Seq<Actor>, draws: Seq<u8>) -> Seq<Intent>
    decreases actors.len(),
{
    if actors.len() == 0 {
        seq![]
    } else {
        let k = actors.len() - 1;
        let rest = autonomous_intents(actors.drop_last(), draws);
        if !actors[k].controlled && k < draws.len() && draws[k] < POLICY_OUTCOMES {
            rest.push(draw_intent(actors[k].id, draws[k]))
        } else {
            rest
        }
    }
}

/// The part of the store that intents change.
pub struct Roster {
    pub actors: Seq<Actor>,
    pub devices: Seq<Device>,
    pub next_id: u64,
}

/// The roster after one intent: a move steps its actor against `cells`; a
/// placement adds a device when the actor may place one.
pub open spec fn after_intent(r: Roster, cells: Seq<Cell>, i: Intent) -> Roster {
    match i {
        Intent::Move { actor, dir } => Roster {
            actors: Seq::new(
                r.actors.len(),
                |k: int|
                    if r.actors[k].id == actor {
                        moved_to(r.actors[k], resolved(cells, r.actors[k].pos, dir))
                    } else {
                        r.actors[k]
                    },
            ),
            ..r
        },
        Intent::Place { actor } => {
            let a = actor_with(r.actors, actor);
            if has_actor(r.actors, actor) && a.active_devices < a.max_devices && r.next_id < u64::MAX {
                Roster {
                    actors: Seq::new(
                        r.actors.len(),
                        |k: int|
                            if r.actors[k].id == actor {
                                with_one_more(r.actors[k])
                            } else {
                                r.actors[k]
                            },
                    ),
                    devices: r.devices.push(
                        Device { id: r.next_id, owner: actor, pos: snap_point(a.pos), elapsed: 0, power: a.power },
                    ),
                    next_id: (r.next_id + 1) as u64,
                }
            } else {
                r
            }
        },
    }
}

/// The roster after the intents of `s`, in order.
pub open spec fn after_intents(r: Roster, cells: Seq<Cell>, s: Seq<Intent>) -> Roster
    decreases s.len(),
{
    if s.len() == 0 {
        r
    } else {
        after_intent(after_intents(r, cells, s.drop_last()), cells, s.last())
    }
}

/// The store after one tick of `dt` from `s` with held inputs `held` and
/// draws `draws`: intents applied, fuses advanced, the devices whose fuse
/// ran out detonated with all they chain, and blast regions aged and
/// expired.
pub open spec fn ticked(s: Sim, held: Seq<Input>, draws: Seq<u8>, dt: u64) -> Sim {
    let mid = after_intents(
        Roster { actors: s.actors, devices: s.devices, next_id: s.next_id },
        s.cells,
        controlled_intents(s.actors, held) + autonomous_intents(s.actors, draws),
    );
    let fused = Seq::new(mid.devices.len(), |k: int| fuse_advanced(mid.devices[k], dt));
    let c = cascade(
        Sim {
            actors: mid.actors,
            cells: s.cells,
            devices: fused,
            blasts: s.blasts,
            score: s.score,
            game_over: s.game_over,
            next_id: mid.next_id,
        },
        due_ids(fused),
        0,
    );
    Sim { blasts: surviving_blasts(c.blasts, dt), ..c }
}

/// `t` is the store after one tick of `dt` from `s` with held inputs
/// `held`, for some draw below the outcome count for each actor slot.
pub open spec fn random_tick(s: Sim, held: Seq<Input>, dt: u64, t: Sim) -> bool {
    exists|draws: Seq<u8>|
        draws.len() == s.actors.len() && (forall|k: int| 0 <= k < draws.len() ==> draws[k] < POLICY_OUTCOMES)
            && #[trigger] ticked(s, held, draws, dt) == t
}

impl World {
    /// The roster of this store.
    pub open spec fn roster(&self) -> Roster {
        Roster { actors: self.actors@, devices: self.devices@, next_id: self.next_id }
    }

    /// Gathers this tick's intents: the controlled actor's, then the
    /// autonomous actors'.
    pub fn gather_intents(&self, held: &Vec<Input>, draws: &Vec<u8>) -> (r: Vec<Intent>)
        requires
            self.wf(),
        ensures
            r@ == controlled_intents(self.actors@, held@) + autonomous_intents(self.actors@, draws@),
    {
        let mut out: Vec<Intent> = Vec::new();
        match self.find_controlled() {
            Some(c) => {
                let id = self.actors[c].id;
                proof {
                    let k = choose|k: int| 0 <= k < self.actors@.len() && (#[trigger] self.actors@[k]).controlled;
                    assert(k == c);
                }
                let mut i: usize = 0;
                while i < held.len()
                    invariant
                        i <= held@.len(),
                        out@ == held@.subrange(0, i as int).map_values(|x: Input| input_intent(id, x)),
                    decreases held@.len() - i,
                {
                    out.push(intent_for_input(id, held[i]));
                    proof {
                        assert(held@.subrange(0, i + 1).map_values(|x: Input| input_intent(id, x))
                            =~= held@.subrange(0, i as int).map_values(|x: Input| input_intent(id, x)).push(input_intent(id, held@[i as int])));
                    }
                    i = i + 1;
                }
                proof {
                    assert(held@.subrange(0, held@.len() as int) == held@);
                }
            },
            None => {},
        }
        let ghost first = out@;
        let mut k: usize = 0;
        while k < self.actors.len()
            invariant
                k <= self.actors@.len(),
                out@ == first + autonomous_intents(self.actors@.subrange(0, k as int), draws@),
            decreases self.actors@.len() - k,
        {
            proof {
                assert(self.actors@.subrange(0, k + 1).drop_last() == self.actors@.subrange(0, k as int));
            }
            let a = self.actors[k];
            if !a.controlled && k < draws.len() && draws[k] < POLICY_OUTCOMES {
                out.push(intent_for_draw(a.id, draws[k]));
            }
            k = k + 1;
        }
        proof {
            assert(self.actors@.subrange(0, self.actors@.len() as int) == self.actors@);
        }
        out
    }

    /// Applies intents in order: each move steps its actor, each placement
    /// asks for a device; intents of absent actors are dropped.
    pub fn apply_intents(&mut self, intents: &Vec<Intent>)
        requires
            old(self).wf(),
        ensures
            final(self).wf(),
            final(self).cells@ == old(self).cells@,
            final(self).blasts@ == old(self).blasts@,
            final(self).score == old(self).score,
            final(self).game_over == old(self).game_over,
            final(self).roster() == after_intents(old(self).roster(), old(self).cells@, intents@),
    {
        let mut i: usize = 0;
        while i < intents.len()
            invariant
                i <= intents@.len(),
                self.wf(),
                self.cells@ == old(self).cells@,
                self.blasts@ == old(self).blasts@,
                self.score == old(self).score,
                self.game_over == old(self).game_over,
                self.roster() == after_intents(old(self).roster(), old(self).cells@, intents@.subrange(0, i as int)),
            decreases intents@.len() - i,
        {
            let ghost r0 = self.roster();
            proof {
                assert(intents@.subrange(0, i + 1).drop_last() == intents@.subrange(0, i as int));
            }
            match intents[i] {
                Intent::Move { actor, dir } => {
                    self.move_actor(actor, dir);
                    proof {
                        assert(self.actors@ =~= after_intent(r0, self.cells@, intents@[i as int]).actors);
                    }
                },
                Intent::Place { actor } => {
                    let placed = self.place_device(actor);
                    proof {
                        if placed {
                            assert(self.actors@ =~= after_intent(r0, self.cells@, intents@[i as int]).actors);
                        }
                    }
                },
            }
            i = i + 1;
        }
        proof {
            assert(intents@.subrange(0, intents@.len() as int) == intents@);
        }
    }

    /// One simulation tick of `dt` with the given held inputs and one draw
    /// per actor slot: intents, movement and placement, fuse advance, the
    /// detonation cascade to its fixed point, and blast expiry.
    pub fn tick_with(&mut self, held: &Vec<Input>, draws: &Vec<u8>, dt: u64)
        requires
            old(self).wf(),
        ensures
            final(self).wf(),
            final(self).score >= old(self).score,
            old(self).game_over ==> final(self).game_over,
            forall|k: int| 0 <= k < final(self).devices@.len() ==> (#[trigger] final(self).devices@[k]).elapsed < FUSE_TICKS,
            final(self).sim() == ticked(old(self).sim(), held@, draws@, dt),
            ({
                let mid = after_intents(
                    old(self).roster(),
                    old(self).cells@,
                    controlled_intents(old(self).actors@, held@) + autonomous_intents(old(self).actors@, draws@),
                );
                let fused = Seq::new(mid.devices.len(), |k: int| fuse_advanced(mid.devices[k], dt));
                &&& cascade_closed(fused, due_ids(fused), final(self).devices@)
                &&& cascade_reachable(fused, due_ids(fused), final(self).devices@)
                &&& final(self).next_id == mid.next_id
            }),
    {
        let intents = self.gather_intents(held, draws);
        self.apply_intents(&intents);
        let ghost r = self.roster();
        let due = self.advance_fuses(dt);
        let ghost mid = self.devices@;
        proof {
            assert(mid =~= Seq::new(r.devices.len(), |k: int| fuse_advanced(r.devices[k], dt)));
            assert(old(self).roster() == Roster { actors: old(self).actors@, devices: old(self).devices@, next_id: old(self).next_id });
        }
        self.run_cascade(due);
        self.expire_blasts(dt);
        proof {
            let fin = self.devices@;
            assert forall|k: int| 0 <= k < fin.len() implies (#[trigger] fin[k]).elapsed < FUSE_TICKS by {
                assert(cascade_closed(mid, due@, fin));
                assert(mid.contains(fin[k]));
                let m = choose|m: int| 0 <= m < mid.len() && mid[m] == fin[k];
                assert(device_ok(mid[m]));
                if fin[k].elapsed == FUSE_TICKS {
                    assert(due@.contains(mid[m].id));
                    let j = choose|j: int| 0 <= j < due@.len() && due@[j] == mid[m].id;
                    assert(!has_device(fin, due@[j]));
                }
            }
        }
    }

    /// One simulation tick of `dt`, the autonomous actors drawing their
    /// intents at random.
    pub fn tick(&mut self, held: &Vec<Input>, dt: u64)
        requires
            old(self).wf(),
        ensures
            final(self).wf(),
            final(self).score >= old(self).score,
            old(self).game_over ==> final(self).game_over,
            forall|k: int| 0 <= k < final(self).devices@.len() ==> (#[trigger] final(self).devices@[k]).elapsed < FUSE_TICKS,
            random_tick(old(self).sim(), held@, dt, final(self).sim()),
    {
        let mut draws: Vec<u8> = Vec::new();
        let mut k: usize = 0;
        while k < self.actors.len()
            invariant
                k <= self.actors@.len(),
                draws@.len() == k,
                forall|m: int| 0 <= m < draws@.len() ==> draws@[m] < POLICY_OUTCOMES,
            decreases self.actors@.len() - k,
        {
            draws.push(draw_below(POLICY_OUTCOMES));
            k = k + 1;
        }
        self.tick_with(held, &draws, dt);
        proof {
            assert(ticked(old(self).sim(), held@, draws@, dt) == self.sim());
        }
    }
}

} // verus!
