//! Fuse countdowns of devices and the lifetime of blast regions.
use vstd::prelude::*;
use crate::world::{blast_ok, device_ok, lemma_owned_count_same_owners, owned_count, Blast, Device, World, BLAST_TICKS, FUSE_TICKS};

verus! {

/// A timer at `elapsed` advanced by `dt`, stopping at `limit`.
pub open spec fn advanced(elapsed: u64, dt: u64, limit: u64) -> u64 {
    if elapsed + dt >= limit {
        limit
    } else {
        (elapsed + dt) as u64
    }
}

/// Advances a timer at `elapsed` by `dt`, stopping at `limit`.
pub fn advance(elapsed: u64, dt: u64, limit: u64) -> (r: u64)
    requires
        elapsed <= limit,
    ensures
        r == advanced(elapsed, dt, limit),
{
    if dt >= limit - elapsed {
        limit
    } else {
        elapsed + dt
    }
}

/// The blast regions of `blasts` still alive after `dt` more ticks, with
/// their timers advanced.
pub open spec fn surviving_blasts(blasts: Seq<Blast>, dt: u64) -> Seq<Blast>
    decreases blasts.len(),
{
    if blasts.len() == 0 {
        seq![]
    } else {
        let rest = surviving_blasts(blasts.drop_last(), dt);
        let b = blasts.last();
        let e = advanced(b.elapsed, dt, BLAST_TICKS);
        if e >= BLAST_TICKS {
            rest
        } else {
            rest.push(Blast { elapsed: e, ..b })
        }
    }
}

/// Some device of `devs` with identity `x` has its fuse run out.
pub open spec fn is_due_id(devs: Seq<Device>, x: u64) -> bool {
    exists|m: int| 0 <= m < devs.len() && devs[m].id == x && devs[m].elapsed == FUSE_TICKS
}

/// Identities of the devices of `devs` whose fuse has run out, in order.
pub open spec fn due_ids(devs: Seq<Device>) -> Seq<u64>
    decreases devs.len(),
{
    if devs.len() == 0 {
        seq![]
    } else {
        let rest = due_ids(devs.drop_last());
        if devs.last().elapsed == FUSE_TICKS {
            rest.push(devs.last().id)
        } else {
            rest
        }
    }
}

/// Device `d` with its fuse advanced by `dt`.
pub open spec fn fuse_advanced(d: Device, dt: u64) -> Device {
    Device { elapsed: advanced(d.elapsed, dt, FUSE_TICKS), ..d }
}

proof fn lemma_surviving_ok(blasts: Seq<Blast>, dt: u64)
    requires
        forall|k: int| 0 <= k < blasts.len() ==> blast_ok(#[trigger] blasts[k]),
    ensures
        forall|k: int| 0 <= k < surviving_blasts(blasts, dt).len() ==> blast_ok(#[trigger] surviving_blasts(blasts, dt)[k]),
        forall|k: int| 0 <= k < surviving_blasts(blasts, dt).len() ==> (#[trigger] surviving_blasts(blasts, dt)[k]).elapsed < BLAST_TICKS,
    decreases blasts.len(),
{
    if blasts.len() > 0 {
        let p = blasts.drop_last();
        assert forall|k: int| 0 <= k < p.len() implies blast_ok(#[trigger] p[k]) by {
            assert(p[k] == blasts[k]);
        }
        lemma_surviving_ok(p, dt);
        assert(blast_ok(blasts[blasts.len() - 1]));
        let r = surviving_blasts(blasts, dt);
        let q = surviving_blasts(p, dt);
        assert forall|k: int| 0 <= k < r.len() implies blast_ok(#[trigger] r[k]) && r[k].elapsed < BLAST_TICKS by {
            if k < q.len() {
                assert(r[k] == q[k]);
            }
        }
    }
}

impl World {
    /// Advances every blast region's timer by `dt`; those whose lifetime is
    /// reached are removed.
    pub fn expire_blasts(&mut self, dt: u64)
        requires
            old(self).wf(),
        ensures
            final(self).wf(),
            final(self).blasts@ == surviving_blasts(old(self).blasts@, dt),
            final(self).actors@ == old(self).actors@,
            final(self).cells@ == old(self).cells@,
            final(self).devices@ == old(self).devices@,
            final(self).score == old(self).score,
            final(self).game_over == old(self).game_over,
            final(self).next_id == old(self).next_id,
    {
        let mut kept: Vec<Blast> = Vec::new();
        let mut k: usize = 0;
        while k < self.blasts.len()
            invariant
                k <= self.blasts@.len(),
                self.blasts@ == old(self).blasts@,
                forall|m: int| 0 <= m < self.blasts@.len() ==> blast_ok(#[trigger] self.blasts@[m]),
                kept@ == surviving_blasts(self.blasts@.subrange(0, k as int), dt),
            decreases self.blasts@.len() - k,
        {
            proof {
                assert(self.blasts@.subrange(0, k + 1).drop_last() == self.blasts@.subrange(0, k as int));
                assert(blast_ok(self.blasts@[k as int]));
            }
            let b = self.blasts[k];
            let e = advance(b.elapsed, dt, BLAST_TICKS);
            if e < BLAST_TICKS {
                kept.push(Blast { elapsed: e, ..b });
            }
            k = k + 1;
        }
        proof {
            assert(self.blasts@.subrange(0, self.blasts@.len() as int) == self.blasts@);
            lemma_surviving_ok(self.blasts@, dt);
        }
        self.blasts = kept;
    }

    /// Advances every device's fuse by `dt` and returns, in store order, the
    /// identities of the devices whose fuse has run out.
    pub fn advance_fuses(&mut self, dt: u64) -> (due: Vec<u64>)
        requires
            old(self).wf(),
        ensures
            final(self).wf(),
            final(self).devices@.len() == old(self).devices@.len(),
            forall|k: int|
                0 <= k < old(self).devices@.len() ==> #[trigger] final(self).devices@[k] == fuse_advanced(
                    old(self).devices@[k],
                    dt,
                ),
            forall|k: int|
                0 <= k < final(self).devices@.len() && (#[trigger] final(self).devices@[k]).elapsed == FUSE_TICKS
                    ==> due@.contains(final(self).devices@[k].id),
            forall|j: int| 0 <= j < due@.len() ==> is_due_id(final(self).devices@, #[trigger] due@[j]),
            due@ == due_ids(final(self).devices@),
            final(self).actors@ == old(self).actors@,
            final(self).cells@ == old(self).cells@,
            final(self).blasts@ == old(self).blasts@,
            final(self).score == old(self).score,
            final(self).game_over == old(self).game_over,
            final(self).next_id == old(self).next_id,
    {
        let mut due: Vec<u64> = Vec::new();
        let mut k: usize = 0;
        let ghost before = self.devices@;
        while k < self.devices.len()
            invariant
                k <= self.devices@.len(),
                self.devices@.len() == before.len(),
                before == old(self).devices@,
                self.actors@ == old(self).actors@,
                self.cells@ == old(self).cells@,
                self.blasts@ == old(self).blasts@,
                self.score == old(self).score,
                self.game_over == old(self).game_over,
                self.next_id == old(self).next_id,
                old(self).wf(),
                forall|m: int| 0 <= m < k ==> #[trigger] self.devices@[m] == fuse_advanced(before[m], dt),
                forall|m: int| k <= m < before.len() ==> #[trigger] self.devices@[m] == before[m],
                forall|m: int|
                    0 <= m < k && (#[trigger] self.devices@[m]).elapsed == FUSE_TICKS ==> due@.contains(self.devices@[m].id),
                forall|j: int|
                    0 <= j < due@.len() ==> is_due_id(self.devices@.subrange(0, k as int), #[trigger] due@[j]),
                due@ == due_ids(self.devices@.subrange(0, k as int)),
            decreases before.len() - k,
        {
            let d = self.devices[k];
            proof {
                assert(device_ok(before[k as int]));
            }
            let e = advance(d.elapsed, dt, FUSE_TICKS);
            let ghost due0 = due@;
            let ghost devs0 = self.devices@;
            self.devices.set(k, Device { elapsed: e, ..d });
            if e == FUSE_TICKS {
                due.push(d.id);
            }
            proof {
                assert(self.devices@.subrange(0, k + 1).drop_last() =~= devs0.subrange(0, k as int));
                assert forall|j: int| 0 <= j < due@.len() implies is_due_id(self.devices@.subrange(0, k + 1), #[trigger] due@[j]) by {
                    let pre = self.devices@.subrange(0, k + 1);
                    if j < due0.len() {
                        assert(due@[j] == due0[j]);
                        assert(is_due_id(devs0.subrange(0, k as int), due0[j]));
                        let m = choose|m: int|
                            0 <= m < k && devs0.subrange(0, k as int)[m].id == due0[j] && devs0.subrange(0, k as int)[m].elapsed == FUSE_TICKS;
                        assert(pre[m] == devs0[m]);
                    } else {
                        assert(pre[k as int] == self.devices@[k as int]);
                    }
                }
                assert forall|m: int| 0 <= m < k + 1 implies #[trigger] self.devices@[m] == fuse_advanced(before[m], dt) by {
                    if m < k {
                        assert(self.devices@[m] == devs0[m]);
                    }
                }
                assert forall|m: int| k + 1 <= m < before.len() implies #[trigger] self.devices@[m] == before[m] by {
                    assert(self.devices@[m] == devs0[m]);
                }
                assert forall|m: int|
                    0 <= m < k + 1 && (#[trigger] self.devices@[m]).elapsed == FUSE_TICKS implies due@.contains(self.devices@[m].id) by {
                    if m < k {
                        assert(self.devices@[m] == devs0[m]);
                        let j = choose|j: int| 0 <= j < due0.len() && due0[j] == devs0[m].id;
                        assert(due@[j] == due0[j]);
                    } else {
                        assert(due@[due@.len() - 1] == d.id);
                    }
                }
            }
            k = k + 1;
        }
        proof {
            let devs = self.devices@;
            assert(devs.subrange(0, devs.len() as int) == devs);
            assert forall|i: int| 0 <= i < self.actors@.len() implies self.actors@[i].active_devices == owned_count(
                devs,
                (#[trigger] self.actors@[i]).id,
            ) by {
                lemma_owned_count_same_owners(devs, before, self.actors@[i].id);
            }
            assert forall|i: int, j: int|
                0 <= i < devs.len() && 0 <= j < devs.len() && i != j implies (#[trigger] devs[i]).id
                    != (#[trigger] devs[j]).id by {
                assert(devs[i].id == before[i].id && devs[j].id == before[j].id);
            }
            assert forall|i: int| 0 <= i < devs.len() implies device_ok(#[trigger] devs[i]) && devs[i].id < self.next_id
                && devs[i].owner < self.next_id by {
                assert(device_ok(before[i]));
            }
        }
        due
    }
}

} // verus!
