//! The RUNTIME code-region collector's bookkeeping: two-generation aging, the
//! single-flight aging gate, the cooperative drain (epochs, per-process acks and
//! the completion count), freeing a drained generation, and the adaptive
//! collection threshold.

use vstd::prelude::*;
use std::collections::HashMap;
use crate::heap::{Heap, DRAIN_REPORT_STRIDE, RT_DRAIN_SCAN_STRIDE, RT_GC_FLOOR};
use crate::runtime_code::{CodeSlabs, RuntimeCode};

verus! {

broadcast use vstd::std_specs::hash::group_hash_axioms;

impl Heap {
    /// Number of closures in the current RUNTIME code generation.
    pub fn runtime_closure_count(&self) -> (r: usize)
        requires
            self.wf(),
        ensures
            r == self.runtime.spec_gen(self.runtime.current_gen as int).closures@.len(),
    {
        self.runtime.gen_slabs(self.runtime.cur_gen()).closures.len()
    }

    /// How many times this runtime has aged.
    pub fn runtime_aged_count(&self) -> (r: u64)
        ensures
            r == self.runtime.aged_count,
    {
        self.runtime.aged_count
    }

    /// The RUNTIME code region's current generation slot (0 or 1).
    pub fn runtime_cur_gen(&self) -> (r: usize)
        ensures
            r == self.runtime.current_gen,
    {
        self.runtime.cur_gen()
    }

    /// Start a fresh code generation: flip the current generation into the other
    /// slot, but only when that slot is empty (its previous generation fully
    /// reclaimed). Returns whether it aged.
    pub fn age_runtime(&mut self) -> (r: bool)
        requires
            old(self).wf(),
        ensures
            final(self).wf(),
            r == old(self).runtime.spec_gen(1 - old(self).runtime.current_gen).spec_is_empty(),
            r ==> final(self).runtime == (RuntimeCode {
                current_gen: (1 - old(self).runtime.current_gen) as usize,
                aged_count: old(self).runtime.aged_count.wrapping_add(1),
                ..old(self).runtime
            }),
            !r ==> final(self).runtime == old(self).runtime,
            final(self).same_but_runtime(&*old(self)),
    {
        let other = 1 - self.runtime.cur_gen();
        if !self.runtime.gen_slabs(other).is_empty() {
            return false;
        }
        self.runtime.current_gen = other;
        self.runtime.aged_count = self.runtime.aged_count.wrapping_add(1);
        true
    }

    /// Claim the exclusive right to run an aging or freeing cycle. Returns `true`
    /// to the one winner; a loser skips this safepoint.
    pub fn begin_aging(&mut self) -> (r: bool)
        requires
            old(self).wf(),
        ensures
            final(self).wf(),
            r == !old(self).runtime.aging,
            final(self).runtime == (RuntimeCode { aging: true, ..old(self).runtime }),
            final(self).same_but_runtime(&*old(self)),
    {
        if self.runtime.aging {
            false
        } else {
            self.runtime.aging = true;
            true
        }
    }

    /// Release the single-flight aging gate.
    pub fn end_aging(&mut self)
        requires
            old(self).wf(),
        ensures
            final(self).wf(),
            final(self).runtime == (RuntimeCode { aging: false, ..old(self).runtime }),
            final(self).same_but_runtime(&*old(self)),
    {
        self.runtime.aging = false;
    }

    /// Arm a cooperative drain of the aged-out generation `old_gen`: advance the
    /// drain epoch (so no ack from a prior drain counts), clear the ack table and
    /// the completion count, and mark the drain active. Returns the new epoch. The
    /// arming process's self-report fires on its very next safepoint.
    pub fn begin_gen_drain(&mut self, old_gen: usize) -> (r: u64)
        requires
            old(self).wf(),
            old_gen < 2,
        ensures
            final(self).wf(),
            r == old(self).runtime.drain_epoch.wrapping_add(1),
            final(self).runtime == (RuntimeCode {
                drain_gen: old_gen,
                drain_epoch: r,
                drain_acks: final(self).runtime.drain_acks,
                drain_acked: 0,
                drain_active: true,
                ..old(self).runtime
            }),
            final(self).runtime.drain_acks@ == Map::<u64, u64>::empty(),
            final(self).drain_report_tick == (DRAIN_REPORT_STRIDE - 1) as u64,
            final(self).acked_drain_epoch == old(self).acked_drain_epoch,
            final(self).cold == old(self).cold,
    {
        self.runtime.drain_gen = old_gen;
        let epoch = self.runtime.drain_epoch.wrapping_add(1);
        self.runtime.drain_epoch = epoch;
        self.runtime.drain_acks.clear();
        self.runtime.drain_acked = 0;
        self.runtime.drain_active = true;
        self.drain_report_tick = DRAIN_REPORT_STRIDE - 1;
        epoch
    }

    /// Disarm the current drain. The epoch is left advanced; the ack table is
    /// cleared.
    pub fn end_gen_drain(&mut self)
        requires
            old(self).wf(),
        ensures
            final(self).wf(),
            final(self).runtime == (RuntimeCode {
                drain_active: false,
                drain_acks: final(self).runtime.drain_acks,
                ..old(self).runtime
            }),
            final(self).runtime.drain_acks@ == Map::<u64, u64>::empty(),
            final(self).same_but_runtime(&*old(self)),
    {
        self.runtime.drain_active = false;
        self.runtime.drain_acks.clear();
    }

    /// Is a cooperative generation drain currently armed?
    pub fn drain_active(&self) -> (r: bool)
        ensures
            r == self.runtime.drain_active,
    {
        self.runtime.drain_active
    }

    /// Distinct processes that have reported clean for the current drain epoch.
    pub fn drain_acked_count(&self) -> (r: u64)
        ensures
            r == self.runtime.drain_acked,
    {
        self.runtime.drain_acked
    }

    /// Account a process exit against the drain-completion count: if the exiting
    /// process had acked the current epoch, drop its ack. A no-op when no drain is
    /// armed.
    pub fn drain_note_exit(&mut self, pid: u64)
        requires
            old(self).wf(),
        ensures
            final(self).wf(),
            !old(self).runtime.drain_active ==> final(self).runtime == old(self).runtime,
            old(self).runtime.drain_active ==> final(self).runtime == (RuntimeCode {
                drain_acks: final(self).runtime.drain_acks,
                drain_acked: final(self).runtime.drain_acked,
                ..old(self).runtime
            }),
            old(self).runtime.drain_active ==> final(self).runtime.drain_acks@ == old(self).runtime.drain_acks@.remove(pid),
            old(self).runtime.drain_active ==> final(self).runtime.drain_acked == if old(self).runtime.drain_acks@.contains_key(pid) {
                (old(self).runtime.drain_acked - 1) as u64
            } else {
                old(self).runtime.drain_acked
            },
            final(self).same_but_runtime(&*old(self)),
    {
        if !self.runtime.drain_active {
            return;
        }
        let epoch = self.runtime.drain_epoch;
        let removed = self.runtime.drain_acks.remove(&pid);
        proof {
            if old(self).runtime.drain_acks@.contains_key(pid) {
                old(self).runtime.drain_acks@.lemma_remove_key_len(pid);
            } else {
                assert(old(self).runtime.drain_acks@.remove(pid) =~= old(self).runtime.drain_acks@);
            }
        }
        match removed {
            Some(e) => {
                if e == epoch {
                    self.runtime.drain_acked = self.runtime.drain_acked - 1;
                }
            },
            None => {},
        }
    }

    /// Has the RUNTIME region grown since the safepoint last probed it?
    pub fn rt_dirty(&self) -> (r: bool)
        ensures
            r == self.runtime.rt_dirty,
    {
        self.runtime.rt_dirty
    }

    /// Clear the RUNTIME-churn dirty bit.
    pub fn rt_dirty_clear(&mut self)
        requires
            old(self).wf(),
        ensures
            final(self).wf(),
            final(self).runtime == (RuntimeCode { rt_dirty: false, ..old(self).runtime }),
            final(self).same_but_runtime(&*old(self)),
    {
        self.runtime.rt_dirty = false;
    }

    /// The current drain's `(epoch, generation)` read as one snapshot.
    pub fn drain_identity(&self) -> (r: (u64, usize))
        ensures
            r == (self.runtime.drain_epoch, self.runtime.drain_gen),
    {
        (self.runtime.drain_epoch, self.runtime.drain_gen)
    }

    /// The generation currently being drained.
    pub fn drain_gen(&self) -> (r: usize)
        ensures
            r == self.runtime.drain_gen,
    {
        self.runtime.drain_gen
    }

    /// Should this safepoint run its drain self-report? Advances the throttle tick
    /// and answers true once every [`DRAIN_REPORT_STRIDE`] ticks.
    pub fn drain_report_due(&mut self) -> (r: bool)
        requires
            old(self).wf(),
        ensures
            final(self).wf(),
            final(self).drain_report_tick == old(self).drain_report_tick.wrapping_add(1),
            r == (final(self).drain_report_tick % DRAIN_REPORT_STRIDE == 0),
            final(self).runtime == old(self).runtime,
            final(self).cold == old(self).cold,
    {
        let t = self.drain_report_tick.wrapping_add(1);
        self.drain_report_tick = t;
        t % DRAIN_REPORT_STRIDE == 0
    }

    /// Is the draining generation dead: is a drain armed and has every live process
    /// reported clean for the current drain epoch?
    pub fn gen_drained(&self, live_pids: &[u64]) -> (r: bool)
        ensures
            r == (self.runtime.drain_active && forall|i: int|
                0 <= i < live_pids@.len() ==> self.runtime.drain_acks@.contains_key(
                    #[trigger] live_pids@[i],
                ) && self.runtime.drain_acks@[live_pids@[i]] == self.runtime.drain_epoch),
    {
        if !self.runtime.drain_active {
            return false;
        }
        let epoch = self.runtime.drain_epoch;
        let mut i: usize = 0;
        while i < live_pids.len()
            invariant
                i <= live_pids@.len(),
                epoch == self.runtime.drain_epoch,
                forall|j: int|
                    0 <= j < i ==> self.runtime.drain_acks@.contains_key(#[trigger] live_pids@[j])
                        && self.runtime.drain_acks@[live_pids@[j]] == epoch,
            decreases live_pids@.len() - i,
        {
            match self.runtime.drain_acks.get(&live_pids[i]) {
                Some(e) => {
                    if *e != epoch {
                        return false;
                    }
                },
                None => {
                    return false;
                },
            }
            i = i + 1;
        }
        true
    }

    /// Should the next safepoint attempt a RUNTIME collection? True once the
    /// current generation's closure count reaches the adaptive threshold, when this
    /// heap collects automatically and no suppression window is open.
    pub fn rt_gc_due(&self) -> (r: bool)
        requires
            self.wf(),
        ensures
            r == (self.gc_enabled && self.rt_collect_block == 0 && self.runtime.spec_gen(
                self.runtime.current_gen as int,
            ).closures@.len() >= self.rt_gc_threshold),
    {
        self.gc_enabled && self.rt_collect_block == 0 && self.runtime_closure_count()
            >= self.rt_gc_threshold
    }

    /// Enter a window in which RUNTIME compaction is suppressed (re-entrant).
    pub fn begin_rt_collect_block(&mut self)
        requires
            old(self).wf(),
        ensures
            final(self).wf(),
            final(self).rt_collect_block == old(self).rt_collect_block.saturating_add(1),
            final(self).runtime == old(self).runtime,
            final(self).cold == old(self).cold,
    {
        self.rt_collect_block = self.rt_collect_block.saturating_add(1);
    }

    /// Leave a suppression window.
    pub fn end_rt_collect_block(&mut self)
        requires
            old(self).wf(),
        ensures
            final(self).wf(),
            final(self).rt_collect_block == old(self).rt_collect_block.saturating_sub(1),
            final(self).runtime == old(self).runtime,
            final(self).cold == old(self).cold,
    {
        self.rt_collect_block = self.rt_collect_block.saturating_sub(1);
    }

    /// Turn the automatic RUNTIME collection on (threshold at the floor) or off
    /// (threshold at `usize::MAX`).
    pub fn set_rt_auto_collect(&mut self, on: bool)
        requires
            old(self).wf(),
        ensures
            final(self).wf(),
            final(self).rt_gc_threshold == if on {
                RT_GC_FLOOR
            } else {
                usize::MAX
            },
            final(self).runtime == old(self).runtime,
            final(self).cold == old(self).cold,
    {
        self.rt_gc_threshold = if on {
            RT_GC_FLOOR
        } else {
            usize::MAX
        };
    }

    /// Drop every per-process cache that keys on or holds RUNTIME handles.
    pub fn clear_process_caches(&mut self)
        requires
            old(self).wf(),
        ensures
            final(self).wf(),
            final(self).vm_cache_runtime@ == Map::<u64, Option<std::sync::Arc<crate::vm_cache::CompiledClosure>>>::empty(),
            final(self).vm_cache_body@ == Map::<u64, Option<std::sync::Arc<crate::vm_cache::CompiledClosure>>>::empty(),
            final(self).global_ic@ == Map::<u32, crate::value::Value>::empty(),
            final(self).vm_call_ics@.len() == 0,
            final(self).vm_fast_links@.len() == 0,
            final(self).vm_global_ics@.len() == 0,
            final(self).arm_ic_blocks@ == Map::<u64, (u32, u32)>::empty(),
            final(self).runtime == old(self).runtime,
            final(self).cold == old(self).cold,
            final(self).roots == old(self).roots,
            final(self).local == old(self).local,
            final(self).acked_drain_epoch == old(self).acked_drain_epoch,
            final(self).seen_free_epoch == old(self).seen_free_epoch,
            final(self).cur_ic_base == old(self).cur_ic_base,
            final(self).cur_gic_base == old(self).cur_gic_base,
            final(self).live_vm_arms == old(self).live_vm_arms,
            final(self).rt_gc_threshold == old(self).rt_gc_threshold,
            final(self).rt_collect_block == old(self).rt_collect_block,
            final(self).gc_enabled == old(self).gc_enabled,
    {
        self.vm_cache_runtime.clear();
        self.vm_cache_body.clear();
        self.global_ic.clear();
        self.vm_call_ics.clear();
        self.vm_fast_links.clear();
        self.vm_global_ics.clear();
        self.arm_ic_blocks.clear();
    }

    /// Reclaim the aged-out generation `old_gen` by replacing it with an empty one.
    /// Single-flighted through the aging gate. Runs only when the caller owns the
    /// armed drain (its epoch and generation) or no drain is armed, and only when
    /// `old_gen` is not the current generation, not already empty, and has no
    /// shared-closure message in flight against it. A free bumps
    /// the version and the free epoch, drops this process's caches, and ends the
    /// drain it owned. Returns whether it freed.
    pub fn free_runtime_gen(&mut self, old_gen: usize, epoch: u64) -> (r: bool)
        requires
            old(self).wf(),
            old_gen < 2,
        ensures
            final(self).wf(),
            r == (!old(self).runtime.aging && (!old(self).runtime.drain_active || (
            old(self).runtime.drain_epoch == epoch && old(self).runtime.drain_gen == old_gen))
                && old_gen != old(self).runtime.current_gen && !old(self).runtime.spec_gen(
                old_gen as int,
            ).spec_is_empty() && old(self).runtime.gen_inflight[old_gen as int] == 0),
            !r ==> final(self).runtime == old(self).runtime,
            !r ==> final(self).same_but_runtime(&*old(self)),
            r ==> final(self).runtime.spec_gen(old_gen as int).spec_is_empty(),
            r ==> final(self).runtime.spec_gen(1 - old_gen) == old(self).runtime.spec_gen(
                1 - old_gen,
            ),
            r ==> final(self).runtime.current_gen == old(self).runtime.current_gen,
            r ==> final(self).runtime.globals == old(self).runtime.globals,
            r ==> final(self).runtime.version == old(self).runtime.version.wrapping_add(1),
            r ==> final(self).runtime.free_epoch == old(self).runtime.free_epoch.wrapping_add(
                1,
            ),
            r ==> final(self).runtime.gen_version == old(self).runtime.gen_version.wrapping_add(
                1,
            ),
            r ==> final(self).seen_free_epoch == final(self).runtime.free_epoch,
            r ==> final(self).vm_call_ics@.len() == 0 && final(self).vm_global_ics@.len() == 0,
            r ==> final(self).global_ic@ == Map::<u32, crate::value::Value>::empty(),
            r && old(self).runtime.drain_active ==> !final(self).runtime.drain_active
                && final(self).runtime.drain_acks@ == Map::<u64, u64>::empty(),
            r && !old(self).runtime.drain_active ==> !final(self).runtime.drain_active,
            r ==> final(self).runtime.drain_epoch == old(self).runtime.drain_epoch,
            r ==> final(self).runtime.drain_gen == old(self).runtime.drain_gen,
            final(self).runtime.aging == old(self).runtime.aging,
            final(self).cold == old(self).cold,
    {
        if !self.begin_aging() {
            return false;
        }
        let drain_armed = self.runtime.drain_active;
        let owns_drain = drain_armed && self.runtime.drain_epoch == epoch && self.runtime.drain_gen
            == old_gen;
        let ok = (owns_drain || !drain_armed) && old_gen != self.runtime.cur_gen()
            && !self.runtime.gen_slabs(old_gen).is_empty() && !self.gen_has_inflight(old_gen);
        if !ok {
            self.end_aging();
            return false;
        }
        self.free_runtime_gen_locked(old_gen, owns_drain);
        self.end_aging();
        true
    }

    /// The destructive half of [`free_runtime_gen`], run with the aging gate held.
    fn free_runtime_gen_locked(&mut self, old_gen: usize, owns_drain: bool)
        requires
            old(self).wf(),
            old_gen < 2,
            owns_drain ==> old(self).runtime.drain_active,
            !owns_drain ==> !old(self).runtime.drain_active,
        ensures
            final(self).wf(),
            final(self).runtime.spec_gen(old_gen as int).spec_is_empty(),
            final(self).runtime.spec_gen(1 - old_gen) == old(self).runtime.spec_gen(1 - old_gen),
            final(self).runtime.current_gen == old(self).runtime.current_gen,
            final(self).runtime.globals == old(self).runtime.globals,
            final(self).runtime.version == old(self).runtime.version.wrapping_add(1),
            final(self).runtime.free_epoch == old(self).runtime.free_epoch.wrapping_add(1),
            final(self).runtime.gen_version == old(self).runtime.gen_version.wrapping_add(1),
            final(self).seen_free_epoch == final(self).runtime.free_epoch,
            final(self).vm_call_ics@.len() == 0 && final(self).vm_global_ics@.len() == 0,
            final(self).global_ic@ == Map::<u32, crate::value::Value>::empty(),
            !final(self).runtime.drain_active,
            owns_drain ==> final(self).runtime.drain_acks@ == Map::<u64, u64>::empty(),
            final(self).runtime.drain_epoch == old(self).runtime.drain_epoch,
            final(self).runtime.drain_gen == old(self).runtime.drain_gen,
            final(self).runtime.aging == old(self).runtime.aging,
            final(self).cold == old(self).cold,
    {
        if old_gen == 0 {
            self.runtime.gen0 = CodeSlabs::new();
        } else {
            self.runtime.gen1 = CodeSlabs::new();
        }
        self.runtime.gen_version = self.runtime.gen_version.wrapping_add(1);
        self.runtime.version = self.runtime.version.wrapping_add(1);
        self.runtime.free_epoch = self.runtime.free_epoch.wrapping_add(1);
        self.clear_process_caches();
        self.seen_free_epoch = self.runtime.free_epoch;
        self.runtime.shared_closures.clear();
        if owns_drain {
            self.end_gen_drain();
        }
    }
}

} // verus!
