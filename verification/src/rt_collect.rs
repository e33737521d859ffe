//! The RUNTIME collector's single-process compaction: the current generation is
//! copied into a fresh region from every root that can hold a handle into it,
//! every holder is rewritten to the copy, the per-process caches are dropped and
//! the copy installed.

use vstd::prelude::*;
use std::collections::HashMap;
use std::sync::Arc;
use vstd::std_specs::iter::IteratorSpec;
use crate::value::{Value, EnvId, Symbol, RUNTIME};
use crate::heap::{Heap, RT_GC_FLOOR};
use crate::runtime_code::{CodeSlabs, FormPos, RuntimeCode, spec_rt_pos_key, rt_pos_key};
use crate::vm_cache::CompiledArm;
use crate::reach::{NodeKind, slab_len, Item, reachable, node_of, children, vals, var_vals, env_items, lemma_child_reachable, lemma_seed_reachable};
use crate::flush::{
    RuntimeForward, table, fwd_wf, flushed, fwd_value, done, all_done, vars_done, fvals, fvars,
    in_src, env_in_src, src_closed, covered, has_image, lemma_flushed_refl, lemma_flushed_trans,
    lemma_src_closed_ext, lemma_vals_stable, lemma_fwd_stable, lemma_vars_stable,
};
use crate::collect::{
    all_copied, lemma_all_copied_step, flush_values, flush_envs, flush_bindings, flush_table,
    rewrite_local_rt_handles, slabs_rewritten, holds_in_src, fenvs, envs_done, copy_values, slabs_in,
    lemma_table_stable, lemma_envs_stable, lemma_slabs_stable,
};
use crate::flush::{ext, lemma_ext_trans, nones, total_nones, flush_rt_value, frame, closed_set, val_in, env_in, opt_env_in, copies_within, is_src, val_node, lemma_closed_ext, lemma_within_trans};

verus! {

/// A forwarding that moves handles of region `region` (generation `g` when that
/// is the RUNTIME region); its tables play no part in which handles move.
pub open spec fn gen_fwd(region: u8, g: usize) -> RuntimeForward {
    RuntimeForward {
        src_region: region,
        old_gen: g,
        dest_gen: vstd::pervasive::arbitrary(),
        pairs: vstd::pervasive::arbitrary(),
        vectors: vstd::pervasive::arbitrary(),
        maps: vstd::pervasive::arbitrary(),
        closures: vstd::pervasive::arbitrary(),
        envs: vstd::pervasive::arbitrary(),
    }
}

/// Every holder of a heap that can hold a RUNTIME handle holds, where the copy
/// moves it, a handle inside `src`.
pub open spec fn heap_holds_in(h: Heap, src: CodeSlabs, f: RuntimeForward) -> bool {
    &&& forall|k: Symbol| #[trigger] h.runtime.globals@.contains_key(k) ==> in_src(src, f, h.runtime.globals@[k])
    &&& forall|k: Symbol| #[trigger] h.runtime.declared_sigs@.contains_key(k) ==> in_src(src, f, h.runtime.declared_sigs@[k])
    &&& forall|i: int| 0 <= i < h.roots@.len() ==> in_src(src, f, #[trigger] h.roots@[i])
    &&& forall|i: int| 0 <= i < h.env_roots@.len() ==> env_in_src(src, f, #[trigger] h.env_roots@[i])
    &&& forall|i: int| 0 <= i < h.dynamics@.len() ==> in_src(src, f, (#[trigger] h.dynamics@[i]).1)
    &&& holds_in_src(src, f, h.local)
    &&& forall|i: int, j: int|
        0 <= i < h.live_vm_arms@.len() && 0 <= j < h.live_vm_arms@[i].consts@.len() ==> in_src(src, f, #[trigger] h.live_vm_arms@[i].consts@[j])
}

/// What a compaction through `f` made of the heap `h0`: every holder rewritten
/// to the copy, the compacted generation holding exactly the copies, finished,
/// and nothing copied that the compaction's roots do not reach.
pub open spec fn compacted(h0: Heap, h1: Heap, f: RuntimeForward, x0: Seq<Value>, x1: Seq<Value>, e0: Seq<EnvId>, e1: Seq<EnvId>) -> bool {
    &&& f.src_region == RUNTIME
    &&& f.old_gen == 0
    &&& f.dest_gen == 0
    &&& fwd_wf(h0.runtime.gen0, h1.runtime.gen0, f)
    &&& all_copied(h0.runtime.gen0, h1.runtime.gen0, f)
    &&& forall|k: NodeKind, j: int| 0 <= j < slab_len(h1.runtime.gen0, k) ==> #[trigger] has_image(f, k, j)
    &&& h1.runtime.globals@.dom() == h0.runtime.globals@.dom()
    &&& forall|k: Symbol| #[trigger] h0.runtime.globals@.contains_key(k) ==> done(f, h0.runtime.globals@[k])
        && h1.runtime.globals@[k] == fwd_value(f, h0.runtime.globals@[k])
    &&& h1.runtime.declared_sigs@.dom() == h0.runtime.declared_sigs@.dom()
    &&& forall|k: Symbol| #[trigger] h0.runtime.declared_sigs@.contains_key(k) ==> done(f, h0.runtime.declared_sigs@[k])
        && h1.runtime.declared_sigs@[k] == fwd_value(f, h0.runtime.declared_sigs@[k])
    &&& all_done(f, h0.roots@) && h1.roots@ == fvals(f, h0.roots@)
    &&& envs_done(f, h0.env_roots@) && h1.env_roots@ == fenvs(f, h0.env_roots@)
    &&& vars_done(f, h0.dynamics@) && h1.dynamics@ == fvars(f, h0.dynamics@)
    &&& all_done(f, x0) && x1 == fvals(f, x0)
    &&& envs_done(f, e0) && e1 == fenvs(f, e0)
    &&& slabs_rewritten(f, h0.local, h1.local)
    &&& forall|k: NodeKind, i: int| 0 <= i < table(f, k).len() && #[trigger] table(f, k)[i] is Some
        ==> reach_set(&h0.runtime, collect_seeds(h0, x0, e0), 0).contains((k, i))
    &&& h1.live_vm_arms@.len() == h0.live_vm_arms@.len()
    &&& forall|i: int| 0 <= i < h0.live_vm_arms@.len() ==> all_done(f, (#[trigger] h0.live_vm_arms@[i]).consts@)
        && h1.live_vm_arms@[i].consts@ == fvals(f, h0.live_vm_arms@[i].consts@)
        && h1.live_vm_arms@[i].uid == h0.live_vm_arms@[i].uid
        && h1.live_vm_arms@[i].argc == h0.live_vm_arms@[i].argc
        && h1.live_vm_arms@[i].nsites == h0.live_vm_arms@[i].nsites
        && h1.live_vm_arms@[i].ngsites == h0.live_vm_arms@[i].ngsites
}

/// Rewrites the literals of every live compiled arm through the copy.
fn rewrite_arms(src: &CodeSlabs, dst: &mut CodeSlabs, f: &mut RuntimeForward, arms: &mut Vec<Arc<CompiledArm>>)
    requires
        fwd_wf(*src, *old(dst), *old(f)),
        src_closed(*src, *old(f)),
        forall|i: int, j: int|
            0 <= i < old(arms)@.len() && 0 <= j < old(arms)@[i].consts@.len() ==> in_src(*src, *old(f), #[trigger] old(arms)@[i].consts@[j]),
    ensures
        flushed(*src, *old(dst), *old(f), *final(dst), *final(f)),
        final(arms)@.len() == old(arms)@.len(),
        forall|i: int| 0 <= i < old(arms)@.len() ==> all_done(*final(f), (#[trigger] old(arms)@[i]).consts@)
            && final(arms)@[i].consts@ == fvals(*final(f), old(arms)@[i].consts@)
            && final(arms)@[i].uid == old(arms)@[i].uid
            && final(arms)@[i].argc == old(arms)@[i].argc
            && final(arms)@[i].nsites == old(arms)@[i].nsites
            && final(arms)@[i].ngsites == old(arms)@[i].ngsites,
        forall|s: Set<(NodeKind, int)>| #[trigger] closed_set(*src, *old(f), s)
            && (forall|a: int, b: int| 0 <= a < old(arms)@.len() && 0 <= b < old(arms)@[a].consts@.len()
                ==> val_in(*old(f), s, #[trigger] old(arms)@[a].consts@[b]))
            ==> copies_within(*old(f), *final(f), s),
{
    let ghost f0 = *f;
    let ghost d0 = *dst;
    let ghost a0 = arms@;
    let mut i: usize = 0;
    proof {
        lemma_flushed_refl(*src, *dst, *f);
    }
    while i < arms.len()
        invariant
            i <= arms@.len(),
            arms@.len() == a0.len(),
            flushed(*src, d0, f0, *dst, *f),
            src_closed(*src, *f),
            f.src_region == f0.src_region,
            f.old_gen == f0.old_gen,
            forall|a: int, b: int| 0 <= a < a0.len() && 0 <= b < a0[a].consts@.len() ==> in_src(*src, f0, #[trigger] a0[a].consts@[b]),
            forall|j: int| i <= j < a0.len() ==> #[trigger] arms@[j] == a0[j],
            forall|j: int|
                0 <= j < i ==> all_done(*f, (#[trigger] a0[j]).consts@) && arms@[j].consts@ == fvals(*f, a0[j].consts@)
                    && arms@[j].uid == a0[j].uid && arms@[j].argc == a0[j].argc
                    && arms@[j].nsites == a0[j].nsites && arms@[j].ngsites == a0[j].ngsites,
            forall|s: Set<(NodeKind, int)>| #[trigger] closed_set(*src, f0, s) && (forall|a: int, b: int| 0 <= a < a0.len() && 0 <= b < a0[a].consts@.len() ==> val_in(f0, s, #[trigger] a0[a].consts@[b]))
                ==> copies_within(f0, *f, s),
        decreases a0.len() - i,
    {
        let arm = &arms[i];
        let mut consts = copy_values(&arm.consts);
        let ghost fa = *f;
        let ghost da = *dst;
        proof {
            assert forall|b: int| 0 <= b < consts@.len() implies in_src(*src, *f, #[trigger] consts@[b]) by {
                assert(in_src(*src, f0, a0[i as int].consts@[b]));
            }
        }
        let ghost v0 = consts@;
        flush_values(src, dst, f, &mut consts);
        let new_arm = CompiledArm {
            uid: arm.uid,
            site_pos: arm.site_pos.clone(),
            consts,
            argc: arm.argc,
            nsites: arm.nsites,
            ngsites: arm.ngsites,
            native: arm.native,
            compile_epoch: arm.compile_epoch,
            nslots: arm.nslots,
            noptional: arm.noptional,
            has_rest: arm.has_rest,
            ncaptures: arm.ncaptures,
            active_nslots: arm.active_nslots,
        };
        proof {
            lemma_flushed_trans(*src, d0, f0, da, fa, *dst, *f);
            lemma_src_closed_ext(*src, fa, *f);
            assert forall|j: int| 0 <= j < i implies all_done(*f, (#[trigger] a0[j]).consts@) && arms@[j].consts@ == fvals(*f, a0[j].consts@) by {
                lemma_vals_stable(fa, *f, a0[j].consts@);
            }
            assert forall|s: Set<(NodeKind, int)>| #[trigger] closed_set(*src, f0, s) && (forall|a: int, b: int| 0 <= a < a0.len() && 0 <= b < a0[a].consts@.len() ==> val_in(f0, s, #[trigger] a0[a].consts@[b]))
                implies copies_within(f0, *f, s) by {
                lemma_closed_ext(*src, f0, fa, s);
                assert forall|b: int| 0 <= b < v0.len() implies val_in(fa, s, #[trigger] v0[b]) by {
                    assert(val_in(f0, s, a0[i as int].consts@[b]));
                }
                lemma_within_trans(f0, fa, *f, s);
            }
        }
        arms.set(i, Arc::new(new_arm));
        i += 1;
    }
}

/// The form positions kept across a compaction of generation 0: those of the
/// other generation as they were, and each copied cell's under its new index.
pub open spec fn positions_remapped(p0: Map<u64, FormPos>, p1: Map<u64, FormPos>, f: RuntimeForward) -> bool {
    &&& forall|k: u64| #[trigger] p1.contains_key(k) ==> kept_at(p0, p1, f, k)
    &&& forall|k: u64| #[trigger] p0.contains_key(k) && k >= 0x1_0000_0000 ==> p1.contains_key(k)
    &&& forall|q: u64| #[trigger] moved_from(p0, f, q) ==> p1.contains_key((f.pairs@[q as int]->0) as u64)
}

/// The cell at index `q` of generation 0 was copied and had a form position.
pub open spec fn moved_from(p0: Map<u64, FormPos>, f: RuntimeForward, q: u64) -> bool {
    &&& q < 0x1_0000_0000
    &&& (q as int) < f.pairs@.len()
    &&& f.pairs@[q as int] is Some
    &&& p0.contains_key(q)
}

/// Position `k` after the remap is an other-generation position kept as it
/// was, or the position of a copied cell now at index `k`.
pub open spec fn kept_at(p0: Map<u64, FormPos>, p1: Map<u64, FormPos>, f: RuntimeForward, k: u64) -> bool {
    ||| (k >= 0x1_0000_0000 && p0.contains_key(k) && p1[k] == p0[k])
    ||| exists|q: u64| #[trigger] moved_from(p0, f, q) && (f.pairs@[q as int]->0) as u64 == k && p1[k] == p0[q]
}

/// Moves each form position of a compacted generation 0 to its cell's new
/// index, drops those of cells that did not survive, and keeps the other
/// generation's.
fn remap_positions(p: &mut HashMap<u64, FormPos>, f: &RuntimeForward)
    requires
        forall|i: int| 0 <= i < f.pairs@.len() && (#[trigger] f.pairs@[i]) is Some ==> f.pairs@[i]->0 < 0x1_0000_0000,
        forall|i1: int, i2: int|
            0 <= i1 < f.pairs@.len() && 0 <= i2 < f.pairs@.len() && (#[trigger] f.pairs@[i1]) is Some
                && #[trigger] f.pairs@[i2] == f.pairs@[i1] ==> i1 == i2,
    ensures
        positions_remapped(old(p)@, final(p)@, *f),
{
    let mut old_map: HashMap<u64, FormPos> = HashMap::new();
    std::mem::swap(&mut old_map, p);
    let ghost p0 = old_map@;
    let keys = u64_keys(&old_map);
    let mut i: usize = 0;
    while i < keys.len()
        invariant
            i <= keys@.len(),
            keys@.to_set() == p0.dom(),
            keys@.no_duplicates(),
            forall|i: int| 0 <= i < f.pairs@.len() && (#[trigger] f.pairs@[i]) is Some ==> f.pairs@[i]->0 < 0x1_0000_0000,
            forall|i1: int, i2: int|
                0 <= i1 < f.pairs@.len() && 0 <= i2 < f.pairs@.len() && (#[trigger] f.pairs@[i1]) is Some
                    && #[trigger] f.pairs@[i2] == f.pairs@[i1] ==> i1 == i2,
            forall|j: int| i <= j < keys@.len() ==> old_map@.contains_key(#[trigger] keys@[j]) && old_map@[keys@[j]] == p0[keys@[j]],
            forall|k: u64| #[trigger] p@.contains_key(k) ==> kept_at(p0, p@, *f, k),
            forall|j: int| 0 <= j < i && keys@[j] >= 0x1_0000_0000 ==> p@.contains_key(#[trigger] keys@[j]),
            forall|j: int| 0 <= j < i && moved_from(p0, *f, #[trigger] keys@[j]) ==> p@.contains_key((f.pairs@[keys@[j] as int]->0) as u64),
        decreases keys@.len() - i,
    {
        let k = keys[i];
        let entry = old_map.remove(&k).unwrap();
        let ghost before = p@;
        proof {
            assert forall|j: int| i < j < keys@.len() implies old_map@.contains_key(#[trigger] keys@[j]) && old_map@[keys@[j]] == p0[keys@[j]] by {
                assert(keys@[j] != keys@[i as int]);
            }
            assert(keys@.to_set().contains(k));
        }
        let mut target: Option<u64> = None;
        if k >= 0x1_0000_0000u64 {
            target = Some(k);
        } else {
            let idx = k as usize;
            if idx < f.pairs.len() {
                if let Some(n) = f.pairs[idx] {
                    target = Some(n as u64);
                    proof {
                        assert(moved_from(p0, *f, k));
                    }
                }
            }
        }
        if let Some(t) = target {
            p.insert(t, entry);
            proof {
                assert forall|kk: u64| #[trigger] p@.contains_key(kk) implies kept_at(p0, p@, *f, kk) by {
                    if kk == t {
                        if k >= 0x1_0000_0000u64 {
                        } else {
                            assert(moved_from(p0, *f, k));
                        }
                    } else {
                        assert(before.contains_key(kk));
                        assert(kept_at(p0, before, *f, kk));
                        if !(kk >= 0x1_0000_0000 && p0.contains_key(kk) && before[kk] == p0[kk]) {
                            let q = choose|q: u64| #[trigger] moved_from(p0, *f, q) && (f.pairs@[q as int]->0) as u64 == kk && before[kk] == p0[q];
                            assert(moved_from(p0, *f, q) && (f.pairs@[q as int]->0) as u64 == kk && p@[kk] == p0[q]);
                        }
                    }
                }
            }
        }
        proof {
            assert forall|j: int| 0 <= j < i + 1 && moved_from(p0, *f, #[trigger] keys@[j]) implies p@.contains_key((f.pairs@[keys@[j] as int]->0) as u64) by {
                if j < i {
                    assert(before.contains_key((f.pairs@[keys@[j] as int]->0) as u64));
                }
            }
            assert forall|j: int| 0 <= j < i + 1 && keys@[j] >= 0x1_0000_0000 implies p@.contains_key(#[trigger] keys@[j]) by {
                if j < i {
                    assert(before.contains_key(keys@[j]));
                }
            }
        }
        i += 1;
    }
    proof {
        assert forall|k: u64| #[trigger] p0.contains_key(k) && k >= 0x1_0000_0000 implies p@.contains_key(k) by {
            assert(keys@.to_set().contains(k));
            let j = choose|j: int| 0 <= j < keys@.len() && keys@[j] == k;
            assert(p@.contains_key(keys@[j]));
        }
        assert forall|q: u64| #[trigger] moved_from(p0, *f, q) implies p@.contains_key((f.pairs@[q as int]->0) as u64) by {
            assert(keys@.to_set().contains(q));
            let j = choose|j: int| 0 <= j < keys@.len() && keys@[j] == q;
            assert(moved_from(p0, *f, keys@[j]));
        }
    }
}

/// The keys of a `u64`-keyed table.
fn u64_keys<V>(m: &HashMap<u64, V>) -> (r: Vec<u64>)
    ensures
        r@.to_set() == m@.dom(),
        r@.no_duplicates(),
{
    let mut keys: Vec<u64> = Vec::new();
    let ghost full: Seq<u64> = m.keys().remaining().unref();
    for k in it: m.keys()
        invariant
            full == m.keys().remaining().unref(),
            full.to_set() == m@.dom(),
            full.no_duplicates(),
            it.seq().unref() == full,
            keys@ == full.take(it.index() as int),
    {
        proof {
            assert(full.take(it.index() + 1) == full.take(it.index() as int).push(full[it.index() as int]));
        }
        keys.push(*k);
    }
    proof {
        assert(full.take(full.len() as int) == full);
    }
    keys
}

/// The state a compaction may run from: every handle into generation 0 that
/// the region or any holder keeps lies inside the generation, and each slab's
/// length fits a handle.
pub open spec fn collectable(h: Heap, x: Seq<Value>, e: Seq<EnvId>) -> bool {
    &&& src_closed(h.runtime.gen0, gen_fwd(RUNTIME, 0))
    &&& heap_holds_in(h, h.runtime.gen0, gen_fwd(RUNTIME, 0))
    &&& forall|i: int| 0 <= i < x.len() ==> in_src(h.runtime.gen0, gen_fwd(RUNTIME, 0), #[trigger] x[i])
    &&& forall|i: int| 0 <= i < e.len() ==> env_in_src(h.runtime.gen0, gen_fwd(RUNTIME, 0), #[trigger] e[i])
    &&& forall|k: NodeKind| #[trigger] slab_len(h.runtime.gen0, k) < 0x1_0000_0000
}

impl Heap {
    /// Compacts the current RUNTIME generation in place, rewriting every holder
    /// of a handle into it, `extra_roots` and `extra_envs` included. Runs only
    /// outside a collect-blocking window and in generation 0; otherwise changes
    /// nothing and returns `None`. On success returns the closure counts before
    /// and after, and drops the per-process caches that hold RUNTIME handles.
    #[verifier::spinoff_prover]
    #[verifier::rlimit(80)]
    pub fn runtime_collect_with(&mut self, extra_roots: &mut Vec<Value>, extra_envs: &mut Vec<EnvId>) -> (r: Option<(usize, usize)>)
        requires
            old(self).wf(),
            old(self).rt_collect_block == 0 && old(self).runtime.current_gen == 0 ==> collectable(
                *old(self),
                old(extra_roots)@,
                old(extra_envs)@,
            ),
        ensures
            r is Some <==> (old(self).rt_collect_block == 0 && old(self).runtime.current_gen == 0),
            r is None ==> *final(self) == *old(self) && final(extra_roots)@ == old(extra_roots)@
                && final(extra_envs)@ == old(extra_envs)@,
            r matches Some((before, after)) ==> {
                &&& final(self).wf()
                &&& before == old(self).runtime.gen0.closures@.len()
                &&& after == final(self).runtime.gen0.closures@.len()
                &&& exists|f: RuntimeForward| #[trigger] compacted(
                    *old(self),
                    *final(self),
                    f,
                    old(extra_roots)@,
                    final(extra_roots)@,
                    old(extra_envs)@,
                    final(extra_envs)@,
                )
                &&& final(self).vm_cache_runtime@.len() == 0
                &&& final(self).vm_cache_body@.len() == 0
                &&& final(self).runtime.shared_closures@.len() == 0
                &&& final(self).global_ic@.len() == 0
                &&& final(self).vm_call_ics@.len() == 0
                &&& final(self).vm_fast_links@.len() == 0
                &&& final(self).dbg_site_pos@.len() == 0
                &&& final(self).vm_global_ics@.len() == 0
                &&& final(self).arm_ic_blocks@.len() == 0
                &&& final(self).runtime.version == (old(self).runtime.version + 1) % 0x1_0000_0000_0000_0000
                &&& final(self).runtime.gen_version == (old(self).runtime.gen_version + 1) % 0x1_0000_0000_0000_0000
                &&& final(self).runtime.gen1 == old(self).runtime.gen1
                &&& final(self).runtime.current_gen == old(self).runtime.current_gen
                &&& final(self).runtime.drain_active == old(self).runtime.drain_active
                &&& final(self).runtime.free_epoch == old(self).runtime.free_epoch
                &&& final(self).maps == old(self).maps
                &&& final(self).cold == old(self).cold
            },
    {
        if self.rt_collect_block > 0 {
            return None;
        }
        if self.runtime.cur_gen() != 0 {
            return None;
        }
        let before = self.runtime.gen0.closures.len();
        let ghost h0 = *self;
        let ghost x0 = extra_roots@;
        let ghost e0 = extra_envs@;
        let mut old_code = CodeSlabs::new();
        std::mem::swap(&mut old_code, &mut self.runtime.gen0);
        let mut new = CodeSlabs::new();
        let mut fwd = RuntimeForward::for_gens(RUNTIME, 0, 0, &old_code);
        let ghost n0 = new;
        let ghost f0 = fwd;
        let ghost seeds = collect_seeds(h0, x0, e0);
        let ghost live = reach_set(&h0.runtime, seeds, 0);
        proof {
            assert(h0.runtime.spec_gen(0) == old_code);
            lemma_reach_closed(&h0.runtime, seeds, 0, f0);
            assert(old_code == h0.runtime.gen0);
            lemma_src_closed_ext(old_code, gen_fwd(RUNTIME, 0), fwd);
            assert forall|k: NodeKind| slab_len(new, k) + nones(#[trigger] table(fwd, k)) < 0x1_0000_0000 by {
                assert(slab_len(new, k) == 0) by {
                    match k {
                        NodeKind::Pair => {},
                        NodeKind::Vector => {},
                        NodeKind::Mapping => {},
                        NodeKind::Closure => {},
                        NodeKind::Frame => {},
                    }
                }
            }
            assert(fwd_wf(old_code, new, fwd));
            assert(all_copied(old_code, new, fwd));
            lemma_flushed_refl(old_code, new, fwd);
            assert forall|k: Symbol| #[trigger] self.runtime.globals@.contains_key(k) implies in_src(old_code, fwd, self.runtime.globals@[k]) by {
                assert(in_src(old_code, gen_fwd(RUNTIME, 0), h0.runtime.globals@[k]));
            }
        }
        // 1. The globals, and the declared signatures beside them.
        flush_table(&old_code, &mut new, &mut fwd, &mut self.runtime.globals);
        let ghost f1 = fwd;
        let ghost n1 = new;
        proof {
            assert forall|k: Symbol| #[trigger] h0.runtime.globals@.contains_key(k) implies val_in(f0, live, h0.runtime.globals@[k]) by {
                assert(h0.runtime.globals@.values().contains(h0.runtime.globals@[k]));
                lemma_seed_val_in(&h0.runtime, seeds, 0, f0, h0.runtime.globals@[k]);
            }
            assert(copies_within(f0, f1, live));
        }
        proof {
            lemma_src_closed_ext(old_code, f0, fwd);
            assert forall|k: Symbol| #[trigger] self.runtime.declared_sigs@.contains_key(k) implies in_src(old_code, fwd, self.runtime.declared_sigs@[k]) by {
                assert(in_src(old_code, gen_fwd(RUNTIME, 0), h0.runtime.declared_sigs@[k]));
            }
        }
        flush_table(&old_code, &mut new, &mut fwd, &mut self.runtime.declared_sigs);
        let ghost f2 = fwd;
        let ghost n2 = new;
        proof {
            lemma_closed_ext(old_code, f0, f1, live);
            assert forall|k: Symbol| #[trigger] h0.runtime.declared_sigs@.contains_key(k) implies val_in(f1, live, h0.runtime.declared_sigs@[k]) by {
                assert(h0.runtime.declared_sigs@.values().contains(h0.runtime.declared_sigs@[k]));
                lemma_seed_val_in(&h0.runtime, seeds, 0, f1, h0.runtime.declared_sigs@[k]);
            }
            assert(copies_within(f1, f2, live));
            lemma_within_trans(f0, f1, f2, live);
        }
        proof {
            lemma_flushed_trans(old_code, n0, f0, n1, f1, n2, f2);
            lemma_src_closed_ext(old_code, f0, fwd);
            assert forall|i: int| 0 <= i < self.roots@.len() implies in_src(old_code, fwd, #[trigger] self.roots@[i]) by {
                assert(in_src(old_code, gen_fwd(RUNTIME, 0), h0.roots@[i]));
            }
        }
        // 2. This process's roots, frame roots and dynamic bindings.
        flush_values(&old_code, &mut new, &mut fwd, &mut self.roots);
        let ghost f3 = fwd;
        let ghost n3 = new;
        proof {
            lemma_closed_ext(old_code, f0, f2, live);
            assert forall|j: int| 0 <= j < h0.roots@.len() implies val_in(f2, live, #[trigger] h0.roots@[j]) by {
                assert(h0.roots@.contains(h0.roots@[j]));
                lemma_seed_val_in(&h0.runtime, seeds, 0, f2, h0.roots@[j]);
            }
            assert(copies_within(f2, f3, live));
            lemma_within_trans(f0, f2, f3, live);
        }
        proof {
            lemma_flushed_trans(old_code, n0, f0, n2, f2, n3, f3);
            lemma_src_closed_ext(old_code, f0, fwd);
            assert forall|i: int| 0 <= i < self.env_roots@.len() implies env_in_src(old_code, fwd, #[trigger] self.env_roots@[i]) by {
                assert(env_in_src(old_code, gen_fwd(RUNTIME, 0), h0.env_roots@[i]));
            }
        }
        flush_envs(&old_code, &mut new, &mut fwd, &mut self.env_roots);
        let ghost f4 = fwd;
        let ghost n4 = new;
        proof {
            lemma_closed_ext(old_code, f0, f3, live);
            assert forall|j: int| 0 <= j < h0.env_roots@.len() implies env_in(f3, live, #[trigger] h0.env_roots@[j]) by {
                assert(h0.env_roots@.contains(h0.env_roots@[j]));
                lemma_seed_env_in(&h0.runtime, seeds, 0, f3, h0.env_roots@[j]);
            }
            assert(copies_within(f3, f4, live));
            lemma_within_trans(f0, f3, f4, live);
        }
        proof {
            lemma_flushed_trans(old_code, n0, f0, n3, f3, n4, f4);
            lemma_src_closed_ext(old_code, f0, fwd);
            assert forall|i: int| 0 <= i < self.dynamics@.len() implies in_src(old_code, fwd, (#[trigger] self.dynamics@[i]).1) by {
                assert(in_src(old_code, gen_fwd(RUNTIME, 0), h0.dynamics@[i].1));
            }
        }
        flush_bindings(&old_code, &mut new, &mut fwd, &mut self.dynamics);
        let ghost f5 = fwd;
        let ghost n5 = new;
        proof {
            lemma_closed_ext(old_code, f0, f4, live);
            assert forall|j: int| 0 <= j < h0.dynamics@.len() implies val_in(f4, live, (#[trigger] h0.dynamics@[j]).1) by {
                lemma_seed_val_in(&h0.runtime, seeds, 0, f4, h0.dynamics@[j].1);
            }
            assert(copies_within(f4, f5, live));
            lemma_within_trans(f0, f4, f5, live);
        }
        proof {
            lemma_flushed_trans(old_code, n0, f0, n4, f4, n5, f5);
            lemma_src_closed_ext(old_code, f0, fwd);
            assert forall|i: int| 0 <= i < extra_roots@.len() implies in_src(old_code, fwd, #[trigger] extra_roots@[i]) by {
                assert(in_src(old_code, gen_fwd(RUNTIME, 0), x0[i]));
            }
        }
        // ...and the caller's extra live roots.
        flush_values(&old_code, &mut new, &mut fwd, extra_roots);
        let ghost f6 = fwd;
        let ghost n6 = new;
        proof {
            lemma_closed_ext(old_code, f0, f5, live);
            assert forall|j: int| 0 <= j < x0.len() implies val_in(f5, live, #[trigger] x0[j]) by {
                assert(x0.contains(x0[j]));
                lemma_seed_val_in(&h0.runtime, seeds, 0, f5, x0[j]);
            }
            assert(copies_within(f5, f6, live));
            lemma_within_trans(f0, f5, f6, live);
        }
        proof {
            lemma_flushed_trans(old_code, n0, f0, n5, f5, n6, f6);
            lemma_src_closed_ext(old_code, f0, fwd);
            assert forall|i: int| 0 <= i < extra_envs@.len() implies env_in_src(old_code, fwd, #[trigger] extra_envs@[i]) by {
                assert(env_in_src(old_code, gen_fwd(RUNTIME, 0), e0[i]));
            }
        }
        flush_envs(&old_code, &mut new, &mut fwd, extra_envs);
        let ghost f7 = fwd;
        let ghost n7 = new;
        proof {
            lemma_closed_ext(old_code, f0, f6, live);
            assert forall|j: int| 0 <= j < e0.len() implies env_in(f6, live, #[trigger] e0[j]) by {
                assert(e0.contains(e0[j]));
                lemma_seed_env_in(&h0.runtime, seeds, 0, f6, e0[j]);
            }
            assert(copies_within(f6, f7, live));
            lemma_within_trans(f0, f6, f7, live);
        }
        proof {
            lemma_flushed_trans(old_code, n0, f0, n6, f6, n7, f7);
            lemma_src_closed_ext(old_code, f0, fwd);
            lemma_holds_ext(old_code, gen_fwd(RUNTIME, 0), fwd, self.local);
        }
        // 3. The local slabs, any of whose objects may hold a RUNTIME handle.
        rewrite_local_rt_handles(&mut self.local, &old_code, &mut new, &mut fwd);
        let ghost f8 = fwd;
        let ghost n8 = new;
        proof {
            lemma_closed_ext(old_code, f0, f7, live);
            lemma_local_in(h0, x0, e0, f7);
            assert(copies_within(f7, f8, live));
            lemma_within_trans(f0, f7, f8, live);
        }
        proof {
            lemma_flushed_trans(old_code, n0, f0, n7, f7, n8, f8);
            lemma_src_closed_ext(old_code, f0, fwd);
            assert forall|i: int, j: int|
                0 <= i < self.live_vm_arms@.len() && 0 <= j < self.live_vm_arms@[i].consts@.len() implies in_src(old_code, fwd, #[trigger] self.live_vm_arms@[i].consts@[j]) by {
                assert(in_src(old_code, gen_fwd(RUNTIME, 0), h0.live_vm_arms@[i].consts@[j]));
            }
        }
        // 3b. The literals of the compiled arms mid-execution.
        rewrite_arms(&old_code, &mut new, &mut fwd, &mut self.live_vm_arms);
        let ghost f9 = fwd;
        let ghost n9 = new;
        proof {
            lemma_closed_ext(old_code, f0, f8, live);
            assert forall|a: int, c: int| 0 <= a < h0.live_vm_arms@.len() && 0 <= c < h0.live_vm_arms@[a].consts@.len()
                implies val_in(f8, live, #[trigger] h0.live_vm_arms@[a].consts@[c]) by {
                lemma_seed_val_in(&h0.runtime, seeds, 0, f8, h0.live_vm_arms@[a].consts@[c]);
            }
            assert(copies_within(f8, f9, live));
            lemma_within_trans(f0, f8, f9, live);
            assert forall|k: NodeKind, i: int| 0 <= i < table(f9, k).len() && #[trigger] table(f9, k)[i] is Some
                implies live.contains((k, i)) by {
                assert(table(f0, k)[i] is None);
            }
        }
        proof {
            lemma_flushed_trans(old_code, n0, f0, n8, f8, n9, f9);
            lemma_all_copied_step(old_code, n0, f0, n9, f9);
            lemma_ext_trans(f1, f2, f9);
            lemma_ext_trans(f3, f4, f9);
            lemma_ext_trans(f4, f5, f9);
            lemma_ext_trans(f5, f6, f9);
            lemma_ext_trans(f6, f7, f9);
            lemma_ext_trans(f7, f8, f9);
            lemma_ext_trans(f2, f3, f9);
            lemma_table_stable(f1, f9, h0.runtime.globals@, self.runtime.globals@);
            lemma_table_stable(f2, f9, h0.runtime.declared_sigs@, self.runtime.declared_sigs@);
            lemma_vals_stable(f3, f9, h0.roots@);
            lemma_envs_stable(f4, f9, h0.env_roots@);
            lemma_vars_stable(f5, f9, h0.dynamics@);
            lemma_vals_stable(f6, f9, x0);
            lemma_envs_stable(f7, f9, e0);
            lemma_slabs_stable(f8, f9, h0.local, self.local);
            assert forall|k: NodeKind, j: int| 0 <= j < slab_len(n9, k) implies #[trigger] has_image(f9, k, j) by {
                assert(slab_len(n0, k) == 0) by {
                    match k {
                        NodeKind::Pair => {},
                        NodeKind::Vector => {},
                        NodeKind::Mapping => {},
                        NodeKind::Closure => {},
                        NodeKind::Frame => {},
                    }
                }
            }
            assert(table(fwd, NodeKind::Pair) == fwd.pairs@);
        }
        // 3c. The form positions of the compacted generation follow its cells.
        remap_positions(&mut self.runtime.positions, &fwd);
        // 4. Drop the per-process caches keyed on or holding RUNTIME handles.
        self.vm_cache_runtime.clear();
        self.vm_cache_body.clear();
        self.runtime.shared_closures.clear();
        self.global_ic.clear();
        self.vm_call_ics.clear();
        self.vm_fast_links.clear();
        self.dbg_site_pos.clear();
        self.vm_global_ics.clear();
        self.arm_ic_blocks.clear();
        // 5. Install the compacted region and stale every version stamp.
        self.runtime.gen0 = new;
        self.runtime.gen_version = self.runtime.gen_version.wrapping_add(1);
        self.runtime.version = self.runtime.version.wrapping_add(1);
        let after = self.runtime.gen0.closures.len();
        proof {
            assert(compacted(h0, *self, fwd, x0, extra_roots@, e0, extra_envs@));
        }
        Some((before, after))
    }

    /// Compacts the current RUNTIME generation in place (see
    /// [`Heap::runtime_collect_with`]) with no extra roots.
    pub fn runtime_collect(&mut self) -> (r: Option<(usize, usize)>)
        requires
            old(self).wf(),
            old(self).rt_collect_block == 0 && old(self).runtime.current_gen == 0 ==> collectable(
                *old(self),
                Seq::empty(),
                Seq::empty(),
            ),
        ensures
            r is Some <==> (old(self).rt_collect_block == 0 && old(self).runtime.current_gen == 0),
            r is None ==> *final(self) == *old(self),
            r matches Some((before, after)) ==> {
                &&& final(self).wf()
                &&& before == old(self).runtime.gen0.closures@.len()
                &&& after == final(self).runtime.gen0.closures@.len()
                &&& exists|f: RuntimeForward| #[trigger] compacted(
                    *old(self),
                    *final(self),
                    f,
                    Seq::empty(),
                    Seq::empty(),
                    Seq::empty(),
                    Seq::empty(),
                )
            },
    {
        let mut xr: Vec<Value> = Vec::new();
        let mut xe: Vec<EnvId> = Vec::new();
        proof {
            assert(xr@ =~= Seq::<Value>::empty());
            assert(xe@ =~= Seq::<EnvId>::empty());
        }
        let r = self.runtime_collect_with(&mut xr, &mut xe);
        proof {
            if r is Some {
                assert(xr@ =~= Seq::<Value>::empty()) by {
                    let f = choose|f: RuntimeForward| #[trigger] compacted(*old(self), *self, f, Seq::empty(), xr@, Seq::empty(), xe@);
                    assert(xr@ == fvals(f, Seq::empty()));
                }
                assert(xe@ =~= Seq::<EnvId>::empty()) by {
                    let f = choose|f: RuntimeForward| #[trigger] compacted(*old(self), *self, f, Seq::empty(), xr@, Seq::empty(), xe@);
                    assert(xe@ == fenvs(f, Seq::empty()));
                }
            }
        }
        r
    }
}

/// The handles a slab set holds lie in the source under any forwarding with the
/// same source.
pub proof fn lemma_holds_ext(src: CodeSlabs, f1: RuntimeForward, f2: RuntimeForward, l: CodeSlabs)
    requires
        holds_in_src(src, f1, l),
        f2.src_region == f1.src_region,
        f2.old_gen == f1.old_gen,
    ensures
        holds_in_src(src, f2, l),
{
    assert forall|h: crate::value::Handle| crate::flush::is_src(f2, h) == crate::flush::is_src(f1, h) by {}
}

/// Is `v` a handle into RUNTIME generation `g`?
pub open spec fn spec_value_in_gen(v: Value, g: usize) -> bool {
    match crate::flush::val_node(v) {
        Some((k, h)) => h.spec_region() == RUNTIME && h.spec_stamp() == g,
        None => false,
    }
}

/// Is `v` a handle into RUNTIME generation `g`?
pub fn value_in_gen(v: Value, g: usize) -> (r: bool)
    ensures
        r == spec_value_in_gen(v, g),
{
    match v {
        Value::Fn(h) => h.region() == RUNTIME && h.code_gen() == g,
        Value::Macro(h) => h.region() == RUNTIME && h.code_gen() == g,
        Value::Pair(h) => h.region() == RUNTIME && h.code_gen() == g,
        Value::Vector(h) => h.region() == RUNTIME && h.code_gen() == g,
        Value::Mapping(h) => h.region() == RUNTIME && h.code_gen() == g,
        _ => false,
    }
}

/// The handle a value carries into a heap object, whichever kind of object it is
/// (natives and transients excepted: they never live in RUNTIME).
pub open spec fn object_handle(v: Value) -> Option<crate::value::Handle> {
    match v {
        Value::Fn(h) => Some(h),
        Value::Macro(h) => Some(h),
        Value::Pair(h) => Some(h),
        Value::Vector(h) => Some(h),
        Value::Mapping(h) => Some(h),
        Value::Str(h) => Some(h),
        Value::BigInt(h) => Some(h),
        Value::Rope(h) => Some(h),
        _ => None,
    }
}

/// The RUNTIME generation `v`'s handle lives in; `None` for an immediate or a
/// handle into another region.
pub fn runtime_gen_of(v: Value) -> (r: Option<usize>)
    ensures
        r == (match object_handle(v) {
            Some(h) => if h.spec_region() == RUNTIME { Some(h.spec_stamp() as usize) } else { None },
            None => None,
        }),
{
    let h = match v {
        Value::Fn(h) | Value::Macro(h) | Value::Pair(h) | Value::Vector(h) | Value::Mapping(h)
        | Value::Str(h) | Value::BigInt(h) | Value::Rope(h) => h,
        _ => return None,
    };
    if h.region() == RUNTIME {
        Some(h.code_gen())
    } else {
        None
    }
}

/// The names of `m` bound into generation `g`.
pub open spec fn bound_in_gen(m: Map<Symbol, Value>, g: usize) -> Set<Symbol> {
    Set::new(|k: Symbol| m.contains_key(k) && spec_value_in_gen(m[k], g))
}

/// A table migrated out of generation `g`: each binding into `g` now points at
/// its copy, every other binding is as it was.
pub open spec fn table_migrated(m0: Map<Symbol, Value>, m1: Map<Symbol, Value>, f: RuntimeForward, g: usize) -> bool {
    &&& m1.dom() == m0.dom()
    &&& forall|k: Symbol| #[trigger] m0.contains_key(k) ==> if spec_value_in_gen(m0[k], g) {
        done(f, m0[k]) && m1[k] == fwd_value(f, m0[k])
    } else {
        m1[k] == m0[k]
    }
}

/// Copies each binding of `m` into generation `g` over, rewriting it to its
/// copy; returns how many it moved.
fn migrate_table(src: &CodeSlabs, dst: &mut CodeSlabs, f: &mut RuntimeForward, m: &mut HashMap<Symbol, Value>, g: usize) -> (r: usize)
    requires
        fwd_wf(*src, *old(dst), *old(f)),
        src_closed(*src, *old(f)),
        old(f).src_region == RUNTIME,
        old(f).old_gen == g,
        forall|k: Symbol| #[trigger] old(m)@.contains_key(k) ==> in_src(*src, *old(f), old(m)@[k]),
    ensures
        flushed(*src, *old(dst), *old(f), *final(dst), *final(f)),
        table_migrated(old(m)@, final(m)@, *final(f), g),
        r == bound_in_gen(old(m)@, g).len(),
{
    let ghost f0 = *f;
    let ghost d0 = *dst;
    let ghost m0 = m@;
    let keys = crate::collect::symbol_keys(m);
    let mut i: usize = 0;
    let mut moved: usize = 0;
    let ghost mut seen: Set<Symbol> = Set::empty();
    proof {
        lemma_flushed_refl(*src, *dst, *f);
    }
    while i < keys.len()
        invariant
            i <= keys@.len(),
            keys@.to_set() == m0.dom(),
            keys@.no_duplicates(),
            m@.dom() == m0.dom(),
            flushed(*src, d0, f0, *dst, *f),
            src_closed(*src, *f),
            f.src_region == f0.src_region,
            f.old_gen == f0.old_gen,
            f0.src_region == RUNTIME,
            f0.old_gen == g,
            forall|k: Symbol| #[trigger] m0.contains_key(k) ==> in_src(*src, f0, m0[k]),
            forall|j: int| i <= j < keys@.len() ==> m@[#[trigger] keys@[j]] == m0[keys@[j]],
            forall|j: int| 0 <= j < i ==> if spec_value_in_gen(m0[#[trigger] keys@[j]], g) {
                done(*f, m0[keys@[j]]) && m@[keys@[j]] == fwd_value(*f, m0[keys@[j]])
            } else {
                m@[keys@[j]] == m0[keys@[j]]
            },
            seen == Set::new(|k: Symbol| exists|j: int| 0 <= j < i && keys@[j] == k && spec_value_in_gen(m0[k], g)),
            seen.finite(),
            moved == seen.len(),
            seen.len() <= i,
        decreases keys@.len() - i,
    {
        let k = keys[i];
        proof {
            assert(keys@.to_set().contains(k));
            assert(m0.contains_key(k));
        }
        let v = *m.get(&k).unwrap();
        let ghost seen0 = seen;
        if value_in_gen(v, g) {
            let ghost fa = *f;
            let ghost da = *dst;
            let v2 = flush_rt_value(src, dst, f, v);
            proof {
                lemma_flushed_trans(*src, d0, f0, da, fa, *dst, *f);
                lemma_src_closed_ext(*src, fa, *f);
                assert forall|j: int| 0 <= j < i && spec_value_in_gen(m0[#[trigger] keys@[j]], g) implies done(*f, m0[keys@[j]]) && m@[keys@[j]] == fwd_value(*f, m0[keys@[j]]) by {
                    lemma_fwd_stable(fa, *f, m0[keys@[j]]);
                }
            }
            m.insert(k, v2);
            moved = moved + 1;
            proof {
                seen = seen.insert(k);
                assert(!seen0.contains(k)) by {
                    if seen0.contains(k) {
                        let j = choose|j: int| 0 <= j < i && keys@[j] == k && spec_value_in_gen(m0[k], g);
                        assert(keys@[j] == keys@[i as int]);
                    }
                }
            }
        }
        proof {
            assert forall|j: int| i < j < keys@.len() implies m@[#[trigger] keys@[j]] == m0[keys@[j]] by {
                assert(keys@[j] != keys@[i as int]);
            }
            assert forall|j: int| 0 <= j < i implies (if spec_value_in_gen(m0[#[trigger] keys@[j]], g) {
                done(*f, m0[keys@[j]]) && m@[keys@[j]] == fwd_value(*f, m0[keys@[j]])
            } else {
                m@[keys@[j]] == m0[keys@[j]]
            }) by {
                assert(keys@[j] != keys@[i as int]);
            }
            assert(m@.dom() =~= m0.dom());
            assert(seen =~= Set::new(|kk: Symbol| exists|j: int| 0 <= j < i + 1 && keys@[j] == kk && spec_value_in_gen(m0[kk], g))) by {
                assert forall|kk: Symbol| seen.contains(kk) <==> exists|j: int| 0 <= j < i + 1 && keys@[j] == kk && spec_value_in_gen(m0[kk], g) by {
                    if seen0.contains(kk) {
                        let j = choose|j: int| 0 <= j < i && keys@[j] == kk && spec_value_in_gen(m0[kk], g);
                        assert(0 <= j < i + 1 && keys@[j] == kk);
                    }
                    if exists|j: int| 0 <= j < i + 1 && keys@[j] == kk && spec_value_in_gen(m0[kk], g) {
                        let j = choose|j: int| 0 <= j < i + 1 && keys@[j] == kk && spec_value_in_gen(m0[kk], g);
                        if j < i {
                            assert(seen0.contains(kk));
                        }
                    }
                }
            }
        }
        i += 1;
    }
    proof {
        assert forall|k: Symbol| #[trigger] m0.contains_key(k) implies (if spec_value_in_gen(m0[k], g) {
            done(*f, m0[k]) && m@[k] == fwd_value(*f, m0[k])
        } else {
            m@[k] == m0[k]
        }) by {
            assert(keys@.to_set().contains(k));
            let j = choose|j: int| 0 <= j < keys@.len() && keys@[j] == k;
            assert(keys@[j] == k);
        }
        assert(seen =~= bound_in_gen(m0, g)) by {
            assert forall|kk: Symbol| seen.contains(kk) <==> bound_in_gen(m0, g).contains(kk) by {
                if bound_in_gen(m0, g).contains(kk) {
                    assert(keys@.to_set().contains(kk));
                    let j = choose|j: int| 0 <= j < keys@.len() && keys@[j] == kk;
                    assert(0 <= j < i && keys@[j] == kk && spec_value_in_gen(m0[kk], g));
                }
            }
        }
    }
    moved
}

/// What a migration of generation `g` into `dest` through `f` made of `h0`: the
/// destination generation keeps its slots and gains finished copies only, the
/// source generation is untouched, and the globals and signatures bound into
/// `g` point at their copies.
pub open spec fn migrated(h0: Heap, h1: Heap, f: RuntimeForward, g: usize, dest: usize) -> bool {
    let s0 = h0.runtime.spec_gen(g as int);
    let d0 = h0.runtime.spec_gen(dest as int);
    let d1 = h1.runtime.spec_gen(dest as int);
    &&& f.src_region == RUNTIME
    &&& f.old_gen == g
    &&& f.dest_gen == dest
    &&& h1.runtime.spec_gen(g as int) == s0
    &&& fwd_wf(s0, d1, f)
    &&& all_copied(s0, d1, f)
    &&& frame(d0, d1)
    &&& covered(d0, d1, f)
    &&& table_migrated(h0.runtime.globals@, h1.runtime.globals@, f, g)
    &&& table_migrated(h0.runtime.declared_sigs@, h1.runtime.declared_sigs@, f, g)
}

/// The state a migration of generation `g` may run from.
pub open spec fn migratable(h: Heap, g: usize) -> bool {
    let s = h.runtime.spec_gen(g as int);
    let d = h.runtime.spec_gen(h.runtime.current_gen as int);
    &&& src_closed(s, gen_fwd(RUNTIME, g))
    &&& forall|k: Symbol| #[trigger] h.runtime.globals@.contains_key(k) ==> in_src(s, gen_fwd(RUNTIME, g), h.runtime.globals@[k])
    &&& forall|k: Symbol| #[trigger] h.runtime.declared_sigs@.contains_key(k) ==> in_src(s, gen_fwd(RUNTIME, g), h.runtime.declared_sigs@[k])
    &&& forall|k: NodeKind| #[trigger] slab_len(d, k) + slab_len(s, k) < 0x1_0000_0000
}

/// Copies the live globals and signatures of generation `g` into `dst`.
fn migrate_core(
    src: &CodeSlabs,
    dst: &mut CodeSlabs,
    g: usize,
    dest: usize,
    globals: &mut HashMap<Symbol, Value>,
    sigs: &mut HashMap<Symbol, Value>,
) -> (r: (usize, RuntimeForward))
    requires
        dest < 2,
        src_closed(*src, gen_fwd(RUNTIME, g)),
        forall|k: Symbol| #[trigger] old(globals)@.contains_key(k) ==> in_src(*src, gen_fwd(RUNTIME, g), old(globals)@[k]),
        forall|k: Symbol| #[trigger] old(sigs)@.contains_key(k) ==> in_src(*src, gen_fwd(RUNTIME, g), old(sigs)@[k]),
        forall|k: NodeKind| #[trigger] slab_len(*old(dst), k) + slab_len(*src, k) < 0x1_0000_0000,
    ensures
        r.1.src_region == RUNTIME,
        r.1.old_gen == g,
        r.1.dest_gen == dest,
        fwd_wf(*src, *final(dst), r.1),
        all_copied(*src, *final(dst), r.1),
        frame(*old(dst), *final(dst)),
        covered(*old(dst), *final(dst), r.1),
        table_migrated(old(globals)@, final(globals)@, r.1, g),
        table_migrated(old(sigs)@, final(sigs)@, r.1, g),
        r.0 == bound_in_gen(old(globals)@, g).len(),
{
    let mut fwd = RuntimeForward::for_gens(RUNTIME, g, dest, src);
    let ghost f0 = fwd;
    let ghost d0 = *dst;
    proof {
        lemma_src_closed_ext(*src, gen_fwd(RUNTIME, g), fwd);
        assert(fwd_wf(*src, *dst, fwd));
        assert(all_copied(*src, *dst, fwd));
        assert forall|k: Symbol| #[trigger] globals@.contains_key(k) implies in_src(*src, fwd, globals@[k]) by {
            assert(in_src(*src, gen_fwd(RUNTIME, g), globals@[k]));
        }
    }
    let moved = migrate_table(src, dst, &mut fwd, globals, g);
    let ghost f1 = fwd;
    let ghost d1 = *dst;
    proof {
        lemma_src_closed_ext(*src, f0, fwd);
        assert forall|k: Symbol| #[trigger] sigs@.contains_key(k) implies in_src(*src, fwd, sigs@[k]) by {
            assert(in_src(*src, gen_fwd(RUNTIME, g), sigs@[k]));
        }
    }
    let _ = migrate_table(src, dst, &mut fwd, sigs, g);
    proof {
        lemma_flushed_trans(*src, d0, f0, d1, f1, *dst, fwd);
        lemma_all_copied_step(*src, d0, f0, *dst, fwd);
        assert forall|k: Symbol| #[trigger] old(globals)@.contains_key(k) && spec_value_in_gen(old(globals)@[k], g) implies done(fwd, old(globals)@[k]) && globals@[k] == fwd_value(fwd, old(globals)@[k]) by {
            lemma_fwd_stable(f1, fwd, old(globals)@[k]);
        }
    }
    (moved, fwd)
}

/// The form positions `p` after carrying, for each of the first `n` cells of
/// generation `g` in turn that `pairs` forwards and that has a position, that
/// position to the cell's copy in generation `dest`.
pub open spec fn carried_positions(p: Map<u64, FormPos>, pairs: Seq<Option<usize>>, g: usize, dest: usize, n: nat) -> Map<u64, FormPos>
    decreases n,
{
    if n == 0 {
        p
    } else {
        let i = (n - 1) as nat;
        let m = carried_positions(p, pairs, g, dest, i);
        let from = spec_rt_pos_key(i, g as nat);
        if i < pairs.len() && pairs[i as int] is Some && m.contains_key(from) {
            m.insert(spec_rt_pos_key(pairs[i as int]->0 as nat, dest as nat), m[from])
        } else {
            m
        }
    }
}

/// Carries the form position of each copied cell of generation `g` to its copy
/// in generation `dest`.
fn carry_positions(p: &mut HashMap<u64, FormPos>, f: &RuntimeForward, g: usize, dest: usize)
    requires
        g < 2,
        dest < 2,
        f.pairs@.len() < 0x1_0000_0000,
        forall|i: int| 0 <= i < f.pairs@.len() && (#[trigger] f.pairs@[i]) is Some ==> f.pairs@[i]->0 < 0x1_0000_0000,
    ensures
        final(p)@ == carried_positions(old(p)@, f.pairs@, g, dest, f.pairs@.len()),
        forall|k: u64| #[trigger] old(p)@.contains_key(k) ==> final(p)@.contains_key(k),
{
    let mut i: usize = 0;
    while i < f.pairs.len()
        invariant
            i <= f.pairs@.len(),
            p@ == carried_positions(old(p)@, f.pairs@, g, dest, i as nat),
            g < 2,
            dest < 2,
            f.pairs@.len() < 0x1_0000_0000,
            forall|i: int| 0 <= i < f.pairs@.len() && (#[trigger] f.pairs@[i]) is Some ==> f.pairs@[i]->0 < 0x1_0000_0000,
            forall|k: u64| #[trigger] old(p)@.contains_key(k) ==> p@.contains_key(k),
        decreases f.pairs@.len() - i,
    {
        if let Some(n) = f.pairs[i] {
            let ok = rt_pos_key(i, g);
            let found = match p.get(&ok) {
                Some(e) => Some(FormPos { pos: e.pos, file: crate::runtime_code::clone_opt_string(&e.file), synthetic: e.synthetic }),
                None => None,
            };
            if let Some(d) = found {
                proof {
                    assert(d == p@[ok]);
                }
                p.insert(rt_pos_key(n, dest), d);
            }
        }
        i += 1;
    }
}

impl Heap {
    /// Re-exports the live image of the aged-out generation `old_gen`: every
    /// global and declared signature still bound into it is copied, with what
    /// it reaches, into the current generation and rebound to the copy; form
    /// positions follow the copied cells. Bumps the version and drops this
    /// process's caches. Returns how many globals moved; a no-op returning 0
    /// when `old_gen` is current or empty.
    pub fn migrate_live_globals(&mut self, old_gen: usize) -> (r: usize)
        requires
            old(self).wf(),
            old_gen < 2,
            old_gen != old(self).runtime.current_gen && !old(self).runtime.spec_gen(old_gen as int).spec_is_empty()
                ==> migratable(*old(self), old_gen),
        ensures
            old_gen == old(self).runtime.current_gen || old(self).runtime.spec_gen(old_gen as int).spec_is_empty()
                ==> r == 0 && *final(self) == *old(self),
            old_gen != old(self).runtime.current_gen && !old(self).runtime.spec_gen(old_gen as int).spec_is_empty() ==> {
                &&& final(self).wf()
                &&& exists|f: RuntimeForward| #[trigger] migrated(*old(self), *final(self), f, old_gen, old(self).runtime.current_gen)
                &&& r == bound_in_gen(old(self).runtime.globals@, old_gen).len()
                &&& final(self).runtime.version == (old(self).runtime.version + 1) % 0x1_0000_0000_0000_0000
                &&& final(self).runtime.current_gen == old(self).runtime.current_gen
                &&& final(self).vm_cache_runtime@.len() == 0
                &&& final(self).vm_cache_body@.len() == 0
                &&& final(self).global_ic@.len() == 0
                &&& final(self).vm_call_ics@.len() == 0
                &&& final(self).vm_fast_links@.len() == 0
                &&& final(self).dbg_site_pos@.len() == 0
                &&& final(self).vm_global_ics@.len() == 0
                &&& final(self).arm_ic_blocks@.len() == 0
                &&& forall|k: u64| #[trigger] old(self).runtime.positions@.contains_key(k) ==> final(self).runtime.positions@.contains_key(k)
                &&& final(self).runtime == (RuntimeCode {
                    gen0: final(self).runtime.gen0,
                    gen1: final(self).runtime.gen1,
                    globals: final(self).runtime.globals,
                    declared_sigs: final(self).runtime.declared_sigs,
                    positions: final(self).runtime.positions,
                    version: final(self).runtime.version,
                    ..old(self).runtime
                })
            },
    {
        let dest_gen = self.runtime.cur_gen();
        if dest_gen == old_gen || self.runtime.gen_slabs(old_gen).is_empty() {
            return 0;
        }
        let ghost h0 = *self;
        proof {
            assert(old_gen == 1 ==> dest_gen == 0);
            assert(old_gen == 0 ==> dest_gen == 1);
            assert(self.runtime.spec_gen(0) == self.runtime.gen0);
            assert(self.runtime.spec_gen(1) == self.runtime.gen1);
        }
        let res = if old_gen == 0 {
            migrate_core(
                &self.runtime.gen0,
                &mut self.runtime.gen1,
                0,
                1,
                &mut self.runtime.globals,
                &mut self.runtime.declared_sigs,
            )
        } else {
            migrate_core(
                &self.runtime.gen1,
                &mut self.runtime.gen0,
                1,
                0,
                &mut self.runtime.globals,
                &mut self.runtime.declared_sigs,
            )
        };
        let migrated_count = res.0;
        let fwd = res.1;
        proof {
            assert(fwd.pairs@.len() == slab_len(h0.runtime.spec_gen(old_gen as int), NodeKind::Pair));
            assert(slab_len(h0.runtime.spec_gen(dest_gen as int), NodeKind::Pair) + slab_len(h0.runtime.spec_gen(old_gen as int), NodeKind::Pair) < 0x1_0000_0000);
            assert forall|i: int| 0 <= i < fwd.pairs@.len() && (#[trigger] fwd.pairs@[i]) is Some implies fwd.pairs@[i]->0 < 0x1_0000_0000 by {
                assert(table(fwd, NodeKind::Pair)[i] is Some);
                assert(slab_len(self.runtime.spec_gen(dest_gen as int), NodeKind::Pair) + nones(table(fwd, NodeKind::Pair)) < 0x1_0000_0000);
            }
            assert(migrated(h0, *self, fwd, old_gen, dest_gen));
        }
        carry_positions(&mut self.runtime.positions, &fwd, old_gen, dest_gen);
        self.runtime.version = self.runtime.version.wrapping_add(1);
        self.vm_cache_runtime.clear();
        self.vm_cache_body.clear();
        self.global_ic.clear();
        self.vm_call_ics.clear();
        self.vm_fast_links.clear();
        self.dbg_site_pos.clear();
        self.vm_global_ics.clear();
        self.arm_ic_blocks.clear();
        proof {
            assert(migrated(h0, *self, fwd, old_gen, dest_gen));
        }
        migrated_count
    }
}

/// The current generation holds no dangling handle into itself, the globals
/// and signatures bound into it point inside it, and its slabs' lengths fit a
/// handle: the state a new collection cycle may start from.
pub open spec fn rt_consistent(h: Heap) -> bool {
    let c = h.runtime.current_gen;
    let s = h.runtime.spec_gen(c as int);
    &&& src_closed(s, gen_fwd(RUNTIME, c))
    &&& forall|k: Symbol| #[trigger] h.runtime.globals@.contains_key(k) ==> in_src(s, gen_fwd(RUNTIME, c), h.runtime.globals@[k])
    &&& forall|k: Symbol| #[trigger] h.runtime.declared_sigs@.contains_key(k) ==> in_src(s, gen_fwd(RUNTIME, c), h.runtime.declared_sigs@[k])
    &&& forall|k: NodeKind| #[trigger] slab_len(s, k) < 0x1_0000_0000
}

/// Has every live process reported clean for the armed drain?
pub open spec fn drained(h: Heap, pids: Seq<u64>) -> bool {
    h.runtime.drain_active && forall|i: int|
        0 <= i < pids.len() ==> h.runtime.drain_acks@.contains_key(#[trigger] pids[i])
            && h.runtime.drain_acks@[pids[i]] == h.runtime.drain_epoch
}

impl Heap {
    /// One step of the two-generation collector. With a drain armed: free the
    /// draining generation once every live process reported clean. Otherwise,
    /// when the other slot is empty and no cycle is running: age into it,
    /// migrate the live globals out of the generation just left, and arm its
    /// drain.
    pub fn advance_runtime_multigen(&mut self, live_pids: &[u64])
        requires
            old(self).wf(),
            !old(self).runtime.drain_active && !old(self).runtime.aging ==> rt_consistent(*old(self)),
        ensures
            final(self).wf(),
            old(self).runtime.drain_active && !drained(*old(self), live_pids@) ==> *final(self) == *old(self),
            old(self).runtime.drain_active ==> final(self).runtime.current_gen == old(self).runtime.current_gen,
            old(self).runtime.drain_active && drained(*old(self), live_pids@) && !old(self).runtime.aging
                && old(self).runtime.drain_gen != old(self).runtime.current_gen
                && !old(self).runtime.spec_gen(old(self).runtime.drain_gen as int).spec_is_empty()
                && old(self).runtime.gen_inflight[old(self).runtime.drain_gen as int] == 0 ==> {
                &&& final(self).runtime.spec_gen(old(self).runtime.drain_gen as int).spec_is_empty()
                &&& !final(self).runtime.drain_active
            },
            !old(self).runtime.drain_active && (old(self).runtime.aging || !old(self).runtime.spec_gen(
                1 - old(self).runtime.current_gen,
            ).spec_is_empty()) ==> *final(self) == *old(self),
            !old(self).runtime.drain_active && !old(self).runtime.aging && old(self).runtime.spec_gen(
                1 - old(self).runtime.current_gen,
            ).spec_is_empty() ==> {
                &&& final(self).runtime.current_gen == 1 - old(self).runtime.current_gen
                &&& final(self).runtime.drain_active
                &&& final(self).runtime.drain_gen == old(self).runtime.current_gen
                &&& final(self).runtime.drain_epoch == old(self).runtime.drain_epoch.wrapping_add(1)
                &&& final(self).runtime.aged_count == old(self).runtime.aged_count.wrapping_add(1)
                &&& !final(self).runtime.aging
                &&& final(self).runtime.spec_gen(old(self).runtime.current_gen as int)
                    == old(self).runtime.spec_gen(old(self).runtime.current_gen as int)
                &&& old(self).runtime.spec_gen(old(self).runtime.current_gen as int).spec_is_empty()
                    ==> final(self).runtime.globals@ == old(self).runtime.globals@
                &&& !old(self).runtime.spec_gen(old(self).runtime.current_gen as int).spec_is_empty()
                    ==> exists|f: RuntimeForward| #[trigger] table_migrated(
                    old(self).runtime.globals@,
                    final(self).runtime.globals@,
                    f,
                    old(self).runtime.current_gen,
                ) && f.dest_gen == 1 - old(self).runtime.current_gen
                    && all_copied(
                    old(self).runtime.spec_gen(old(self).runtime.current_gen as int),
                    final(self).runtime.spec_gen(1 - old(self).runtime.current_gen),
                    f,
                )
            },
    {
        if self.drain_active() {
            if self.gen_drained(live_pids) {
                let g = self.runtime.drain_gen;
                let e = self.runtime.drain_epoch;
                let _ = self.free_runtime_gen(g, e);
            }
            return;
        }
        let other = 1 - self.runtime.cur_gen();
        if !self.runtime.gen_slabs(other).is_empty() {
            return;
        }
        if !self.begin_aging() {
            return;
        }
        let ghost h0 = *old(self);
        let old_cur = self.runtime.cur_gen();
        let ghost mut h3: Heap = *self;
        let ghost mut h1: Heap = *self;
        let ghost mut h2: Heap = *self;
        let aged = self.age_runtime();
        if aged {
            proof {
                h1 = *self;
            }
            proof {
                assert(h1.runtime.spec_gen(old_cur as int) == h0.runtime.spec_gen(old_cur as int));
                assert(h1.runtime.spec_gen(h1.runtime.current_gen as int).spec_is_empty());
                assert forall|k: NodeKind| #[trigger] slab_len(h1.runtime.spec_gen(h1.runtime.current_gen as int), k)
                    + slab_len(h1.runtime.spec_gen(old_cur as int), k) < 0x1_0000_0000 by {
                    assert(slab_len(h1.runtime.spec_gen(h1.runtime.current_gen as int), k) == 0) by {
                        match k {
                            NodeKind::Pair => {},
                            NodeKind::Vector => {},
                            NodeKind::Mapping => {},
                            NodeKind::Closure => {},
                            NodeKind::Frame => {},
                        }
                    }
                }
                assert(migratable(h1, old_cur));
            }
            self.migrate_live_globals(old_cur);
            proof {
                h2 = *self;
            }
            self.begin_gen_drain(old_cur);
            proof {
                h3 = *self;
                if !h1.runtime.spec_gen(old_cur as int).spec_is_empty() {
                    let f = choose|f: RuntimeForward| #[trigger] migrated(h1, h2, f, old_cur, h1.runtime.current_gen);
                    assert(table_migrated(h0.runtime.globals@, h3.runtime.globals@, f, old_cur) && f.dest_gen == 1 - h0.runtime.current_gen
                        && all_copied(h0.runtime.spec_gen(old_cur as int), h3.runtime.spec_gen(1 - old_cur), f));
                }
                assert(h3.runtime.current_gen == 1 - h0.runtime.current_gen);
                assert(h3.runtime.drain_active);
                assert(h3.runtime.drain_gen == h0.runtime.current_gen);
                assert(h2.runtime.drain_epoch == h0.runtime.drain_epoch);
                assert(h3.runtime.drain_epoch == h0.runtime.drain_epoch.wrapping_add(1));
                assert(h2.runtime.aged_count == h1.runtime.aged_count);
                assert(h3.runtime.aged_count == h0.runtime.aged_count.wrapping_add(1));
                assert(h3.runtime.spec_gen(old_cur as int) == h0.runtime.spec_gen(old_cur as int));
            }
        }
        self.end_aging();
        proof {
            if aged {
                assert(self.runtime.globals == h3.runtime.globals);
                assert(self.runtime.spec_gen(1 - old_cur) == h3.runtime.spec_gen(1 - old_cur));
                if !h0.runtime.spec_gen(old_cur as int).spec_is_empty() {
                    let f = choose|f: RuntimeForward| #[trigger] migrated(h1, h2, f, old_cur, h1.runtime.current_gen);
                    assert(table_migrated(h0.runtime.globals@, self.runtime.globals@, f, old_cur) && f.dest_gen == 1 - h0.runtime.current_gen
                        && all_copied(h0.runtime.spec_gen(old_cur as int), self.runtime.spec_gen(1 - old_cur), f));
                } else {
                    assert(self.runtime.globals@ == h0.runtime.globals@);
                }
            }
        }
    }
}

/// Twice `n`, or `usize::MAX` past it.
pub open spec fn spec_double_sat(n: usize) -> usize {
    if 2 * n <= usize::MAX {
        (2 * n) as usize
    } else {
        usize::MAX
    }
}

/// Twice `n`, or `usize::MAX` past it.
pub fn double_sat(n: usize) -> (r: usize)
    ensures
        r == spec_double_sat(n),
{
    match n.checked_mul(2) {
        Some(x) => x,
        None => usize::MAX,
    }
}

/// The larger of two counts.
pub fn max_usize(a: usize, b: usize) -> (r: usize)
    ensures
        r == if a >= b {
            a
        } else {
            b
        },
{
    if a >= b {
        a
    } else {
        b
    }
}

/// The closure count of the current generation.
pub open spec fn cur_closures(h: Heap) -> nat {
    h.runtime.spec_gen(h.runtime.current_gen as int).closures@.len()
}

impl Heap {
    /// The RUNTIME reclaimer at the eval safepoint. With a drain armed, advances
    /// the two-generation collector on every `RT_DRAIN_SCAN_STRIDE`-th call and
    /// backs the threshold off to twice the current count. Otherwise compacts in
    /// place when it can and sets the threshold to twice the live count;
    /// where it cannot, advances the two-generation collector instead. The
    /// threshold never drops below `RT_GC_FLOOR`.
    pub fn maybe_runtime_collect(
        &mut self,
        extra_roots: &mut Vec<Value>,
        extra_envs: &mut Vec<EnvId>,
        live_pids: &[u64],
    )
        requires
            old(self).wf(),
            old(self).rt_collect_block == 0 && old(self).runtime.current_gen == 0 ==> collectable(
                *old(self),
                old(extra_roots)@,
                old(extra_envs)@,
            ),
            !old(self).runtime.drain_active && !old(self).runtime.aging ==> rt_consistent(*old(self)),
        ensures
            final(self).wf(),
            old(self).runtime.drain_active ==> final(self).rt_gc_threshold == if RT_GC_FLOOR >= spec_double_sat(
                cur_closures(*final(self)) as usize,
            ) {
                RT_GC_FLOOR
            } else {
                spec_double_sat(cur_closures(*final(self)) as usize)
            },
            !old(self).runtime.drain_active && old(self).rt_collect_block == 0 && old(self).runtime.current_gen == 0 ==> {
                &&& exists|f: RuntimeForward| #[trigger] compacted(
                    *old(self),
                    *final(self),
                    f,
                    old(extra_roots)@,
                    final(extra_roots)@,
                    old(extra_envs)@,
                    final(extra_envs)@,
                )
                &&& final(self).rt_gc_threshold == if RT_GC_FLOOR >= spec_double_sat(
                    final(self).runtime.gen0.closures@.len() as usize,
                ) {
                    RT_GC_FLOOR
                } else {
                    spec_double_sat(final(self).runtime.gen0.closures@.len() as usize)
                }
            },
    {
        if self.drain_active() {
            let t = self.rt_drain_tick.wrapping_add(1);
            self.rt_drain_tick = t;
            if t % crate::heap::RT_DRAIN_SCAN_STRIDE == 0 {
                self.advance_runtime_multigen(live_pids);
            }
            let count = self.runtime_closure_count();
            self.rt_gc_threshold = max_usize(RT_GC_FLOOR, double_sat(count));
            return;
        }
        let ghost h0 = *self;
        let r = self.runtime_collect_with(extra_roots, extra_envs);
        let ghost h1 = *self;
        match r {
            Some((_before, after)) => {
                self.rt_gc_threshold = max_usize(RT_GC_FLOOR, double_sat(after));
                proof {
                    let f = choose|f: RuntimeForward| #[trigger] compacted(h0, h1, f, old(extra_roots)@, extra_roots@, old(extra_envs)@, extra_envs@);
                    assert(compacted(h0, *self, f, old(extra_roots)@, extra_roots@, old(extra_envs)@, extra_envs@));
                }
            },
            None => {
                self.advance_runtime_multigen(live_pids);
                let count = self.runtime_closure_count();
                self.rt_gc_threshold = if self.drain_active() {
                    max_usize(count, RT_GC_FLOOR)
                } else {
                    max_usize(max_usize(self.rt_gc_threshold, double_sat(count)), RT_GC_FLOOR)
                };
            },
        }
    }
}

/// The state an evacuation preview may run from: the current generation holds
/// no dangling handle into itself, the globals and roots point inside it, and
/// its slabs' lengths fit a handle.
pub open spec fn evacuable(h: Heap) -> bool {
    let c = h.runtime.current_gen;
    let s = h.runtime.spec_gen(c as int);
    &&& src_closed(s, gen_fwd(RUNTIME, c))
    &&& forall|v: Value| #[trigger] h.runtime.globals@.values().contains(v) ==> in_src(s, gen_fwd(RUNTIME, c), v)
    &&& forall|i: int| 0 <= i < h.roots@.len() ==> in_src(s, gen_fwd(RUNTIME, c), #[trigger] h.roots@[i])
    &&& forall|k: NodeKind| #[trigger] slab_len(s, k) < 0x1_0000_0000
}

/// `n` is the current generation of `h` copied through `f` from the globals and
/// this process's roots: every copy finished, every slot a copy, every root
/// copied, and every copied object reachable from those roots.
pub open spec fn evacuated(h: Heap, n: CodeSlabs, f: RuntimeForward) -> bool {
    let c = h.runtime.current_gen;
    let s = h.runtime.spec_gen(c as int);
    &&& f.src_region == RUNTIME
    &&& f.old_gen == c
    &&& f.dest_gen == c
    &&& fwd_wf(s, n, f)
    &&& all_copied(s, n, f)
    &&& forall|k: NodeKind, j: int| 0 <= j < slab_len(n, k) ==> #[trigger] has_image(f, k, j)
    &&& forall|v: Value| #[trigger] h.runtime.globals@.values().contains(v) ==> done(f, v)
    &&& all_done(f, h.roots@)
    &&& forall|k: NodeKind, i: int| 0 <= i < table(f, k).len() && #[trigger] table(f, k)[i] is Some
        ==> reach_set(&h.runtime, evac_seeds(h), c).contains((k, i))
}

/// The source closure whose copy landed in slot `j`.
pub open spec fn closure_source(f: RuntimeForward, j: int) -> int {
    choose|i: int| 0 <= i < table(f, NodeKind::Closure).len() && table(f, NodeKind::Closure)[i] == Some(j as usize)
}

/// An evacuation keeps no more closures than the generation holds: each kept
/// closure is the copy of a distinct source closure.
pub proof fn lemma_live_within_total(h: Heap, n: CodeSlabs, f: RuntimeForward)
    requires
        evacuated(h, n, f),
    ensures
        n.closures@.len() <= cur_closures(h),
{
    let c = h.runtime.current_gen;
    let src = h.runtime.spec_gen(c as int);
    let x = vstd::set_lib::set_int_range(0, n.closures@.len() as int);
    let y = vstd::set_lib::set_int_range(0, src.closures@.len() as int);
    let g = |j: int| closure_source(f, j);
    vstd::set_lib::lemma_int_range(0, n.closures@.len() as int);
    vstd::set_lib::lemma_int_range(0, src.closures@.len() as int);
    assert forall|j: int| x.contains(j) implies 0 <= #[trigger] closure_source(f, j) < table(f, NodeKind::Closure).len()
        && table(f, NodeKind::Closure)[closure_source(f, j)] == Some(j as usize) by {
        assert(slab_len(n, NodeKind::Closure) == n.closures@.len());
        assert(has_image(f, NodeKind::Closure, j));
    }
    assert(vstd::relations::injective_on(g, x)) by {
        assert forall|j1: int, j2: int| x.contains(j1) && x.contains(j2) && #[trigger] g(j1) == #[trigger] g(j2) implies j1 == j2 by {
            assert(table(f, NodeKind::Closure)[closure_source(f, j1)] == Some(j1 as usize));
            assert(table(f, NodeKind::Closure)[closure_source(f, j2)] == Some(j2 as usize));
        }
    }
    let img = x.map(g);
    vstd::set_lib::lemma_map_size(x, img, g);
    assert(img.subset_of(y)) by {
        assert forall|i: int| img.contains(i) implies y.contains(i) by {
            let j = choose|j: int| x.contains(j) && g(j) == i;
            assert(table(f, NodeKind::Closure).len() == slab_len(src, NodeKind::Closure));
        }
    }
    vstd::set_lib::lemma_len_subset(img, y);
}

impl Heap {
    /// Copies the live part of the current RUNTIME generation, reachable from
    /// the globals and this process's roots, into a fresh region, installing
    /// nothing: a preview of what a compaction keeps.
    fn runtime_evacuate(&self) -> (r: (CodeSlabs, RuntimeForward))
        requires
            self.wf(),
            evacuable(*self),
        ensures
            evacuated(*self, r.0, r.1),
    {
        let cg = self.runtime.cur_gen();
        let cur = self.runtime.gen_slabs(cg);
        let mut new = CodeSlabs::new();
        let mut fwd = RuntimeForward::for_gens(RUNTIME, cg, cg, cur);
        let ghost n0 = new;
        let ghost f0 = fwd;
        let mut roots: Vec<Value> = Vec::new();
        crate::probe::push_map_values(&mut roots, &self.runtime.globals);
        let ghost nglob = roots@.len();
        proof {
            assert(roots@.take(nglob as int) =~= roots@);
        }
        let mut i: usize = 0;
        while i < self.roots.len()
            invariant
                i <= self.roots@.len(),
                roots@.len() == nglob + i,
                forall|j: int| 0 <= j < nglob ==> self.runtime.globals@.values().contains(#[trigger] roots@[j]),
                forall|v: Value| #[trigger] self.runtime.globals@.values().contains(v) ==> roots@.take(nglob as int).contains(v),
                forall|j: int| 0 <= j < i ==> roots@[nglob + j] == #[trigger] self.roots@[j],
            decreases self.roots@.len() - i,
        {
            let ghost before = roots@;
            roots.push(self.roots[i]);
            proof {
                assert(roots@.take(nglob as int) == before.take(nglob as int));
            }
            i += 1;
        }
        proof {
            assert(cur == self.runtime.spec_gen(cg as int));
            lemma_src_closed_ext(*cur, gen_fwd(RUNTIME, cg), fwd);
            assert forall|k: NodeKind| slab_len(new, k) + nones(#[trigger] table(fwd, k)) < 0x1_0000_0000 by {
                assert(slab_len(new, k) == 0) by {
                    match k {
                        NodeKind::Pair => {},
                        NodeKind::Vector => {},
                        NodeKind::Mapping => {},
                        NodeKind::Closure => {},
                        NodeKind::Frame => {},
                    }
                }
            }
            assert(fwd_wf(*cur, new, fwd));
            assert(all_copied(*cur, new, fwd));
            assert forall|j: int| 0 <= j < roots@.len() implies in_src(*cur, fwd, #[trigger] roots@[j]) by {
                if j < nglob {
                    assert(self.runtime.globals@.values().contains(roots@[j]));
                    assert(in_src(*cur, gen_fwd(RUNTIME, cg), roots@[j]));
                } else {
                    assert(roots@[j] == self.roots@[j - nglob]);
                    assert(in_src(*cur, gen_fwd(RUNTIME, cg), self.roots@[j - nglob]));
                }
            }
        }
        let ghost listed = roots@;
        flush_values(cur, &mut new, &mut fwd, &mut roots);
        proof {
            lemma_all_copied_step(*cur, n0, f0, new, fwd);
            assert forall|k: NodeKind, j: int| 0 <= j < slab_len(new, k) implies #[trigger] has_image(fwd, k, j) by {
                assert(slab_len(n0, k) == 0) by {
                    match k {
                        NodeKind::Pair => {},
                        NodeKind::Vector => {},
                        NodeKind::Mapping => {},
                        NodeKind::Closure => {},
                        NodeKind::Frame => {},
                    }
                }
            }
            assert forall|v: Value| #[trigger] self.runtime.globals@.values().contains(v) implies done(fwd, v) by {
                assert(listed.take(nglob as int).contains(v));
                let j = choose|j: int| 0 <= j < nglob && listed.take(nglob as int)[j] == v;
                assert(listed[j] == v);
            }
            assert forall|j: int| 0 <= j < self.roots@.len() implies done(fwd, #[trigger] self.roots@[j]) by {
                assert(listed[nglob + j] == self.roots@[j]);
            }
            let seeds = evac_seeds(*self);
            let live = reach_set(&self.runtime, seeds, cg);
            lemma_reach_closed(&self.runtime, seeds, cg, f0);
            assert forall|j: int| 0 <= j < listed.len() implies val_in(f0, live, #[trigger] listed[j]) by {
                let v = listed[j];
                if j < nglob {
                    assert(self.runtime.globals@.values().contains(v));
                } else {
                    assert(v == self.roots@[j - nglob]);
                    assert(self.roots@.contains(v));
                }
                assert(seeds.contains(Item::Val(v)));
                lemma_seed_reachable(&self.runtime, seeds, Item::Val(v));
                match val_node(v) {
                    Some((k, h)) => {
                        if is_src(f0, h) {
                            assert(node_of(Item::Val(v)) == Some((k, h)));
                            assert(live.contains((k, h.spec_index() as int)));
                        }
                    },
                    None => {},
                }
            }
            assert(copies_within(f0, fwd, live));
            assert forall|k: NodeKind, i: int| 0 <= i < table(fwd, k).len() && #[trigger] table(fwd, k)[i] is Some
                implies live.contains((k, i)) by {
                assert(table(f0, k)[i] is None);
            }
        }
        (new, fwd)
    }

    /// The evacuation preview's numbers: the current generation's closure count,
    /// the number of closures an evacuation keeps, and whether the evacuated
    /// region passes the dangling-handle check.
    pub fn runtime_evacuate_check(&self) -> (r: (usize, usize, bool))
        requires
            self.wf(),
            evacuable(*self),
        ensures
            r.0 == cur_closures(*self),
            exists|n: CodeSlabs, f: RuntimeForward| #[trigger] evacuated(*self, n, f) && r.1 == n.closures@.len()
                && r.2 == crate::compact::slabs_closed(n),
            r.1 <= r.0,
    {
        let total = self.runtime_closure_count();
        let (new, fwd) = self.runtime_evacuate();
        let live = new.closures.len();
        let ok = crate::compact::verify_rt_slabs(&new);
        proof {
            assert(evacuated(*self, new, fwd) && live == new.closures@.len() && ok == crate::compact::slabs_closed(new));
            lemma_live_within_total(*self, new, fwd);
        }
        (total, live, ok)
    }

    /// How many closures of the current RUNTIME generation are live: reached
    /// from the globals and this process's roots, and so kept by a compaction.
    pub fn runtime_live_closure_count(&self) -> (r: usize)
        requires
            self.wf(),
            evacuable(*self),
        ensures
            exists|n: CodeSlabs, f: RuntimeForward| #[trigger] evacuated(*self, n, f) && r == n.closures@.len(),
            r <= cur_closures(*self),
    {
        let (new, fwd) = self.runtime_evacuate();
        proof {
            assert(evacuated(*self, new, fwd));
            lemma_live_within_total(*self, new, fwd);
        }
        new.closures.len()
    }
}

/// The objects of generation `g`, by slab and index, reachable from `seeds`.
pub open spec fn reach_set(rt: &RuntimeCode, seeds: Set<Item>, g: usize) -> Set<(NodeKind, int)> {
    Set::new(|p: (NodeKind, int)| exists|x: Item| #[trigger] reachable(rt, seeds, x) && (node_of(x) matches Some((k, h))
        && k == p.0 && h.spec_stamp() == g && h.spec_index() == p.1))
}

/// What a compaction of this process's view keeps alive: the global bindings'
/// values and this process's operand roots.
pub open spec fn evac_seeds(h: Heap) -> Set<Item> {
    Set::new(|x: Item| match x {
        Item::Val(v) => h.runtime.globals@.values().contains(v) || h.roots@.contains(v),
        Item::Env(_) => false,
    })
}

/// A value a reachable item holds is, when it is a handle into generation `g`,
/// in that generation's reachable set.
proof fn lemma_child_in(rt: &RuntimeCode, seeds: Set<Item>, g: usize, f: RuntimeForward, x: Item, v: Value)
    requires
        f.src_region == RUNTIME,
        f.old_gen == g,
        reachable(rt, seeds, x),
        children(rt, x).contains(Item::Val(v)),
    ensures
        val_in(f, reach_set(rt, seeds, g), v),
{
    lemma_child_reachable(rt, seeds, x, Item::Val(v));
    match val_node(v) {
        Some((k, h)) => {
            if is_src(f, h) {
                assert(node_of(Item::Val(v)) == Some((k, h)));
                assert(reach_set(rt, seeds, g).contains((k, h.spec_index() as int)));
            }
        },
        None => {},
    }
}

/// A frame a reachable item holds is, when it lies in generation `g`, in that
/// generation's reachable set.
proof fn lemma_child_env_in(rt: &RuntimeCode, seeds: Set<Item>, g: usize, f: RuntimeForward, x: Item, e: EnvId)
    requires
        f.src_region == RUNTIME,
        f.old_gen == g,
        reachable(rt, seeds, x),
        children(rt, x).contains(Item::Env(e)),
    ensures
        env_in(f, reach_set(rt, seeds, g), e),
{
    lemma_child_reachable(rt, seeds, x, Item::Env(e));
    if is_src(f, e) {
        assert(node_of(Item::Env(e)) == Some((NodeKind::Frame, e)));
        assert(reach_set(rt, seeds, g).contains((NodeKind::Frame, e.spec_index() as int)));
    }
}

/// The reachable objects of a generation hold, of that generation, only
/// reachable objects.
pub proof fn lemma_reach_closed(rt: &RuntimeCode, seeds: Set<Item>, g: usize, f: RuntimeForward)
    requires
        g < 2,
        f.src_region == RUNTIME,
        f.old_gen == g,
    ensures
        closed_set(rt.spec_gen(g as int), f, reach_set(rt, seeds, g)),
{
    let src = rt.spec_gen(g as int);
    let s = reach_set(rt, seeds, g);
    assert forall|i: int| #[trigger] s.contains((NodeKind::Pair, i)) && 0 <= i < src.pairs@.len()
        implies val_in(f, s, src.pairs@[i].0) && val_in(f, s, src.pairs@[i].1) by {
        let x = choose|x: Item| #[trigger] reachable(rt, seeds, x) && (node_of(x) matches Some((k, h))
            && k == NodeKind::Pair && h.spec_stamp() == g && h.spec_index() == i);
        assert(children(rt, x)[0] == Item::Val(src.pairs@[i].0));
        assert(children(rt, x)[1] == Item::Val(src.pairs@[i].1));
        lemma_child_in(rt, seeds, g, f, x, src.pairs@[i].0);
        lemma_child_in(rt, seeds, g, f, x, src.pairs@[i].1);
    }
    assert forall|i: int, j: int| s.contains((NodeKind::Vector, i)) && 0 <= i < src.vectors@.len() && 0 <= j < src.vectors@[i]@.len()
        implies val_in(f, s, #[trigger] src.vectors@[i]@[j]) by {
        let x = choose|x: Item| #[trigger] reachable(rt, seeds, x) && (node_of(x) matches Some((k, h))
            && k == NodeKind::Vector && h.spec_stamp() == g && h.spec_index() == i);
        assert(children(rt, x)[j] == Item::Val(src.vectors@[i]@[j]));
        lemma_child_in(rt, seeds, g, f, x, src.vectors@[i]@[j]);
    }
    assert forall|i: int, j: int| s.contains((NodeKind::Mapping, i)) && 0 <= i < src.maps@.len() && 0 <= j < src.maps@[i]@.len()
        implies val_in(f, s, #[trigger] src.maps@[i]@[j]) by {
        let x = choose|x: Item| #[trigger] reachable(rt, seeds, x) && (node_of(x) matches Some((k, h))
            && k == NodeKind::Mapping && h.spec_stamp() == g && h.spec_index() == i);
        assert(children(rt, x)[j] == Item::Val(src.maps@[i]@[j]));
        lemma_child_in(rt, seeds, g, f, x, src.maps@[i]@[j]);
    }
    assert forall|i: int, j: int| s.contains((NodeKind::Closure, i)) && 0 <= i < src.closures@.len() && 0 <= j < src.closures@[i].refs@.len()
        implies val_in(f, s, #[trigger] src.closures@[i].refs@[j]) by {
        let x = choose|x: Item| #[trigger] reachable(rt, seeds, x) && (node_of(x) matches Some((k, h))
            && k == NodeKind::Closure && h.spec_stamp() == g && h.spec_index() == i);
        assert(children(rt, x)[j] == Item::Val(src.closures@[i].refs@[j]));
        lemma_child_in(rt, seeds, g, f, x, src.closures@[i].refs@[j]);
    }
    assert forall|i: int| #[trigger] s.contains((NodeKind::Closure, i)) && 0 <= i < src.closures@.len()
        implies opt_env_in(f, s, src.closures@[i].env) by {
        let x = choose|x: Item| #[trigger] reachable(rt, seeds, x) && (node_of(x) matches Some((k, h))
            && k == NodeKind::Closure && h.spec_stamp() == g && h.spec_index() == i);
        match src.closures@[i].env {
            Some(e) => {
                assert(children(rt, x)[src.closures@[i].refs@.len() as int] == Item::Env(e));
                lemma_child_env_in(rt, seeds, g, f, x, e);
            },
            None => {},
        }
    }
    assert forall|i: int, j: int| s.contains((NodeKind::Frame, i)) && 0 <= i < src.envs@.len() && 0 <= j < src.envs@[i].vars@.len()
        implies val_in(f, s, (#[trigger] src.envs@[i].vars@[j]).1) by {
        let x = choose|x: Item| #[trigger] reachable(rt, seeds, x) && (node_of(x) matches Some((k, h))
            && k == NodeKind::Frame && h.spec_stamp() == g && h.spec_index() == i);
        assert(children(rt, x)[j] == Item::Val(src.envs@[i].vars@[j].1));
        lemma_child_in(rt, seeds, g, f, x, src.envs@[i].vars@[j].1);
    }
    assert forall|i: int| #[trigger] s.contains((NodeKind::Frame, i)) && 0 <= i < src.envs@.len()
        implies opt_env_in(f, s, src.envs@[i].parent) by {
        let x = choose|x: Item| #[trigger] reachable(rt, seeds, x) && (node_of(x) matches Some((k, h))
            && k == NodeKind::Frame && h.spec_stamp() == g && h.spec_index() == i);
        match src.envs@[i].parent {
            Some(e) => {
                assert(children(rt, x)[src.envs@[i].vars@.len() as int] == Item::Env(e));
                lemma_child_env_in(rt, seeds, g, f, x, e);
            },
            None => {},
        }
    }
}

/// A value held somewhere in the slabs `l`.
pub open spec fn slabs_hold_val(l: CodeSlabs, v: Value) -> bool {
    ||| exists|a: int| 0 <= a < l.pairs@.len() && (l.pairs@[a].0 == v || l.pairs@[a].1 == v)
    ||| exists|a: int, b: int| 0 <= a < l.vectors@.len() && 0 <= b < l.vectors@[a]@.len() && l.vectors@[a]@[b] == v
    ||| exists|a: int, b: int| 0 <= a < l.maps@.len() && 0 <= b < l.maps@[a]@.len() && l.maps@[a]@[b] == v
    ||| exists|a: int, b: int| 0 <= a < l.closures@.len() && 0 <= b < l.closures@[a].refs@.len() && l.closures@[a].refs@[b] == v
    ||| exists|a: int, b: int| 0 <= a < l.envs@.len() && 0 <= b < l.envs@[a].vars@.len() && l.envs@[a].vars@[b].1 == v
}

/// A frame held somewhere in the slabs `l`.
pub open spec fn slabs_hold_env(l: CodeSlabs, e: EnvId) -> bool {
    ||| exists|a: int| 0 <= a < l.closures@.len() && l.closures@[a].env == Some(e)
    ||| exists|a: int| 0 <= a < l.envs@.len() && l.envs@[a].parent == Some(e)
}

/// What a compaction keeps alive: the global bindings and declared signatures,
/// this process's roots, frame roots and dynamic bindings, the caller's extra
/// roots `x` and frames `e`, whatever the LOCAL slabs hold, and the literals of
/// the compiled arms mid-execution.
pub open spec fn collect_seeds(h: Heap, x: Seq<Value>, e: Seq<EnvId>) -> Set<Item> {
    Set::new(|it: Item| match it {
        Item::Val(v) => {
            ||| h.runtime.globals@.values().contains(v)
            ||| h.runtime.declared_sigs@.values().contains(v)
            ||| h.roots@.contains(v)
            ||| x.contains(v)
            ||| (exists|j: int| 0 <= j < h.dynamics@.len() && h.dynamics@[j].1 == v)
            ||| slabs_hold_val(h.local, v)
            ||| (exists|a: int, b: int| 0 <= a < h.live_vm_arms@.len() && 0 <= b < h.live_vm_arms@[a].consts@.len()
                && h.live_vm_arms@[a].consts@[b] == v)
        },
        Item::Env(en) => h.env_roots@.contains(en) || e.contains(en) || slabs_hold_env(h.local, en),
    })
}

/// A seed value, when it is a handle into generation `g`, is in that
/// generation's reachable set.
pub proof fn lemma_seed_val_in(rt: &RuntimeCode, seeds: Set<Item>, g: usize, f: RuntimeForward, v: Value)
    requires
        f.src_region == RUNTIME,
        f.old_gen == g,
        seeds.contains(Item::Val(v)),
    ensures
        val_in(f, reach_set(rt, seeds, g), v),
{
    lemma_seed_reachable(rt, seeds, Item::Val(v));
    match val_node(v) {
        Some((k, h)) => {
            if is_src(f, h) {
                assert(node_of(Item::Val(v)) == Some((k, h)));
                assert(reach_set(rt, seeds, g).contains((k, h.spec_index() as int)));
            }
        },
        None => {},
    }
}

/// A seed frame, when it lies in generation `g`, is in that generation's
/// reachable set.
pub proof fn lemma_seed_env_in(rt: &RuntimeCode, seeds: Set<Item>, g: usize, f: RuntimeForward, e: EnvId)
    requires
        f.src_region == RUNTIME,
        f.old_gen == g,
        seeds.contains(Item::Env(e)),
    ensures
        env_in(f, reach_set(rt, seeds, g), e),
{
    lemma_seed_reachable(rt, seeds, Item::Env(e));
    if is_src(f, e) {
        assert(node_of(Item::Env(e)) == Some((NodeKind::Frame, e)));
        assert(reach_set(rt, seeds, g).contains((NodeKind::Frame, e.spec_index() as int)));
    }
}

/// Everything the LOCAL slabs hold lies in the reachable set of the compaction's
/// seeds.
proof fn lemma_local_in(h: Heap, x: Seq<Value>, e: Seq<EnvId>, f: RuntimeForward)
    requires
        f.src_region == RUNTIME,
        f.old_gen == 0,
    ensures
        slabs_in(f, reach_set(&h.runtime, collect_seeds(h, x, e), 0), h.local),
{
    let seeds = collect_seeds(h, x, e);
    let l = h.local;
    assert forall|a: int| 0 <= a < l.pairs@.len() implies val_in(f, reach_set(&h.runtime, seeds, 0), (#[trigger] l.pairs@[a]).0)
        && val_in(f, reach_set(&h.runtime, seeds, 0), l.pairs@[a].1) by {
        assert(slabs_hold_val(l, l.pairs@[a].0));
        assert(slabs_hold_val(l, l.pairs@[a].1));
        lemma_seed_val_in(&h.runtime, seeds, 0, f, l.pairs@[a].0);
        lemma_seed_val_in(&h.runtime, seeds, 0, f, l.pairs@[a].1);
    }
    assert forall|a: int, b: int| 0 <= a < l.vectors@.len() && 0 <= b < l.vectors@[a]@.len()
        implies val_in(f, reach_set(&h.runtime, seeds, 0), #[trigger] l.vectors@[a]@[b]) by {
        assert(slabs_hold_val(l, l.vectors@[a]@[b]));
        lemma_seed_val_in(&h.runtime, seeds, 0, f, l.vectors@[a]@[b]);
    }
    assert forall|a: int, b: int| 0 <= a < l.maps@.len() && 0 <= b < l.maps@[a]@.len()
        implies val_in(f, reach_set(&h.runtime, seeds, 0), #[trigger] l.maps@[a]@[b]) by {
        assert(slabs_hold_val(l, l.maps@[a]@[b]));
        lemma_seed_val_in(&h.runtime, seeds, 0, f, l.maps@[a]@[b]);
    }
    assert forall|a: int, b: int| 0 <= a < l.closures@.len() && 0 <= b < l.closures@[a].refs@.len()
        implies val_in(f, reach_set(&h.runtime, seeds, 0), #[trigger] l.closures@[a].refs@[b]) by {
        assert(slabs_hold_val(l, l.closures@[a].refs@[b]));
        lemma_seed_val_in(&h.runtime, seeds, 0, f, l.closures@[a].refs@[b]);
    }
    assert forall|a: int| 0 <= a < l.closures@.len()
        implies opt_env_in(f, reach_set(&h.runtime, seeds, 0), (#[trigger] l.closures@[a]).env) by {
        if let Some(en) = l.closures@[a].env {
            assert(slabs_hold_env(l, en));
            lemma_seed_env_in(&h.runtime, seeds, 0, f, en);
        }
    }
    assert forall|a: int, b: int| 0 <= a < l.envs@.len() && 0 <= b < l.envs@[a].vars@.len()
        implies val_in(f, reach_set(&h.runtime, seeds, 0), (#[trigger] l.envs@[a].vars@[b]).1) by {
        assert(slabs_hold_val(l, l.envs@[a].vars@[b].1));
        lemma_seed_val_in(&h.runtime, seeds, 0, f, l.envs@[a].vars@[b].1);
    }
    assert forall|a: int| 0 <= a < l.envs@.len()
        implies opt_env_in(f, reach_set(&h.runtime, seeds, 0), (#[trigger] l.envs@[a]).parent) by {
        if let Some(en) = l.envs@[a].parent {
            assert(slabs_hold_env(l, en));
            lemma_seed_env_in(&h.runtime, seeds, 0, f, en);
        }
    }
}

/// The state re-homing `v` may run from: when `v` lies in the other
/// generation, that generation holds
/// no dangling handle into itself, `v` points inside it, and the current
/// generation has room for its copy.
pub open spec fn rehomable(h: Heap, v: Value) -> bool {
    let c = h.runtime.current_gen;
    let o = (1 - c) as usize;
    &&& spec_value_in_gen(v, o) ==> {
        &&& src_closed(h.runtime.spec_gen(o as int), gen_fwd(RUNTIME, o))
        &&& in_src(h.runtime.spec_gen(o as int), gen_fwd(RUNTIME, o), v)
        &&& forall|k: NodeKind| #[trigger] slab_len(h.runtime.spec_gen(c as int), k) + slab_len(h.runtime.spec_gen(o as int), k) < 0x1_0000_0000
    }
}

/// `v`'s sub-graph copied out of the other generation into the current one
/// through `f`, and `r` is `v` rewritten to the copy.
pub open spec fn rehomed(h0: Heap, h1: Heap, f: RuntimeForward, v: Value, r: Value) -> bool {
    let c = h0.runtime.current_gen;
    let o = (1 - c) as usize;
    let s = h0.runtime.spec_gen(o as int);
    let d0 = h0.runtime.spec_gen(c as int);
    let d1 = h1.runtime.spec_gen(c as int);
    &&& f.src_region == RUNTIME
    &&& f.old_gen == o
    &&& f.dest_gen == c
    &&& fwd_wf(s, d1, f)
    &&& all_copied(s, d1, f)
    &&& frame(d0, d1)
    &&& covered(d0, d1, f)
    &&& done(f, v)
    &&& r == fwd_value(f, v)
    &&& h1.runtime.spec_gen(o as int) == s
}

impl Heap {
    /// `v`, with its sub-graph copied into the current generation when it lies
    /// in the other one; unchanged otherwise.
    pub fn rehome_to_current(&mut self, v: Value) -> (r: Value)
        requires
            old(self).wf(),
            rehomable(*old(self), v),
        ensures
            final(self).wf(),
            !spec_value_in_gen(v, (1 - old(self).runtime.current_gen) as usize) ==> r == v && *final(self) == *old(self),
            spec_value_in_gen(v, (1 - old(self).runtime.current_gen) as usize) ==> {
                &&& exists|f: RuntimeForward| #[trigger] rehomed(*old(self), *final(self), f, v, r)
                &&& final(self).runtime == (RuntimeCode {
                    gen0: final(self).runtime.gen0,
                    gen1: final(self).runtime.gen1,
                    ..old(self).runtime
                })
                &&& final(self).same_but_runtime(&*old(self))
            },
    {
        let cur = self.runtime.cur_gen();
        let other = 1 - cur;
        if !value_in_gen(v, other) {
            return v;
        }
        let ghost h0 = *self;
        let mut fwd = RuntimeForward::for_gens(RUNTIME, other, cur, self.runtime.gen_slabs(other));
        let ghost f0 = fwd;
        proof {
            assert(self.runtime.spec_gen(0) == self.runtime.gen0);
            assert(self.runtime.spec_gen(1) == self.runtime.gen1);
            lemma_src_closed_ext(self.runtime.spec_gen(other as int), gen_fwd(RUNTIME, other), fwd);
            assert(fwd_wf(self.runtime.spec_gen(other as int), self.runtime.spec_gen(cur as int), fwd));
            assert(all_copied(self.runtime.spec_gen(other as int), self.runtime.spec_gen(cur as int), fwd));
        }
        let r = if other == 0 {
            flush_rt_value(&self.runtime.gen0, &mut self.runtime.gen1, &mut fwd, v)
        } else {
            flush_rt_value(&self.runtime.gen1, &mut self.runtime.gen0, &mut fwd, v)
        };
        proof {
            lemma_all_copied_step(h0.runtime.spec_gen(other as int), h0.runtime.spec_gen(cur as int), f0, self.runtime.spec_gen(cur as int), fwd);
            assert(rehomed(h0, *self, fwd, v, r));
        }
        r
    }
}

} // verus!
