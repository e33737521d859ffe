//! The per-process heap as its collector, caches and compilation context see it:
//! the runtime's shared code region, this process's roots and local data, the VM
//! caches, and the cold compilation-context block.

use vstd::prelude::*;
use std::collections::HashMap;
use std::collections::HashSet;
use std::sync::Arc;
use vstd::std_specs::iter::IteratorSpec;
use crate::value::{Symbol, Value, EnvId};
use crate::runtime_code::{RuntimeCode, CodeSlabs, SourceLoc, FormPos, Pos, lemma_take_push_to_set};
use crate::vm_cache::{
    CompiledArm, CompiledClosure, CallIcEntry, FastLink, GlobalIcEntry, DispatchIcEntry,
};

use crate::map_ops::MapArena;
use crate::bignum::{BigDigits, big_normal};

verus! {

/// Every how many safepoints a process re-runs its drain self-report.
pub const DRAIN_REPORT_STRIDE: u64 = 64;

/// Every how many safepoints a lingering drain re-attempts the free.
pub const RT_DRAIN_SCAN_STRIDE: u64 = 64;

/// The floor of the adaptive RUNTIME collection threshold.
pub const RT_GC_FLOOR: usize = 4096;
/// A private probe whose first-phase seed exceeds this many items is re-walked
/// only once every [`P1_REVALIDATE_STRIDE`] safepoints while it stays dirty.
pub const P1_LARGE_SEED: usize = 4096;
/// How often a large, first-phase-dirty private probe re-walks.
pub const P1_REVALIDATE_STRIDE: u64 = 64;
/// How often a second-phase-dirty private probe re-walks.
pub const P2_REVALIDATE_STRIDE: u64 = 64;

/// How a bare name was `(:use …)`-imported: from one module, or ambiguously from
/// several (the sorted, deduplicated candidates).
#[derive(Clone, Debug, PartialEq, Eq)]
pub enum ImportEntry {
    One(Symbol),
    Ambiguous(Vec<Symbol>),
}

/// The compilation context of one process: the file being loaded, the namespace
/// and package being compiled into, the forward-reference name sets, the import
/// table, and the source positions of its LOCAL list forms.
pub struct ColdHeap {
    pub current_file: Option<String>,
    pub compile_ns: Option<Symbol>,
    pub package_prefix: Option<Symbol>,
    pub package_modules: HashSet<Symbol>,
    pub ns_known_names: HashSet<Symbol>,
    pub ns_known_by_module: HashMap<Symbol, HashSet<Symbol>>,
    pub ns_assume_own: bool,
    pub imports: HashMap<Symbol, ImportEntry>,
    pub form_pos: HashMap<u64, FormPos>,
}

impl ColdHeap {
    /// An empty context: no file, root namespace, no package, no imports.
    pub fn new() -> (r: ColdHeap)
        ensures
            r.current_file is None,
            r.compile_ns is None,
            r.package_prefix is None,
            r.package_modules@ == Set::<Symbol>::empty(),
            r.ns_known_names@ == Set::<Symbol>::empty(),
            r.ns_known_by_module@ == Map::<Symbol, HashSet<Symbol>>::empty(),
            !r.ns_assume_own,
            r.imports@ == Map::<Symbol, ImportEntry>::empty(),
            r.form_pos@ == Map::<u64, FormPos>::empty(),
    {
        ColdHeap {
            current_file: None,
            compile_ns: None,
            package_prefix: None,
            package_modules: HashSet::new(),
            ns_known_names: HashSet::new(),
            ns_known_by_module: HashMap::new(),
            ns_assume_own: false,
            imports: HashMap::new(),
            form_pos: HashMap::new(),
        }
    }
}

/// One process's heap: the runtime it shares, its roots and local data, its VM
/// caches, and its compilation context.
pub struct Heap {
    /// The runtime's shared code region.
    pub runtime: RuntimeCode,
    /// Definition sites recorded for the immutable prelude.
    pub prelude_def_sites: HashMap<Symbol, SourceLoc>,
    /// The compilation context.
    pub cold: ColdHeap,
    /// The operand roots of this process.
    pub roots: Vec<Value>,
    /// The environment roots of this process.
    pub env_roots: Vec<EnvId>,
    /// The dynamic-binding stack.
    pub dynamics: Vec<(Symbol, Value)>,
    /// The LOCAL data of this process, as the generation probe walks it.
    pub local: CodeSlabs,
    /// Compiled arms mid-execution, one per active frame.
    pub live_vm_arms: Vec<Arc<CompiledArm>>,
    /// The compiled-body cache for closures keyed by their own handle.
    pub vm_cache_runtime: HashMap<u64, Option<Arc<CompiledClosure>>>,
    /// The compiled-body cache for closures keyed by their first body form.
    pub vm_cache_body: HashMap<u64, Option<Arc<CompiledClosure>>>,
    /// The global-lookup memo.
    pub global_ic: HashMap<Symbol, Value>,
    /// The qualified-reference rooting memo.
    pub rooted_ref_ic: HashMap<Symbol, Option<Symbol>>,
    /// Call-site inline caches, indexed by absolute site id.
    pub vm_call_ics: Vec<Option<CallIcEntry>>,
    /// The flat fast-link mirror of `vm_call_ics`, grown in lockstep.
    pub vm_fast_links: Vec<FastLink>,
    /// Each absolute call site's recorded source position, for diagnostics.
    pub dbg_site_pos: Vec<Option<(Pos, Option<String>)>>,
    /// Global-read inline caches, indexed by absolute site id.
    pub vm_global_ics: Vec<Option<GlobalIcEntry>>,
    /// Ability-dispatch caches, keyed by the packed op key.
    pub dispatch_ics: HashMap<u64, DispatchIcEntry>,
    /// Each compiled arm's IC block bases in this process.
    pub arm_ic_blocks: HashMap<u64, (u32, u32)>,
    /// The current activation's call-site block base.
    pub cur_ic_base: u32,
    /// The current activation's global-site block base.
    pub cur_gic_base: u32,
    /// The free epoch this process's body cache was last synced to.
    pub seen_free_epoch: u64,
    /// The drain epoch this process last acked clean (0: never).
    pub acked_drain_epoch: u64,
    /// The drain self-report throttle.
    pub drain_report_tick: u64,
    /// The drain epoch in which the private probe last found this process dirty
    /// through its cheap roots (`u64::MAX`: disarmed).
    pub p1_dirty_epoch: u64,
    /// Safepoints since that verdict.
    pub p1_dirty_tick: u64,
    /// The drain epoch in which the private probe last found this process dirty
    /// through its local data (`u64::MAX`: disarmed).
    pub p2_dirty_epoch: u64,
    /// Safepoints since that verdict.
    pub p2_dirty_tick: u64,
    /// The lingering-drain free-attempt throttle.
    pub rt_drain_tick: u64,
    /// Nesting depth of windows in which RUNTIME compaction is suppressed.
    pub rt_collect_block: u32,
    /// The RUNTIME closure count at which the next collection is due.
    pub rt_gc_threshold: usize,
    /// Whether this heap collects automatically.
    pub gc_enabled: bool,
    /// The trie nodes of this process's maps.
    pub maps: MapArena,
    /// This process's LOCAL bignums, each strictly outside the `i64` range.
    pub bigints: Vec<BigDigits>,
}

impl Heap {
    /// The heap's structural invariant: the runtime's generation indices are in
    /// range, the fast-link mirror is as long as the call-site table, and while a
    /// drain is armed every recorded ack is for the current epoch and the ack count
    /// is the number of acked processes.
    pub open spec fn wf(&self) -> bool {
        &&& self.runtime.wf()
        &&& self.maps.wf()
        &&& self.vm_fast_links@.len() == self.vm_call_ics@.len()
        &&& forall|i: int| 0 <= i < self.bigints@.len() ==> big_normal(#[trigger] self.bigints@[i])
        &&& self.runtime.drain_active ==> {
            &&& self.runtime.drain_acked == self.runtime.drain_acks@.len()
            &&& forall|p: u64| #[trigger]
                self.runtime.drain_acks@.contains_key(p) ==> self.runtime.drain_acks@[p]
                    == self.runtime.drain_epoch
        }
    }

    /// Every field of the process other than the shared runtime is as in `o`.
    pub open spec fn same_but_runtime(&self, o: &Heap) -> bool {
        &&& self.prelude_def_sites == o.prelude_def_sites
        &&& self.cold == o.cold
        &&& self.roots == o.roots
        &&& self.env_roots == o.env_roots
        &&& self.dynamics == o.dynamics
        &&& self.local == o.local
        &&& self.live_vm_arms == o.live_vm_arms
        &&& self.vm_cache_runtime == o.vm_cache_runtime
        &&& self.vm_cache_body == o.vm_cache_body
        &&& self.global_ic == o.global_ic
        &&& self.rooted_ref_ic == o.rooted_ref_ic
        &&& self.vm_call_ics == o.vm_call_ics
        &&& self.vm_fast_links == o.vm_fast_links
        &&& self.dbg_site_pos == o.dbg_site_pos
        &&& self.vm_global_ics == o.vm_global_ics
        &&& self.dispatch_ics == o.dispatch_ics
        &&& self.arm_ic_blocks == o.arm_ic_blocks
        &&& self.cur_ic_base == o.cur_ic_base
        &&& self.cur_gic_base == o.cur_gic_base
        &&& self.seen_free_epoch == o.seen_free_epoch
        &&& self.acked_drain_epoch == o.acked_drain_epoch
        &&& self.drain_report_tick == o.drain_report_tick
        &&& self.p1_dirty_epoch == o.p1_dirty_epoch
        &&& self.p1_dirty_tick == o.p1_dirty_tick
        &&& self.p2_dirty_epoch == o.p2_dirty_epoch
        &&& self.p2_dirty_tick == o.p2_dirty_tick
        &&& self.rt_drain_tick == o.rt_drain_tick
        &&& self.rt_collect_block == o.rt_collect_block
        &&& self.rt_gc_threshold == o.rt_gc_threshold
        &&& self.gc_enabled == o.gc_enabled
        &&& self.maps == o.maps
        &&& self.bigints == o.bigints
    }

    /// A fresh process heap on a fresh runtime.
    pub fn new(runtime_tag: u64) -> (r: Heap)
        ensures
            r.wf(),
            r.runtime.current_gen == 0,
            r.runtime.gen0.spec_is_empty(),
            r.runtime.gen1.spec_is_empty(),
            !r.runtime.drain_active,
            !r.runtime.aging,
            r.runtime.gen_inflight == [0usize, 0usize],
            r.roots@.len() == 0,
            r.live_vm_arms@.len() == 0,
            r.vm_call_ics@.len() == 0,
            r.vm_global_ics@.len() == 0,
            r.cur_ic_base == 0,
            r.cur_gic_base == 0,
            r.gc_enabled,
            r.rt_collect_block == 0,
            r.rt_gc_threshold == RT_GC_FLOOR,
            r.cold.current_file is None,
            r.cold.compile_ns is None,
            r.cold.package_prefix is None,
            r.cold.imports@ == Map::<Symbol, ImportEntry>::empty(),
            r.cold.ns_known_names@ == Set::<Symbol>::empty(),
            !r.cold.ns_assume_own,
            r.maps.nodes@.len() == 0,
            r.bigints@.len() == 0,
    {
        Heap {
            runtime: RuntimeCode::new(runtime_tag),
            prelude_def_sites: HashMap::new(),
            cold: ColdHeap::new(),
            roots: Vec::new(),
            env_roots: Vec::new(),
            dynamics: Vec::new(),
            local: CodeSlabs::new(),
            live_vm_arms: Vec::new(),
            vm_cache_runtime: HashMap::new(),
            vm_cache_body: HashMap::new(),
            global_ic: HashMap::new(),
            rooted_ref_ic: HashMap::new(),
            vm_call_ics: Vec::new(),
            vm_fast_links: Vec::new(),
            dbg_site_pos: Vec::new(),
            vm_global_ics: Vec::new(),
            dispatch_ics: HashMap::new(),
            arm_ic_blocks: HashMap::new(),
            cur_ic_base: 0,
            cur_gic_base: 0,
            seen_free_epoch: 0,
            acked_drain_epoch: 0,
            drain_report_tick: 0,
            p1_dirty_epoch: 0xFFFF_FFFF_FFFF_FFFFu64,
            p1_dirty_tick: 0,
            p2_dirty_epoch: 0xFFFF_FFFF_FFFF_FFFFu64,
            p2_dirty_tick: 0,
            rt_drain_tick: 0,
            rt_collect_block: 0,
            rt_gc_threshold: RT_GC_FLOOR,
            gc_enabled: true,
            maps: MapArena::new(0),
            bigints: Vec::new(),
        }
    }
}

/// A copy of a set of symbols.
pub fn copy_symbol_set(s: &HashSet<Symbol>) -> (r: HashSet<Symbol>)
    ensures
        r@ == s@,
{
    broadcast use vstd::std_specs::hash::group_hash_axioms;

    let mut out: HashSet<Symbol> = HashSet::new();
    let ghost full: Seq<Symbol> = s.iter().remaining().unref();
    let ghost mut done: nat = 0;
    for x in it: s.iter()
        invariant
            full == s.iter().remaining().unref(),
            full.to_set() == s@,
            it.seq().unref() == full,
            done == it.index(),
            out@ == full.take(it.index() as int).to_set(),
        ensures
            out@ == full.take(done as int).to_set(),
            done == full.len(),
    {
        proof {
            lemma_take_push_to_set(full, it.index() as int);
            done = done + 1;
        }
        out.insert(*x);
    }
    proof {
        assert(full.take(full.len() as int) == full);
    }
    out
}


impl Heap {
    /// Are shared-closure messages in flight against generation `gen`?
    pub fn gen_has_inflight(&self, gen: usize) -> (r: bool)
        requires
            gen < 2,
        ensures
            r == (self.runtime.gen_inflight[gen as int] != 0),
    {
        self.runtime.gen_inflight[gen] != 0
    }

    /// Forgets this process's cached clean drain ack, so its next safepoint walks
    /// again: a handle into the draining generation may just have arrived.
    pub fn rearm_drain_ack(&mut self)
        ensures
            *final(self) == (Heap { acked_drain_epoch: 0, ..*old(self) }),
    {
        self.acked_drain_epoch = 0;
    }
}

} // verus!
