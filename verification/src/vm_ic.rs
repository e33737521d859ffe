//! The compiling VM's per-process caches, as heap operations: the compiled-body
//! cache (cleared once after a generation is freed), the runtime-shared compiled
//! closures, the per-arm inline-cache blocks, the call-site and global-read
//! inline caches, and the registry of arms mid-execution.

use vstd::prelude::*;
use std::sync::Arc;
use crate::value::{Symbol, Value, EnvId, Handle, LOCAL, spec_handle_of};
use crate::runtime_code::{RuntimeCode, Pos};
use crate::vm_cache::{CompiledArm, CompiledClosure, GlobalIcEntry, CallIcEntry, FastLink, VmCacheKey, NativeCode};
use crate::heap::Heap;
use crate::symbols::push_decimal;

verus! {

broadcast use vstd::std_specs::hash::group_hash_axioms;

/// Could the LOCAL collector move this value? (A LOCAL handle.)
pub open spec fn spec_is_movable(v: Value) -> bool {
    spec_handle_of(v) matches Some(h) && h.spec_region() == LOCAL
}

/// Could the LOCAL collector move this value?
pub fn is_movable(v: Value) -> (r: bool)
    ensures
        r == spec_is_movable(v),
{
    match v {
        Value::BigInt(h) | Value::Str(h) | Value::Rope(h) | Value::Pair(h) | Value::Vector(h)
        | Value::Mapping(h) | Value::Fn(h) | Value::Macro(h) | Value::Native(h) | Value::Transient(
            h,
        ) => h.region() == LOCAL,
        _ => false,
    }
}

/// The absolute index of arm-relative site `site` in a block based at `base`.
pub open spec fn abs_site(base: u32, site: u32) -> int {
    base.wrapping_add(site) as int
}

/// The recorded position of arm-relative call site `i` of `arm` (none past the
/// positions the arm carries).
pub open spec fn arm_site_pos(arm: &CompiledArm, i: int) -> Option<(Pos, Option<String>)> {
    if 0 <= i < arm.site_pos@.len() {
        arm.site_pos@[i]
    } else {
        None
    }
}

/// The debug positions after an arm's block of call sites was laid at `base`:
/// each of its sites carries the arm's position for it, every other recorded
/// position stays, and the table covers the block.
pub open spec fn site_pos_laid(
    old_pos: Seq<Option<(Pos, Option<String>)>>,
    new_pos: Seq<Option<(Pos, Option<String>)>>,
    arm: &CompiledArm,
    base: int,
) -> bool {
    &&& new_pos.len() == if old_pos.len() > base + arm.nsites {
        old_pos.len() as int
    } else {
        base + arm.nsites
    }
    &&& forall|i: int| 0 <= i < arm.nsites ==> #[trigger] new_pos[base + i] == arm_site_pos(arm, i)
    &&& forall|j: int|
        0 <= j < old_pos.len() && !(base <= j < base + arm.nsites) ==> #[trigger] new_pos[j]
            == old_pos[j]
    &&& forall|j: int| old_pos.len() <= j < base ==> #[trigger] new_pos[j] is None
}

impl Heap {
    /// The body cache a key lives in.
    pub open spec fn body_cache(&self, k: VmCacheKey) -> Map<u64, Option<Arc<CompiledClosure>>> {
        match k {
            VmCacheKey::Runtime(_) => self.vm_cache_runtime@,
            VmCacheKey::Body(_) => self.vm_cache_body@,
        }
    }

    /// The key's handle bits.
    pub open spec fn key_bits(k: VmCacheKey) -> u64 {
        match k {
            VmCacheKey::Runtime(x) => x,
            VmCacheKey::Body(x) => x,
        }
    }

    /// The epoch the inline caches validate against: the binding version.
    pub fn global_epoch(&self) -> (r: u64)
        ensures
            r == self.runtime.version,
    {
        self.runtime.version
    }

    /// Clear the compiled-body cache once if a generation was freed since it was
    /// last synced: a freed slot's handles are reused bit for bit.
    pub fn sync_free_epoch(&mut self)
        ensures
            old(self).seen_free_epoch == old(self).runtime.free_epoch ==> *final(self) == *old(self),
            old(self).seen_free_epoch != old(self).runtime.free_epoch ==> *final(self) == (Heap {
                vm_cache_runtime: final(self).vm_cache_runtime,
                vm_cache_body: final(self).vm_cache_body,
                seen_free_epoch: old(self).runtime.free_epoch,
                ..*old(self)
            }) && final(self).vm_cache_runtime@.len() == 0 && final(self).vm_cache_body@.len() == 0,
    {
        let cur = self.runtime.free_epoch;
        if self.seen_free_epoch != cur {
            self.vm_cache_runtime.clear();
            self.vm_cache_body.clear();
            self.seen_free_epoch = cur;
        }
    }

    /// Look up the compiled body for `k` and resolve it to its `argc` arm. Outer
    /// `None`: not cached; `Some(None)`: cached, but no arm takes `argc` (or the
    /// body is not compilable).
    pub fn vm_cache_arm(&mut self, k: VmCacheKey, argc: usize) -> (r: Option<Option<Arc<CompiledArm>>>)
        ensures
            old(self).seen_free_epoch != old(self).runtime.free_epoch ==> r is None,
            old(self).seen_free_epoch == old(self).runtime.free_epoch ==> {
                let m = old(self).body_cache(k);
                let key = Heap::key_bits(k);
                &&& (r is Some <==> m.contains_key(key))
                &&& (r matches Some(a) ==> (match m[key] {
                    Some(cc) => a == cc.spec_arm_for(argc),
                    None => a is None,
                }))
            },
            old(self).seen_free_epoch == old(self).runtime.free_epoch ==> *final(self) == *old(self),
            final(self).seen_free_epoch == old(self).runtime.free_epoch,
    {
        self.sync_free_epoch();
        let entry = match k {
            VmCacheKey::Runtime(x) => self.vm_cache_runtime.get(&x),
            VmCacheKey::Body(x) => self.vm_cache_body.get(&x),
        };
        match entry {
            None => None,
            Some(cc) => match cc {
                Some(cc) => Some(cc.arm_for(argc)),
                None => Some(None),
            },
        }
    }

    /// The runtime's current free-generation epoch.
    pub fn free_epoch_now(&self) -> (r: u64)
        ensures
            r == self.runtime.free_epoch,
    {
        self.runtime.free_epoch
    }

    /// The runtime-shared compiled closure for handle `bits`, unless it was
    /// compiled before a generation was freed.
    pub fn shared_closure_lookup(&self, bits: u64) -> (r: Option<Arc<CompiledClosure>>)
        ensures
            r is Some <==> (self.runtime.shared_closures@.contains_key(bits)
                && self.runtime.shared_closures@[bits].0 == self.runtime.free_epoch),
            r matches Some(cc) ==> cc == self.runtime.shared_closures@[bits].1,
    {
        let cur = self.free_epoch_now();
        match self.runtime.shared_closures.get(&bits) {
            Some(e) => {
                if e.0 == cur {
                    Some(e.1.clone())
                } else {
                    None
                }
            },
            None => None,
        }
    }

    /// Publish a compiled closure under the free epoch observed before compiling.
    pub fn shared_closure_publish(&mut self, bits: u64, fe: u64, cc: Arc<CompiledClosure>)
        requires
            old(self).wf(),
        ensures
            final(self).wf(),
            final(self).runtime.shared_closures@ == old(self).runtime.shared_closures@.insert(bits, (fe, cc)),
            final(self).runtime == (RuntimeCode {
                shared_closures: final(self).runtime.shared_closures,
                ..old(self).runtime
            }),
            final(self).same_but_runtime(&*old(self)),
    {
        self.runtime.shared_closures.insert(bits, (fe, cc));
    }

    /// Drop every runtime-shared compiled closure.
    pub fn shared_closures_clear(&mut self)
        requires
            old(self).wf(),
        ensures
            final(self).wf(),
            final(self).runtime.shared_closures@.len() == 0,
            final(self).runtime == (RuntimeCode {
                shared_closures: final(self).runtime.shared_closures,
                ..old(self).runtime
            }),
            final(self).same_but_runtime(&*old(self)),
    {
        self.runtime.shared_closures.clear();
    }

    /// Record the compile result for `k`.
    pub fn vm_cache_put(&mut self, k: VmCacheKey, v: Option<Arc<CompiledClosure>>)
        ensures
            final(self).body_cache(k) == old(self).body_cache(k).insert(Heap::key_bits(k), v),
            k is Runtime ==> final(self).vm_cache_body == old(self).vm_cache_body,
            k is Body ==> final(self).vm_cache_runtime == old(self).vm_cache_runtime,
            *final(self) == (Heap {
                vm_cache_runtime: final(self).vm_cache_runtime,
                vm_cache_body: final(self).vm_cache_body,
                ..*old(self)
            }),
    {
        match k {
            VmCacheKey::Runtime(x) => {
                self.vm_cache_runtime.insert(x, v);
            },
            VmCacheKey::Body(x) => {
                self.vm_cache_body.insert(x, v);
            },
        }
    }

    /// This process's IC block for `arm`: the `(call-site base, global-site base)`
    /// its arm-relative sites index from. Allocated on the arm's first activation
    /// by growing the tables (and the fast-link mirror and the debug positions in
    /// lockstep), and remembered under the arm's id; a site-free arm needs none.
    pub fn vm_arm_block(&mut self, arm: &CompiledArm) -> (r: (u32, u32))
        requires
            old(self).wf(),
        ensures
            final(self).wf(),
            arm.nsites == 0 && arm.ngsites == 0 ==> r == (0u32, 0u32) && *final(self) == *old(self),
            !(arm.nsites == 0 && arm.ngsites == 0) && old(self).arm_ic_blocks@.contains_key(arm.uid)
                ==> r == old(self).arm_ic_blocks@[arm.uid] && *final(self) == *old(self),
            !(arm.nsites == 0 && arm.ngsites == 0) && !old(self).arm_ic_blocks@.contains_key(arm.uid) ==> {
                &&& r == (old(self).vm_call_ics@.len() as u32, old(self).vm_global_ics@.len() as u32)
                &&& final(self).vm_call_ics@ == old(self).vm_call_ics@ + Seq::new(
                    arm.nsites as nat,
                    |i: int| None::<CallIcEntry>,
                )
                &&& final(self).vm_fast_links@ == old(self).vm_fast_links@ + Seq::new(
                    arm.nsites as nat,
                    |i: int| FastLink::spec_empty(),
                )
                &&& final(self).vm_global_ics@ == old(self).vm_global_ics@ + Seq::new(
                    arm.ngsites as nat,
                    |i: int| None::<GlobalIcEntry>,
                )
                &&& final(self).arm_ic_blocks@ == old(self).arm_ic_blocks@.insert(arm.uid, r)
                &&& site_pos_laid(
                    old(self).dbg_site_pos@,
                    final(self).dbg_site_pos@,
                    arm,
                    old(self).vm_call_ics@.len() as int,
                )
                &&& *final(self) == (Heap {
                    vm_call_ics: final(self).vm_call_ics,
                    vm_fast_links: final(self).vm_fast_links,
                    vm_global_ics: final(self).vm_global_ics,
                    arm_ic_blocks: final(self).arm_ic_blocks,
                    dbg_site_pos: final(self).dbg_site_pos,
                    ..*old(self)
                })
            },
    {
        if arm.nsites == 0 && arm.ngsites == 0 {
            return (0, 0);
        }
        match self.arm_ic_blocks.get(&arm.uid) {
            Some(b) => {
                return *b;
            },
            None => {},
        }
        let base = self.vm_call_ics.len();
        let ghost c0 = self.vm_call_ics@;
        let ghost f0 = self.vm_fast_links@;
        let mut j: u32 = 0;
        while j < arm.nsites
            invariant
                j <= arm.nsites,
                c0.len() == f0.len(),
                c0 == old(self).vm_call_ics@,
                f0 == old(self).vm_fast_links@,
                *self == (Heap { vm_call_ics: self.vm_call_ics, vm_fast_links: self.vm_fast_links, ..*old(self) }),
                self.vm_call_ics@ == c0 + Seq::new(j as nat, |i: int| None::<CallIcEntry>),
                self.vm_fast_links@ == f0 + Seq::new(j as nat, |i: int| FastLink::spec_empty()),
            decreases arm.nsites - j,
        {
            self.vm_call_ics.push(None);
            self.vm_fast_links.push(FastLink::empty());
            j = j + 1;
            proof {
                assert(self.vm_call_ics@ =~= c0 + Seq::new(j as nat, |i: int| None::<CallIcEntry>));
                assert(self.vm_fast_links@ =~= f0 + Seq::new(j as nat, |i: int| FastLink::spec_empty()));
            }
        }
        let total = self.vm_call_ics.len();
        let ghost mid = *self;
        // The debug positions of the arm's sites, copied into the absolute table.
        let ghost p0 = self.dbg_site_pos@;
        while self.dbg_site_pos.len() < base
            invariant
                p0 == old(self).dbg_site_pos@,
                self.dbg_site_pos@.len() >= p0.len(),
                self.dbg_site_pos@.len() <= if p0.len() > base { p0.len() as int } else { base as int },
                forall|j: int| 0 <= j < p0.len() ==> #[trigger] self.dbg_site_pos@[j] == p0[j],
                forall|j: int| p0.len() <= j < self.dbg_site_pos@.len() ==> #[trigger] self.dbg_site_pos@[j] is None,
                *self == (Heap { dbg_site_pos: self.dbg_site_pos, ..mid }),
            decreases base - self.dbg_site_pos@.len(),
        {
            self.dbg_site_pos.push(None);
        }
        let ghost p1 = self.dbg_site_pos@;
        let mut i: u32 = 0;
        while i < arm.nsites
            invariant
                total == base + arm.nsites,
                i <= arm.nsites,
                p0 == old(self).dbg_site_pos@,
                p1.len() == if p0.len() > base { p0.len() as int } else { base as int },
                forall|j: int| 0 <= j < p0.len() ==> #[trigger] p1[j] == p0[j],
                forall|j: int| p0.len() <= j < p1.len() ==> #[trigger] p1[j] is None,
                self.dbg_site_pos@.len() == if p1.len() > base + i { p1.len() as int } else { base + i },
                forall|k: int| 0 <= k < i ==> #[trigger] self.dbg_site_pos@[base + k] == arm_site_pos(arm, k),
                forall|j: int|
                    0 <= j < p1.len() && !(base <= j < base + i) ==> #[trigger] self.dbg_site_pos@[j] == p1[j],
                *self == (Heap { dbg_site_pos: self.dbg_site_pos, ..mid }),
            decreases arm.nsites - i,
        {
            let at = base + (i as usize);
            let p = if (i as usize) < arm.site_pos.len() {
                copy_site_pos(&arm.site_pos[i as usize])
            } else {
                None
            };
            if at < self.dbg_site_pos.len() {
                self.dbg_site_pos.set(at, p);
            } else {
                self.dbg_site_pos.push(p);
            }
            i = i + 1;
        }
        proof {
            assert(site_pos_laid(p0, self.dbg_site_pos@, arm, base as int));
        }
        let gbase = self.vm_global_ics.len();
        let ghost g0 = self.vm_global_ics@;
        let ghost mid2 = *self;
        let mut j: u32 = 0;
        while j < arm.ngsites
            invariant
                j <= arm.ngsites,
                g0 == mid2.vm_global_ics@,
                *self == (Heap { vm_global_ics: self.vm_global_ics, ..mid2 }),
                self.vm_global_ics@ == g0 + Seq::new(j as nat, |i: int| None::<GlobalIcEntry>),
            decreases arm.ngsites - j,
        {
            self.vm_global_ics.push(None);
            j = j + 1;
            proof {
                assert(self.vm_global_ics@ =~= g0 + Seq::new(j as nat, |i: int| None::<GlobalIcEntry>));
            }
        }
        let r = (#[verifier::truncate] (base as u32), #[verifier::truncate] (gbase as u32));
        self.arm_ic_blocks.insert(arm.uid, r);
        r
    }

    /// Set the current activation's IC block bases, returning the previous ones.
    pub fn set_ic_bases(&mut self, bases: (u32, u32)) -> (r: (u32, u32))
        ensures
            r == (old(self).cur_ic_base, old(self).cur_gic_base),
            *final(self) == (Heap { cur_ic_base: bases.0, cur_gic_base: bases.1, ..*old(self) }),
    {
        let old_bases = (self.cur_ic_base, self.cur_gic_base);
        self.cur_ic_base = bases.0;
        self.cur_gic_base = bases.1;
        old_bases
    }

    /// The current activation's IC block bases.
    pub fn ic_bases(&self) -> (r: (u32, u32))
        ensures
            r == (self.cur_ic_base, self.cur_gic_base),
    {
        (self.cur_ic_base, self.cur_gic_base)
    }

    /// A call site's recorded source position as `file:line:col` (`?` for an
    /// unknown file), or a note that none was recorded.
    pub fn dbg_site_loc(&self, site: u32) -> (r: String)
        ensures
            ({
                let a = abs_site(self.cur_ic_base, site);
                if 0 <= a < self.dbg_site_pos@.len() && self.dbg_site_pos@[a] is Some {
                    let (p, file) = self.dbg_site_pos@[a]->0;
                    r@ == (match file {
                        Some(f) => f@,
                        None => seq!['?'],
                    }) + seq![':'] + crate::symbols::decimal(p.line as u64) + seq![':']
                        + crate::symbols::decimal(p.col as u64)
                } else {
                    r@ == seq!['<', 's', 'i', 't', 'e', ' '] + crate::symbols::decimal(site as u64) + seq![
                        ':',
                        ' ',
                        'n',
                        'o',
                        ' ',
                        'r',
                        'e',
                        'c',
                        'o',
                        'r',
                        'd',
                        'e',
                        'd',
                        ' ',
                        'p',
                        'o',
                        's',
                        '>',
                    ]
                }
            }),
    {
        let a = self.cur_ic_base.wrapping_add(site) as usize;
        proof {
            reveal_strlit("?");
            reveal_strlit(":");
            reveal_strlit("<site ");
            reveal_strlit(": no recorded pos>");
        }
        if a < self.dbg_site_pos.len() {
            match &self.dbg_site_pos[a] {
                Some((p, file)) => {
                    let mut out = String::new();
                    match file {
                        Some(f) => out.append(f.as_str()),
                        None => out.append("?"),
                    }
                    out.append(":");
                    push_decimal(&mut out, p.line as u64);
                    out.append(":");
                    push_decimal(&mut out, p.col as u64);
                    proof {
                        assert(out@ =~= (match file {
                            Some(f) => f@,
                            None => seq!['?'],
                        }) + seq![':'] + crate::symbols::decimal(p.line as u64) + seq![':']
                            + crate::symbols::decimal(p.col as u64));
                    }
                    return out;
                },
                None => {},
            }
        }
        let mut out = String::new();
        out.append("<site ");
        push_decimal(&mut out, site as u64);
        out.append(": no recorded pos>");
        out
    }

    /// Probe global-read site `site`: a hit needs the same symbol and the
    /// current epoch.
    pub fn vm_global_ic_probe(&self, site: u32, sym: Symbol, epoch: u64) -> (r: Option<Value>)
        ensures
            ({
                let a = abs_site(self.cur_gic_base, site);
                if 0 <= a < self.vm_global_ics@.len() {
                    match self.vm_global_ics@[a] {
                        Some(e) => if e.sym == sym && e.epoch == epoch {
                            r == Some(e.value)
                        } else {
                            r is None
                        },
                        None => r is None,
                    }
                } else {
                    r is None
                }
            }),
    {
        let a = self.cur_gic_base.wrapping_add(site) as usize;
        if a >= self.vm_global_ics.len() {
            return None;
        }
        match &self.vm_global_ics[a] {
            Some(e) => {
                if e.sym == sym && e.epoch == epoch {
                    Some(e.value)
                } else {
                    None
                }
            },
            None => None,
        }
    }

    /// Install global-read site `site`'s entry; an out-of-range site or a movable
    /// value is ignored.
    pub fn vm_global_ic_put(&mut self, site: u32, sym: Symbol, epoch: u64, value: Value)
        ensures
            ({
                let a = abs_site(old(self).cur_gic_base, site);
                if !spec_is_movable(value) && 0 <= a < old(self).vm_global_ics@.len() {
                    final(self).vm_global_ics@ == old(self).vm_global_ics@.update(
                        a,
                        Some(GlobalIcEntry { sym: sym, epoch: epoch, value: value }),
                    )
                } else {
                    final(self).vm_global_ics@ == old(self).vm_global_ics@
                }
            }),
            *final(self) == (Heap { vm_global_ics: final(self).vm_global_ics, ..*old(self) }),
    {
        if is_movable(value) {
            return;
        }
        let a = self.cur_gic_base.wrapping_add(site) as usize;
        if a < self.vm_global_ics.len() {
            self.vm_global_ics.set(a, Some(GlobalIcEntry { sym, epoch, value }));
        }
    }

    /// Probe call-site `site`: a hit needs the same callee symbol, argument count
    /// and the current epoch; it returns the callee and the fast-path arm with its
    /// captured environment and IC block.
    pub fn vm_call_ic_probe(&self, site: u32, sym: Symbol, argc: u32, epoch: u64) -> (r: Option<
        (Value, Option<(Arc<CompiledArm>, EnvId, (u32, u32))>),
    >)
        ensures
            ({
                let a = abs_site(self.cur_ic_base, site);
                if 0 <= a < self.vm_call_ics@.len() {
                    match self.vm_call_ics@[a] {
                        Some(e) => if e.sym == sym && e.argc == argc && e.epoch == epoch {
                            r matches Some((c, fast)) && c == e.callee && (match e.arm {
                                Some((arm, env)) => fast == Some((arm, env, e.callee_bases)),
                                None => fast is None,
                            })
                        } else {
                            r is None
                        },
                        None => r is None,
                    }
                } else {
                    r is None
                }
            }),
    {
        let a = self.cur_ic_base.wrapping_add(site) as usize;
        if a >= self.vm_call_ics.len() {
            return None;
        }
        match &self.vm_call_ics[a] {
            Some(e) => {
                if e.sym == sym && e.argc == argc && e.epoch == epoch {
                    let fast = match &e.arm {
                        Some((arm, env)) => Some((arm.clone(), *env, e.callee_bases)),
                        None => None,
                    };
                    Some((e.callee, fast))
                } else {
                    None
                }
            },
            None => None,
        }
    }

    /// Install call-site `site`'s entry. A movable callee, or a captured LOCAL
    /// frame, is never cached; the callee arm's IC block is resolved first; an
    /// out-of-range site is ignored; the site's fast-link is emptied.
    pub fn vm_call_ic_put(&mut self, site: u32, entry: CallIcEntry)
        requires
            old(self).wf(),
        ensures
            final(self).wf(),
            spec_is_movable(entry.callee) ==> *final(self) == *old(self),
            (entry.arm matches Some((_, env)) && !crate::reach::is_global_env(env) && env.spec_region()
                == LOCAL) ==> *final(self) == *old(self),
            ({
                let skip = spec_is_movable(entry.callee) || (entry.arm matches Some((_, env))
                    && !crate::reach::is_global_env(env) && env.spec_region() == LOCAL);
                let a = abs_site(old(self).cur_ic_base, site);
                let bases = match entry.arm {
                    Some((arm, _)) => if arm.nsites == 0 && arm.ngsites == 0 {
                        (0u32, 0u32)
                    } else {
                        final(self).arm_ic_blocks@[arm.uid]
                    },
                    None => (0u32, 0u32),
                };
                !skip ==> {
                    &&& final(self).vm_call_ics@.len() >= old(self).vm_call_ics@.len()
                    &&& (0 <= a < final(self).vm_call_ics@.len() ==> final(self).vm_call_ics@[a]
                        == Some(CallIcEntry { callee_bases: bases, ..entry })
                        && final(self).vm_fast_links@[a] == FastLink::spec_empty())
                    &&& forall|j: int|
                        0 <= j < old(self).vm_call_ics@.len() && j != a ==> #[trigger] final(self).vm_call_ics@[j]
                            == old(self).vm_call_ics@[j] && final(self).vm_fast_links@[j]
                            == old(self).vm_fast_links@[j]
                    &&& forall|j: int|
                        old(self).vm_call_ics@.len() <= j < final(self).vm_call_ics@.len() && j != a
                            ==> #[trigger] final(self).vm_call_ics@[j] is None
                }
            }),
    {
        let mut entry = entry;
        if is_movable(entry.callee) {
            return;
        }
        match &entry.arm {
            Some((_, env)) => {
                if env.0 != 0xFFFF_FFFF_FFFF_FFFFu64 && env.region() == LOCAL {
                    return;
                }
            },
            None => {},
        }
        let bases = match &entry.arm {
            Some((arm, _)) => self.vm_arm_block(arm),
            None => (0, 0),
        };
        entry.callee_bases = bases;
        let a = self.cur_ic_base.wrapping_add(site) as usize;
        if a < self.vm_call_ics.len() {
            self.vm_call_ics.set(a, Some(entry));
            self.vm_fast_links.set(a, FastLink::empty());
        }
    }

    /// Push a live compiled arm onto the execution-stack registry, returning its
    /// depth.
    pub fn live_arm_push(&mut self, arm: Arc<CompiledArm>) -> (r: usize)
        ensures
            r == old(self).live_vm_arms@.len(),
            final(self).live_vm_arms@ == old(self).live_vm_arms@.push(arm),
            *final(self) == (Heap { live_vm_arms: final(self).live_vm_arms, ..*old(self) }),
    {
        let i = self.live_vm_arms.len();
        self.live_vm_arms.push(arm);
        i
    }

    /// Replace the arm at depth `i`.
    pub fn live_arm_set(&mut self, i: usize, arm: Arc<CompiledArm>)
        requires
            i < old(self).live_vm_arms@.len(),
        ensures
            final(self).live_vm_arms@ == old(self).live_vm_arms@.update(i as int, arm),
            *final(self) == (Heap { live_vm_arms: final(self).live_vm_arms, ..*old(self) }),
    {
        self.live_vm_arms.set(i, arm);
    }

    /// Pop the registry back to depth `n`.
    pub fn live_arm_truncate(&mut self, n: usize)
        ensures
            final(self).live_vm_arms@ == (if n < old(self).live_vm_arms@.len() {
                old(self).live_vm_arms@.take(n as int)
            } else {
                old(self).live_vm_arms@
            }),
            *final(self) == (Heap { live_vm_arms: final(self).live_vm_arms, ..*old(self) }),
    {
        self.live_vm_arms.truncate(n);
    }

    /// The depth of the live-arm registry.
    pub fn live_arm_len(&self) -> (r: usize)
        ensures
            r == self.live_vm_arms@.len(),
    {
        self.live_vm_arms.len()
    }
}

/// A copy of a recorded site position.
fn copy_site_pos(p: &Option<(Pos, Option<String>)>) -> (r: Option<(Pos, Option<String>)>)
    ensures
        r == *p,
{
    match p {
        Some((pos, file)) => Some((*pos, crate::runtime_code::clone_opt_string(file))),
        None => None,
    }
}


impl Heap {
    /// Empties every fast-link of this process that links to the callee `sym`,
    /// leaving the links to other callees as they were.
    pub fn invalidate_fast_links_for(&mut self, sym: Symbol)
        ensures
            final(self).vm_fast_links@.len() == old(self).vm_fast_links@.len(),
            forall|i: int|
                0 <= i < old(self).vm_fast_links@.len() ==> #[trigger] final(self).vm_fast_links@[i]
                    == if old(self).vm_fast_links@[i].sym == sym {
                    FastLink::spec_empty()
                } else {
                    old(self).vm_fast_links@[i]
                },
            *final(self) == (Heap { vm_fast_links: final(self).vm_fast_links, ..*old(self) }),
    {
        let n = self.vm_fast_links.len();
        let mut i: usize = 0;
        while i < n
            invariant
                n == old(self).vm_fast_links@.len(),
                i <= n,
                self.vm_fast_links@.len() == n,
                *self == (Heap { vm_fast_links: self.vm_fast_links, ..*old(self) }),
                forall|j: int|
                    0 <= j < n ==> #[trigger] self.vm_fast_links@[j] == if j < i && old(
                        self,
                    ).vm_fast_links@[j].sym == sym {
                        FastLink::spec_empty()
                    } else {
                        old(self).vm_fast_links@[j]
                    },
            decreases n - i,
        {
            if self.vm_fast_links[i].sym == sym {
                self.vm_fast_links.set(i, FastLink::empty());
            }
            i = i + 1;
        }
    }
}

/// What validating call site `a`'s entry for a fast link yields: the native
/// entry, the frame size, the captured frame and the callee's IC block, when the
/// entry matches `sym`/`argc`/`epoch` and its arm has native code installed at
/// this epoch with a plain frame (slots, no optional or rest parameter, no
/// captures).
pub open spec fn fast_link_of(ics: Seq<Option<CallIcEntry>>, a: int, sym: Symbol, argc: u32, epoch: u64) -> Option<(u64, usize, EnvId, (u32, u32))> {
    if 0 <= a < ics.len() {
        match ics[a] {
            Some(e) => if e.sym == sym && e.argc == argc && e.epoch == epoch {
                match e.arm {
                    Some((arm, env)) => match arm.native {
                        NativeCode::Installed(code) => if code != 0 && arm.nslots != 0 && arm.noptional == 0
                            && !arm.has_rest && arm.ncaptures == 0 && arm.compile_epoch == epoch {
                            Some((code, arm.active_nslots, env, e.callee_bases))
                        } else {
                            None
                        },
                        _ => None,
                    },
                    None => None,
                }
            } else {
                None
            },
            None => None,
        }
    } else {
        None
    }
}

/// The flat fast-link a validated link publishes.
pub open spec fn published(epoch: u64, sym: Symbol, argc: u32, l: (u64, usize, EnvId, (u32, u32))) -> FastLink {
    FastLink {
        epoch,
        code: l.0,
        env: (l.2).0,
        nslots: l.1 as u32,
        sym,
        argc,
        callee_ic_base: (l.3).0,
        callee_gic_base: (l.3).1,
    }
}

impl Heap {
    /// Fast-link probe for native-to-native calls: the whole validation the fast
    /// path needs, returning only plain data. A memoised flat link valid for this
    /// callee, argument count and epoch answers at once; otherwise the call-site
    /// entry is validated and, when it links, the result is published into the
    /// flat mirror for the next call.
    pub fn vm_call_ic_fast_link(&mut self, site: u32, sym: Symbol, argc: u32, epoch: u64) -> (r: Option<(u64, usize, EnvId, (u32, u32))>)
        ensures
            ({
                let a = abs_site(old(self).cur_ic_base, site);
                let fls = old(self).vm_fast_links@;
                if 0 <= a < fls.len() && fls[a].code != 0 && fls[a].epoch == epoch && fls[a].sym == sym && fls[a].argc == argc {
                    &&& r == Some((fls[a].code, fls[a].nslots as usize, Handle(fls[a].env), (fls[a].callee_ic_base, fls[a].callee_gic_base)))
                    &&& *final(self) == *old(self)
                } else {
                    let v = fast_link_of(old(self).vm_call_ics@, a, sym, argc, epoch);
                    &&& r == v
                    &&& *final(self) == (Heap { vm_fast_links: final(self).vm_fast_links, ..*old(self) })
                    &&& final(self).vm_fast_links@ == match v {
                        Some(l) => if 0 <= a < fls.len() {
                            fls.update(a, published(epoch, sym, argc, l))
                        } else {
                            fls
                        },
                        None => fls,
                    }
                }
            }),
    {
        let a = self.cur_ic_base.wrapping_add(site) as usize;
        if a < self.vm_fast_links.len() {
            let fl = self.vm_fast_links[a];
            if fl.code != 0 && fl.epoch == epoch && fl.sym == sym && fl.argc == argc {
                return Some((fl.code, fl.nslots as usize, Handle(fl.env), (fl.callee_ic_base, fl.callee_gic_base)));
            }
        }
        if a >= self.vm_call_ics.len() {
            return None;
        }
        let found = match &self.vm_call_ics[a] {
            Some(e) => {
                if e.sym != sym || e.argc != argc || e.epoch != epoch {
                    None
                } else {
                    match &e.arm {
                        Some((arm, env)) => match arm.native {
                            NativeCode::Installed(code) => {
                                if code == 0 || arm.nslots == 0 || arm.noptional != 0 || arm.has_rest
                                    || arm.ncaptures != 0 || arm.compile_epoch != epoch {
                                    None
                                } else {
                                    Some((code, arm.active_nslots, *env, e.callee_bases))
                                }
                            },
                            _ => None,
                        },
                        None => None,
                    }
                }
            },
            None => None,
        };
        if let Some(l) = found {
            if a < self.vm_fast_links.len() {
                self.vm_fast_links.set(
                    a,
                    FastLink {
                        epoch,
                        code: l.0,
                        env: (l.2).0,
                        nslots: l.1 as u32,
                        sym,
                        argc,
                        callee_ic_base: (l.3).0,
                        callee_gic_base: (l.3).1,
                    },
                );
            }
        }
        found
    }
}

impl Heap {
    /// Publishes a builtin callee into call site `site`'s flat fast-link: `code`
    /// is the builtin's entry, and a frame size of `u32::MAX` marks it native.
    /// An out-of-range site is ignored.
    pub fn vm_fast_link_publish_native(&mut self, site: u32, sym: Symbol, argc: u32, epoch: u64, func: u64)
        ensures
            ({
                let a = abs_site(old(self).cur_ic_base, site);
                let fls = old(self).vm_fast_links@;
                &&& *final(self) == (Heap { vm_fast_links: final(self).vm_fast_links, ..*old(self) })
                &&& final(self).vm_fast_links@ == if 0 <= a < fls.len() {
                    fls.update(
                        a,
                        FastLink {
                            epoch,
                            code: func,
                            env: 0,
                            nslots: u32::MAX,
                            sym,
                            argc,
                            callee_ic_base: 0,
                            callee_gic_base: 0,
                        },
                    )
                } else {
                    fls
                }
            }),
    {
        let a = self.cur_ic_base.wrapping_add(site) as usize;
        if a < self.vm_fast_links.len() {
            self.vm_fast_links.set(
                a,
                FastLink {
                    epoch,
                    code: func,
                    env: 0,
                    nslots: u32::MAX,
                    sym,
                    argc,
                    callee_ic_base: 0,
                    callee_gic_base: 0,
                },
            );
        }
    }
}
} // verus!
