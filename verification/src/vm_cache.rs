//! The compiling VM's per-process body cache and inline caches: the compiled-body
//! cache keyed by closure identity, the per-arm IC blocks, the call-site and
//! global-read inline caches with their fast-link mirror, and the ability-dispatch
//! polymorphic cache.

use vstd::prelude::*;
use std::sync::Arc;
use crate::value::{Symbol, Value, EnvId};
use crate::runtime_code::Pos;

verus! {

/// Where an arm stands with the native-code compiler.
#[derive(Clone, Copy, Debug, PartialEq, Eq, Structural)]
pub enum NativeCode {
    /// Never compiled.
    Absent,
    /// Queued for compilation.
    Queued,
    /// The compiler gave up on it.
    Bailed,
    /// Installed at this entry address.
    Installed(u64),
}

/// A compiled arm as the caches see it: a process-independent id, the argument
/// count it was compiled for, how many call sites and global-read sites its
/// bytecode indexes, and the frame shape and native code a fast link needs.
#[derive(Clone, Debug)]
pub struct CompiledArm {
    pub uid: u64,
    /// Each call site's source position and file, when recorded.
    pub site_pos: Vec<Option<(Pos, Option<String>)>>,
    /// The RUNTIME literals baked into the arm's code.
    pub consts: Vec<Value>,
    pub argc: usize,
    pub nsites: u32,
    pub ngsites: u32,
    /// The arm's native code.
    pub native: NativeCode,
    /// The binding epoch the native code was compiled at.
    pub compile_epoch: u64,
    /// Frame slots of the bytecode arm.
    pub nslots: usize,
    /// Optional parameters.
    pub noptional: usize,
    /// Whether the arm takes a rest parameter.
    pub has_rest: bool,
    /// How many lexicals the arm captures.
    pub ncaptures: usize,
    /// The frame size the installed native code runs against.
    pub active_nslots: usize,
}

/// A compiled closure: its compiled arms.
#[derive(Clone, Debug)]
pub struct CompiledClosure {
    pub arms: Vec<Arc<CompiledArm>>,
}

impl CompiledClosure {
    /// The arm compiled for `argc`, if any: the first one with that argument count.
    pub open spec fn spec_arm_for(&self, argc: usize) -> Option<Arc<CompiledArm>> {
        let i = choose|i: int|
            0 <= i < self.arms@.len() && self.arms@[i].argc == argc && forall|j: int|
                0 <= j < i ==> (#[trigger] self.arms@[j]).argc != argc;
        if exists|i: int| 0 <= i < self.arms@.len() && (#[trigger] self.arms@[i]).argc == argc {
            Some(self.arms@[i])
        } else {
            None
        }
    }

    /// The arm compiled for `argc`, if any.
    pub fn arm_for(&self, argc: usize) -> (r: Option<Arc<CompiledArm>>)
        ensures
            r is Some <==> exists|i: int|
                0 <= i < self.arms@.len() && (#[trigger] self.arms@[i]).argc == argc,
            r matches Some(a) ==> exists|i: int|
                0 <= i < self.arms@.len() && self.arms@[i] == a && a.argc == argc && forall|j: int|
                    0 <= j < i ==> (#[trigger] self.arms@[j]).argc != argc,
    {
        let mut i: usize = 0;
        while i < self.arms.len()
            invariant
                i <= self.arms@.len(),
                forall|j: int| 0 <= j < i ==> (#[trigger] self.arms@[j]).argc != argc,
            decreases self.arms@.len() - i,
        {
            if self.arms[i].argc == argc {
                return Some(self.arms[i].clone());
            }
            i = i + 1;
        }
        None
    }
}

/// One global-read inline-cache entry: the value read, stamped with the epoch.
#[derive(Clone, Copy, Debug)]
pub struct GlobalIcEntry {
    pub sym: Symbol,
    pub epoch: u64,
    pub value: Value,
}

/// Number of impl associations one op's dispatch cache holds.
pub const DISPATCH_IC_WAYS: usize = 4;

/// One op's ability-dispatch inline cache: up to four `id -> impl` associations,
/// validated together by one epoch, evicted round-robin once full.
#[derive(Clone, Copy, Debug)]
pub struct DispatchIcEntry {
    pub epoch: u64,
    pub ids: [Symbol; 4],
    pub callees: [Value; 4],
    pub len: u8,
    pub cursor: u8,
}

/// One call-site inline-cache entry.
#[derive(Debug)]
pub struct CallIcEntry {
    pub sym: Symbol,
    pub argc: u32,
    pub epoch: u64,
    pub callee: Value,
    /// The callee's compiled arm for `argc` and its captured environment.
    pub arm: Option<(Arc<CompiledArm>, EnvId)>,
    /// The callee arm's IC block in this process.
    pub callee_bases: (u32, u32),
}

/// The flat mirror of one call site's fast-link. A `code` of 0 marks an empty or
/// invalidated slot.
#[derive(Clone, Copy, Debug, PartialEq, Eq, Structural)]
pub struct FastLink {
    pub epoch: u64,
    pub code: u64,
    pub env: u64,
    pub nslots: u32,
    pub sym: u32,
    pub argc: u32,
    pub callee_ic_base: u32,
    pub callee_gic_base: u32,
}

impl FastLink {
    pub open spec fn spec_empty() -> FastLink {
        FastLink {
            epoch: u64::MAX,
            code: 0,
            env: 0,
            nslots: 0,
            sym: u32::MAX,
            argc: 0,
            callee_ic_base: 0,
            callee_gic_base: 0,
        }
    }

    /// An empty slot: no code, and an epoch no real epoch reaches.
    pub fn empty() -> (r: FastLink)
        ensures
            r == FastLink::spec_empty(),
    {
        FastLink {
            epoch: u64::MAX,
            code: 0,
            env: 0,
            nslots: 0,
            sym: u32::MAX,
            argc: 0,
            callee_ic_base: 0,
            callee_gic_base: 0,
        }
    }
}

/// A key into the compiled-body cache: a closure's own RUNTIME handle, or the
/// handle of its first body form.
#[derive(Clone, Copy, Debug, PartialEq, Eq, Structural)]
pub enum VmCacheKey {
    Runtime(u64),
    Body(u64),
}

/// `v` rotated left by one bit.
pub open spec fn spec_rotl1(v: u64) -> u64 {
    (v << 1u64) | (v >> 63u64)
}

impl VmCacheKey {
    pub open spec fn spec_shared_bits(self) -> u64 {
        match self {
            VmCacheKey::Runtime(x) => spec_rotl1(x) ^ 0u64,
            VmCacheKey::Body(x) => spec_rotl1(x) ^ 1u64,
        }
    }

    /// The keys the cache is keyed by: a closure's own handle is a RUNTIME handle,
    /// and a body form is a PRELUDE or RUNTIME cell, never a LOCAL one.
    pub open spec fn spec_is_shareable(self) -> bool {
        match self {
            VmCacheKey::Runtime(x) => crate::value::spec_region(x) == crate::value::RUNTIME,
            VmCacheKey::Body(x) => crate::value::spec_region(x) != crate::value::LOCAL,
        }
    }

    /// The key's identity as one `u64`: the handle rotated left by one, with the
    /// variant folded into the low bit.
    pub fn shared_bits(self) -> (r: u64)
        ensures
            r == self.spec_shared_bits(),
    {
        let (tag, v): (u64, u64) = match self {
            VmCacheKey::Runtime(x) => (0u64, x),
            VmCacheKey::Body(x) => (1u64, x),
        };
        ((v << 1u64) | (v >> 63u64)) ^ tag
    }
}

/// The fold keeps shareable keys apart: two different keys of the shared
/// compiled-closure map, of the same variant or not, never fold to the same
/// `u64`.
pub proof fn law_shared_bits_distinguish_keys(a: VmCacheKey, b: VmCacheKey)
    requires
        a.spec_is_shareable(),
        b.spec_is_shareable(),
        a != b,
    ensures
        a.spec_shared_bits() != b.spec_shared_bits(),
{
    match (a, b) {
        (VmCacheKey::Runtime(x), VmCacheKey::Runtime(y)) => {
            assert(((x << 1u64) | (x >> 63u64)) ^ 0u64 != ((y << 1u64) | (y >> 63u64)) ^ 0u64) by (bit_vector)
                requires x != y;
        },
        (VmCacheKey::Body(x), VmCacheKey::Body(y)) => {
            assert(((x << 1u64) | (x >> 63u64)) ^ 1u64 != ((y << 1u64) | (y >> 63u64)) ^ 1u64) by (bit_vector)
                requires x != y;
        },
        (VmCacheKey::Runtime(x), VmCacheKey::Body(y)) => {
            assert(((x << 1u64) | (x >> 63u64)) ^ 0u64 != ((y << 1u64) | (y >> 63u64)) ^ 1u64) by (bit_vector)
                requires (x >> 62u64) as u8 == 2u8, (y >> 62u64) as u8 != 0u8;
        },
        (VmCacheKey::Body(x), VmCacheKey::Runtime(y)) => {
            assert(((x << 1u64) | (x >> 63u64)) ^ 1u64 != ((y << 1u64) | (y >> 63u64)) ^ 0u64) by (bit_vector)
                requires (y >> 62u64) as u8 == 2u8, (x >> 62u64) as u8 != 0u8;
        },
    }
}

} // verus!
