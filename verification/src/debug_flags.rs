//! The diagnostic-flag catalogue's shape: one entry per flag, and the layout a
//! printed catalogue takes — the count of the runtime's own flags, the width of
//! the name column, and which flags print under each group heading, in order.

use vstd::prelude::*;
use crate::symbols::{str_le, lemma_chars_le_antisym, lemma_chars_le_total};

verus! {

/// One catalogued flag: its name, the group it belongs to, and what it does in
/// one line. `ours` is false for a flag a dependency reads rather than the runtime.
pub struct DebugFlag {
    pub name: &'static str,
    pub group: &'static str,
    pub effect: &'static str,
    pub ours: bool,
}

/// The byte length of a name, as `str::len` reports it.
pub open spec fn name_len(s: Seq<char>) -> usize {
    vstd::utf8::encode_utf8(s).len() as usize
}

/// The number of the runtime's own flags among the first `n`.
pub open spec fn ours_count(flags: Seq<DebugFlag>, n: int) -> nat
    decreases n,
{
    if n <= 0 {
        0
    } else {
        ours_count(flags, n - 1) + if flags[n - 1].ours {
            1nat
        } else {
            0nat
        }
    }
}

/// The indices, ascending, of the flags whose group is `group`.
pub open spec fn group_members(flags: Seq<DebugFlag>, group: Seq<char>) -> Seq<usize> {
    Seq::new(flags.len(), |i: int| i as usize).filter(|i: usize| flags[i as int].group@ == group)
}

/// How a catalogue prints.
pub struct CataloguePlan {
    /// How many flags are the runtime's own.
    pub ours: usize,
    /// The widest name, in bytes (0 for an empty catalogue).
    pub width: usize,
    /// For each group, in print order, the flags under it, in catalogue order.
    pub sections: Vec<Vec<usize>>,
}

fn same_str(a: &str, b: &str) -> (r: bool)
    ensures
        r == (a@ == b@),
{
    let le = str_le(a, b);
    let ge = str_le(b, a);
    proof {
        if le && ge {
            lemma_chars_le_antisym(a@, b@);
        }
        lemma_chars_le_total(a@, a@);
    }
    le && ge
}

/// The layout of a printed catalogue: groups print in `groups` order (a group
/// absent there never prints), each with its flags in catalogue order.
pub fn catalogue_plan(flags: &[DebugFlag], groups: &[&str]) -> (r: CataloguePlan)
    ensures
        r.ours == ours_count(flags@, flags@.len() as int),
        forall|i: int| 0 <= i < flags@.len() ==> name_len(#[trigger] flags@[i].name@) <= r.width,
        flags@.len() == 0 ==> r.width == 0,
        flags@.len() > 0 ==> exists|i: int|
            0 <= i < flags@.len() && name_len(#[trigger] flags@[i].name@) == r.width,
        r.sections@.len() == groups@.len(),
        forall|g: int|
            0 <= g < groups@.len() ==> (#[trigger] r.sections@[g])@ == group_members(
                flags@,
                groups@[g]@,
            ),
{
    let n = flags.len();
    let mut ours: usize = 0;
    let mut width: usize = 0;
    let mut i: usize = 0;
    while i < n
        invariant
            n == flags@.len(),
            i <= n,
            ours == ours_count(flags@, i as int),
            ours <= i,
            forall|j: int| 0 <= j < i ==> name_len(#[trigger] flags@[j].name@) <= width,
            i == 0 ==> width == 0,
            i > 0 ==> exists|j: int| 0 <= j < i && name_len(#[trigger] flags@[j].name@) == width,
        decreases n - i,
    {
        if flags[i].ours {
            ours = ours + 1;
        }
        let len = flags[i].name.len();
        if i == 0 || len > width {
            width = len;
        }
        proof {
            assert(len == name_len(flags@[i as int].name@));
        }
        i = i + 1;
    }
    let mut sections: Vec<Vec<usize>> = Vec::new();
    let mut g: usize = 0;
    while g < groups.len()
        invariant
            n == flags@.len(),
            g <= groups@.len(),
            sections@.len() == g,
            forall|h: int|
                0 <= h < g ==> (#[trigger] sections@[h])@ == group_members(flags@, groups@[h]@),
        decreases groups@.len() - g,
    {
        let group = groups[g];
        let mut members: Vec<usize> = Vec::new();
        let ghost all = Seq::new(flags@.len(), |k: int| k as usize);
        let ghost pred = |k: usize| flags@[k as int].group@ == group@;
        let mut k: usize = 0;
        proof {
            assert(all.take(0) =~= Seq::<usize>::empty());
            assert(all.take(0).filter(pred) =~= Seq::<usize>::empty()) by {
                reveal(Seq::filter);
            }
        }
        while k < n
            invariant
                n == flags@.len(),
                k <= n,
                all == Seq::new(flags@.len(), |k: int| k as usize),
                pred == (|k: usize| flags@[k as int].group@ == group@),
                members@ == all.take(k as int).filter(pred),
            decreases n - k,
        {
            let hit = same_str(flags[k].group, group);
            proof {
                assert(all.take(k as int + 1) =~= all.take(k as int).push(k));
                assert(all.take(k as int).push(k).filter(pred) == if pred(k) {
                    all.take(k as int).filter(pred).push(k)
                } else {
                    all.take(k as int).filter(pred)
                }) by {
                    reveal(Seq::filter);
                    assert(all.take(k as int).push(k).drop_last() =~= all.take(k as int));
                }
            }
            if hit {
                members.push(k);
            }
            k = k + 1;
        }
        proof {
            assert(all.take(n as int) =~= all);
        }
        sections.push(members);
        g = g + 1;
    }
    CataloguePlan { ours, width, sections }
}

/// A flag the runtime itself reads.
fn ours_flag(name: &'static str, group: &'static str, effect: &'static str) -> (r: DebugFlag)
    ensures
        r == (DebugFlag { name, group, effect, ours: true }),
{
    DebugFlag { name, group, effect, ours: true }
}

/// A flag a dependency reads rather than the runtime; listed because it moves
/// measurements.
fn dependency_flag(name: &'static str, group: &'static str, effect: &'static str) -> (r: DebugFlag)
    ensures
        r == (DebugFlag { name, group, effect, ours: false }),
{
    DebugFlag { name, group, effect, ours: false }
}

pub const ATTRIBUTION: &'static str = "Attribution — where does the work go";
pub const JIT: &'static str = "JIT — did it lower, and what did it emit";
pub const OPTOUT: &'static str = "Optimizer levers — the A/B and bisect switches (every `NO_` one is default ON)";
pub const GC: &'static str = "GC and memory";
pub const SCHED: &'static str = "Scheduler and messaging";
pub const ENGINE: &'static str = "Engine selection";
pub const DIAG: &'static str = "Diagnostics, checking and reloading";
pub const HOST: &'static str = "Host environment — GUI, audio, distribution, REPL";

/// The group headings in print order. A group absent here would never print; the
/// entries themselves may sit anywhere in the catalogue.
pub fn group_order() -> (r: Vec<&'static str>)
    ensures
        r@ == seq![ATTRIBUTION, JIT, OPTOUT, GC, SCHED, ENGINE, DIAG, HOST],
{
    let mut v: Vec<&'static str> = Vec::new();
    v.push(ATTRIBUTION);
    v.push(JIT);
    v.push(OPTOUT);
    v.push(GC);
    v.push(SCHED);
    v.push(ENGINE);
    v.push(DIAG);
    v.push(HOST);
    v
}

/// Every environment flag the runtime reads, and the dependencies' flags that
/// move measurements, with their groups and one-line effects.
/// A flag's name, group and whether the runtime itself reads it.
pub open spec fn flag_row(f: DebugFlag) -> (&'static str, &'static str, bool) {
    (f.name, f.group, f.ours)
}

/// Attribution: where the work goes.
/// Each row is a flag's name, its group, and whether the runtime itself reads it.
pub open spec fn attribution_rows() -> Seq<(&'static str, &'static str, bool)> {
    seq![
        ("BROOD_PERF_STATS", ATTRIBUTION, true),
        ("BROOD_BOOT_TRACE", ATTRIBUTION, true),
        ("BROOD_TRACE_COMPILE", ATTRIBUTION, true),
        ("BROOD_TRACE_PROMOTE", ATTRIBUTION, true),
        ("BROOD_REG_TRACE", ATTRIBUTION, true),
        ("BROOD_L1_STATS", ATTRIBUTION, true),
        ("BROOD_DEFER_DBG", ATTRIBUTION, true),
        ("BROOD_NO_TW_REENTRY", OPTOUT, true),
        ("BROOD_SCHED_DBG", SCHED, true),
        ("BROOD_ROUTE_DBG", ATTRIBUTION, true),
        ("BROOD_FAULT_QUANTUM_TAIL", SCHED, true),
        ("BROOD_FAULT_STRANDED", SCHED, true),
    ]
}

/// Appends the catalogue's attribution flags.
fn push_attribution_flags(v: &mut Vec<DebugFlag>)
    ensures
        final(v)@.len() == old(v)@.len() + 12,
        forall|j: int| 0 <= j < old(v)@.len() ==> #[trigger] final(v)@[j] == old(v)@[j],
        forall|j: int| 0 <= j < 12 ==> flag_row(#[trigger] final(v)@[old(v)@.len() + j]) == attribution_rows()[j],
{
    let ghost n = v@.len();
    v.push(ours_flag(
        "BROOD_PERF_STATS",
        ATTRIBUTION,
        "dump the VM work-attribution counters at exit; needs `make perf-brood`. In-image: `(perf/summary)`",
    ));
    v.push(ours_flag(
        "BROOD_BOOT_TRACE",
        ATTRIBUTION,
        "cold-start phase breakdown (builtins/read/expand/eval/freeze) + any form expanding >300us",
    ));
    v.push(ours_flag(
        "BROOD_TRACE_COMPILE",
        ATTRIBUTION,
        "name every closure the VM bytecode-compiles — answers \"is a compiled body being reused?\"",
    ));
    v.push(ours_flag(
        "BROOD_TRACE_PROMOTE",
        ATTRIBUTION,
        "name every closure entering the append-only RUNTIME region; per-operation promotion is a leak",
    ));
    v.push(ours_flag(
        "BROOD_REG_TRACE",
        ATTRIBUTION,
        "trace *record-ids* registry writes (with the writer's ancestry chain) and every globals restore — the KI-89 orphan-attribution tool; trace LEAN, heavy tracing suppresses the race",
    ));
    v.push(ours_flag(
        "BROOD_L1_STATS",
        ATTRIBUTION,
        "hit rate of the L1 local-send fast path — check it applied before crediting a message result",
    ));
    v.push(ours_flag(
        "BROOD_DEFER_DBG",
        ATTRIBUTION,
        "name each closure that defers to the tree-walker — the tw_defer counter says how many, this says WHO (one defer tree-walks its OWN body; eligible callees route back to the VM)",
    ));
    v.push(ours_flag(
        "BROOD_NO_TW_REENTRY",
        OPTOUT,
        "opt OUT of the tree-walker routing VM-eligible callees back to the engine (default ON since 2026-09-04, ADR-318: 60x on the viral defer shape; startup -7%). The A/B and bisect lever; set it if a routed shape is ever implicated (KI-88's dormant signature has its own watchdog)",
    ));
    v.push(ours_flag(
        "BROOD_SCHED_DBG",
        SCHED,
        "trace every enqueue, quantum start (body source prefix) and quantum outcome per pid, and arm the quantum-age ledger (KI-88's tool). The stranded-work watchdog — pool-wide starvation with queued work, KI-88's never-scheduled signature — reports without this flag",
    ));
    v.push(ours_flag(
        "BROOD_ROUTE_DBG",
        ATTRIBUTION,
        "name each closure the tree-walker routes to the VM (the router is default ON; BROOD_NO_TW_REENTRY disables it)",
    ));
    v.push(ours_flag(
        "BROOD_FAULT_QUANTUM_TAIL",
        SCHED,
        "=<n>: FAULT INJECTION — panic on the nth quantum's post-drive tail. Proves that path stays survivable (the worker lives, the process is retired, not silently dropped); nothing an ordinary program does provokes one",
    ));
    v.push(ours_flag(
        "BROOD_FAULT_STRANDED",
        SCHED,
        "FAULT INJECTION — over-count STEALABLE by one at pool start, so the pool believes a process is queued that no worker can find. Proves the stranded-work watchdog (KI-88's never-scheduled signature) actually fires; nothing an ordinary program does provokes one",
    ));
    proof {
        assert forall|j: int| 0 <= j < 12 implies flag_row(#[trigger] v@[n + j]) == attribution_rows()[j] by {}
    }
}

/// JIT: whether it lowered, and what it emitted.
/// Each row is a flag's name, its group, and whether the runtime itself reads it.
pub open spec fn jit_rows() -> Seq<(&'static str, &'static str, bool)> {
    seq![
        ("BROOD_JIT_DUMP_IR", JIT, true),
        ("BROOD_JIT_BAIL_TRACE", JIT, true),
        ("BROOD_DEOPT_TRACE", JIT, true),
        ("BROOD_DUMP_CODE", JIT, true),
        ("BROOD_JIT_VERIFY", JIT, true),
        ("BROOD_JIT_VERIFY_FN", JIT, true),
        ("BROOD_NO_JIT", JIT, true),
        ("BROOD_NO_JIT_COMPUTED", JIT, true),
    ]
}

/// Appends the catalogue's JIT flags.
fn push_jit_flags(v: &mut Vec<DebugFlag>)
    ensures
        final(v)@.len() == old(v)@.len() + 8,
        forall|j: int| 0 <= j < old(v)@.len() ==> #[trigger] final(v)@[j] == old(v)@[j],
        forall|j: int| 0 <= j < 8 ==> flag_row(#[trigger] final(v)@[old(v)@.len() + j]) == jit_rows()[j],
{
    let ghost n = v@.len();
    v.push(ours_flag(
        "BROOD_JIT_DUMP_IR",
        JIT,
        "per-lowered-arm opcode fingerprint + CLIF (and the scalar-register worker). Absence = did not lower",
    ));
    v.push(ours_flag(
        "BROOD_JIT_BAIL_TRACE",
        JIT,
        "name each arm the profitability gate refuses, and why — the complement of DUMP_IR",
    ));
    v.push(ours_flag(
        "BROOD_DEOPT_TRACE",
        JIT,
        "print each type-deopt's arm — finds an arm that lowers and then keeps falling back",
    ));
    v.push(ours_flag(
        "BROOD_DUMP_CODE",
        JIT,
        "native disassembly of arms whose name contains the value — one step past CLIF",
    ));
    v.push(ours_flag(
        "BROOD_JIT_VERIFY",
        JIT,
        "scan staged call args for a stale LOCAL handle (use-after-GC); works in plain release",
    ));
    v.push(ours_flag(
        "BROOD_JIT_VERIFY_FN",
        JIT,
        "log every JIT'd call to this function with each arg's type — for value-level corruption",
    ));
    v.push(ours_flag(
        "BROOD_NO_JIT",
        JIT,
        "alias for BROOD_TIER=1 — no native tiering, interpret on the VM; rules a JIT-only miscompile in or out",
    ));
    v.push(ours_flag(
        "BROOD_NO_JIT_COMPUTED",
        JIT,
        "bail only arms containing a computed jump — narrower bisect than NO_JIT",
    ));
    proof {
        assert forall|j: int| 0 <= j < 8 implies flag_row(#[trigger] v@[n + j]) == jit_rows()[j] by {}
    }
}

/// The optimizer's opt-out levers.
/// Each row is a flag's name, its group, and whether the runtime itself reads it.
pub open spec fn optimizer_opt_outs_rows() -> Seq<(&'static str, &'static str, bool)> {
    seq![
        ("BROOD_NO_I64", OPTOUT, true),
        ("BROOD_NO_INLINE", OPTOUT, true),
        ("BROOD_NO_LEAF_INLINE", OPTOUT, true),
        ("BROOD_NO_PARTIAL_LEAF", OPTOUT, true),
        ("BROOD_NO_FLOAT_GLOBAL", OPTOUT, true),
        ("BROOD_LINMAP", OPTOUT, true),
        ("BROOD_NO_HOF", OPTOUT, true),
        ("BROOD_NO_SHARED_ARMS", OPTOUT, true),
        ("BROOD_INLINE_DBG", OPTOUT, true),
        ("BROOD_NO_STDIMAGE", OPTOUT, true),
        ("BROOD_STDIMAGE", ENGINE, true),
        ("BROOD_IMAGE_TRACE", ENGINE, true),
        ("BROOD_NO_XCALL", OPTOUT, true),
        ("BROOD_XCALL", JIT, true),
        ("BROOD_XADMIT", JIT, true),
        ("BROOD_MONO", OPTOUT, true),
        ("BROOD_MONO_DBG", OPTOUT, true),
    ]
}

/// Appends the catalogue's optimizer opt-outs flags.
fn push_optimizer_opt_outs_flags(v: &mut Vec<DebugFlag>)
    ensures
        final(v)@.len() == old(v)@.len() + 17,
        forall|j: int| 0 <= j < old(v)@.len() ==> #[trigger] final(v)@[j] == old(v)@[j],
        forall|j: int| 0 <= j < 17 ==> flag_row(#[trigger] final(v)@[old(v)@.len() + j]) == optimizer_opt_outs_rows()[j],
{
    let ghost n = v@.len();
    v.push(ours_flag(
        "BROOD_NO_I64",
        OPTOUT,
        "disable the unboxed-scalar register worker (fib/pfib's path)",
    ));
    v.push(ours_flag(
        "BROOD_NO_INLINE",
        OPTOUT,
        "disable the JIT's recursive self-inliner (the two-stage deferred upgrade)",
    ));
    v.push(ours_flag(
        "BROOD_NO_LEAF_INLINE",
        OPTOUT,
        "disable leaf-callee splicing",
    ));
    v.push(ours_flag(
        "BROOD_NO_PARTIAL_LEAF",
        OPTOUT,
        "revert to all-or-nothing leaf splicing (no residual call beside the spliced leaves)",
    ));
    v.push(ours_flag(
        "BROOD_NO_FLOAT_GLOBAL",
        OPTOUT,
        "disable unboxing float-valued global reads (nbody's silent-interpretation bug)",
    ));
    v.push(ours_flag(
        "BROOD_LINMAP",
        OPTOUT,
        "`=0` disables the linear-map rewrite (in-place build of a provably-linear map accumulator)",
    ));
    v.push(ours_flag(
        "BROOD_NO_HOF",
        OPTOUT,
        "disable the higher-order-function fast path (per-element callback routing)",
    ));
    v.push(ours_flag(
        "BROOD_NO_SHARED_ARMS",
        OPTOUT,
        "every process compiles its own copy of every closure — costs spawn-live ~25% CPU",
    ));
    v.push(ours_flag(
        "BROOD_INLINE_DBG",
        OPTOUT,
        "trace which arms qualify for self/leaf inlining (pairs with the two NO_*INLINE flags)",
    ));
    v.push(ours_flag(
        "BROOD_NO_STDIMAGE",
        OPTOUT,
        "opt OUT of the stdlib startup image (ADR-281, default ON): `require` materialises a module's bindings from ~/.cache/brood instead of evaluating its source (json 6.5 -> 1.7 ms; a three-module script 46.5 -> 36.2 ms). Set it to A/B, to bisect a suspected materialise fault, or as the stopgap if one is found",
    ));
    v.push(ours_flag(
        "BROOD_STDIMAGE",
        ENGINE,
        "ask for the image explicitly. Redundant now that it is the default, and kept for one reason: an explicit request that goes UNMET prints a line, where the default path falls back to source in silence. Use it when measuring — `(stdimage/status)` says which of absent/stale/unreadable it was",
    ));
    v.push(ours_flag(
        "BROOD_IMAGE_TRACE",
        ENGINE,
        "name each module materialised from an image, and time the boot install — the only way to tell a module that came from the image from one that loaded from source anyway",
    ));
    v.push(ours_flag(
        "BROOD_NO_XCALL",
        OPTOUT,
        "opt OUT of the hot re-lowering / inline fast-frame call path (§7.5, default ON): a hot arm's body is recompiled on the deferred queue with the Brood-to-Brood call ceremony emitted inline (bintree -10.6%, -19% at 2x run length; short runs unaffected). The A/B and bisect lever",
    ));
    v.push(ours_flag(
        "BROOD_XCALL",
        JIT,
        "=1: additionally emit the inline call path in EVERY body's first compile (the experiment lever) — measured as a ~115M-instruction per-run compile constant, so not the default; the default arms it only in hot re-lowerings",
    ));
    v.push(ours_flag(
        "BROOD_XADMIT",
        JIT,
        "=1: admit profitability-gate-refused named defns at the HOT stage (deferred compile, inline call blob, frame cap). Measured NEGATIVE 2026-08-31 — nqueens +7.6% cycles, pipeline +7.6%: a call-dominated boxed arm is better interpreted even on the cheapest native call path we have. Kept as the one-env-var re-test for when the call convention changes (§7.5 increment 4)",
    ));
    v.push(ours_flag(
        "BROOD_MONO",
        OPTOUT,
        "opt IN to ability-dispatch monomorphization (off by default — it trades late binding)",
    ));
    v.push(ours_flag(
        "BROOD_MONO_DBG",
        OPTOUT,
        "trace each BROOD_MONO devirtualization",
    ));
    proof {
        assert forall|j: int| 0 <= j < 17 implies flag_row(#[trigger] v@[n + j]) == optimizer_opt_outs_rows()[j] by {}
    }
}

/// GC and memory.
/// Each row is a flag's name, its group, and whether the runtime itself reads it.
pub open spec fn gc_memory_rows() -> Seq<(&'static str, &'static str, bool)> {
    seq![
        ("BROOD_GC_STRESS", GC, true),
        ("BROOD_GC_VERIFY", GC, true),
        ("BROOD_GC_TRACE", GC, true),
        ("BROOD_GC_FLOOR", GC, true),
        ("BROOD_RT_GC_FLOOR", GC, true),
        ("BROOD_MEM_LIMIT", GC, true),
        ("BROOD_MEM_SOFT_LIMIT", GC, true),
        ("MIMALLOC_PURGE_DELAY", GC, false),
    ]
}

/// Appends the catalogue's GC / memory flags.
fn push_gc_memory_flags(v: &mut Vec<DebugFlag>)
    ensures
        final(v)@.len() == old(v)@.len() + 8,
        forall|j: int| 0 <= j < old(v)@.len() ==> #[trigger] final(v)@[j] == old(v)@[j],
        forall|j: int| 0 <= j < 8 ==> flag_row(#[trigger] final(v)@[old(v)@.len() + j]) == gc_memory_rows()[j],
{
    let ghost n = v@.len();
    v.push(ours_flag(
        "BROOD_GC_STRESS",
        GC,
        "collect at every safepoint — turns a rare GC race into a deterministic one",
    ));
    v.push(ours_flag(
        "BROOD_GC_VERIFY",
        GC,
        "walk the live graph each collection and name the root->cell path to a stale handle",
    ));
    v.push(ours_flag(
        "BROOD_GC_TRACE",
        GC,
        "log each minor collection's stats (debug builds)",
    ));
    v.push(ours_flag(
        "BROOD_GC_FLOOR",
        GC,
        "LOCAL collection threshold floor — sweep it to test whether a row is GC-frequency-bound",
    ));
    v.push(ours_flag(
        "BROOD_RT_GC_FLOOR",
        GC,
        "RUNTIME code-region reclamation threshold; a huge value effectively disables compaction",
    ));
    v.push(ours_flag(
        "BROOD_MEM_LIMIT",
        GC,
        "hard memory cap for a run (bytes)",
    ));
    v.push(ours_flag(
        "BROOD_MEM_SOFT_LIMIT",
        GC,
        "soft memory cap for a run (bytes)",
    ));
    v.push(dependency_flag(
        "MIMALLOC_PURGE_DELAY",
        GC,
        "`=0` makes the allocator return pages, cutting RSS on churn for ~4% throughput",
    ));
    proof {
        assert forall|j: int| 0 <= j < 8 implies flag_row(#[trigger] v@[n + j]) == gc_memory_rows()[j] by {}
    }
}

/// Scheduler and messaging.
/// Each row is a flag's name, its group, and whether the runtime itself reads it.
pub open spec fn scheduler_messaging_rows() -> Seq<(&'static str, &'static str, bool)> {
    seq![
        ("BROOD_SPAWN_SPILL", SCHED, true),
        ("BROOD_SPAWN_RR", SCHED, true),
        ("BROOD_NO_HANDOFF", SCHED, true),
        ("BROOD_NO_RECV_MARK", SCHED, true),
        ("BROOD_NO_SHARE_FN", SCHED, true),
        ("BROOD_L1_BUDGET", SCHED, true),
        ("BROOD_NO_MSGTAG", SCHED, true),
        ("BROOD_NO_DROP_WARN", SCHED, true),
        ("BROOD_NO_CRASH_REPORT", SCHED, true),
    ]
}

/// Appends the catalogue's scheduler / messaging flags.
fn push_scheduler_messaging_flags(v: &mut Vec<DebugFlag>)
    ensures
        final(v)@.len() == old(v)@.len() + 9,
        forall|j: int| 0 <= j < old(v)@.len() ==> #[trigger] final(v)@[j] == old(v)@[j],
        forall|j: int| 0 <= j < 9 ==> flag_row(#[trigger] final(v)@[old(v)@.len() + j]) == scheduler_messaging_rows()[j],
{
    let ghost n = v@.len();
    v.push(ours_flag(
        "BROOD_SPAWN_SPILL",
        SCHED,
        "backlog at which a spawn stops going to the spawner's own worker (default 1)",
    ));
    v.push(ours_flag(
        "BROOD_SPAWN_RR",
        SCHED,
        "force round-robin spawn placement — the A/B endpoint showing why the threshold exists",
    ));
    v.push(ours_flag(
        "BROOD_NO_HANDOFF",
        SCHED,
        "disable the scheduler's direct-handoff wake policy",
    ));
    v.push(ours_flag(
        "BROOD_NO_RECV_MARK",
        SCHED,
        "disable the receive-mark (O(1) ref-pinned receive instead of O(backlog))",
    ));
    v.push(ours_flag(
        "BROOD_NO_SHARE_FN",
        SCHED,
        "deep-copy an already-shared closure across a local send instead of passing it by handle",
    ));
    v.push(ours_flag(
        "BROOD_L1_BUDGET",
        SCHED,
        "copy-work units the L1 fast path may spend under the mailbox lock (0 = unlimited, the pre-KI-56 behaviour)",
    ));
    v.push(ours_flag(
        "BROOD_NO_MSGTAG",
        SCHED,
        "drop the L1 fast path's leading-keyword tag, defeating the selective-receive pre-filter",
    ));
    v.push(ours_flag(
        "BROOD_NO_DROP_WARN",
        SCHED,
        "silence the once-per-name warning that a message was dropped for an unregistered name",
    ));
    v.push(ours_flag(
        "BROOD_NO_CRASH_REPORT",
        SCHED,
        "opt OUT of the default crash reporter (ADR-305): `brood file`, `nest run`, a bundle and the REPL otherwise print one report per crash site for any process that exits abnormally",
    ));
    proof {
        assert forall|j: int| 0 <= j < 9 implies flag_row(#[trigger] v@[n + j]) == scheduler_messaging_rows()[j] by {}
    }
}

/// Engine selection.
/// Each row is a flag's name, its group, and whether the runtime itself reads it.
pub open spec fn engine_rows() -> Seq<(&'static str, &'static str, bool)> {
    seq![
        ("BROOD_TIER", ENGINE, true),
        ("BROOD_VM", ENGINE, true),
        ("BROOD_NO_BOOT_CACHE", ENGINE, true),
        ("BROOD_PRELUDE_IMAGE", ENGINE, true),
        ("BROOD_NO_CHECK", ENGINE, true),
    ]
}

/// Appends the catalogue's engine flags.
fn push_engine_flags(v: &mut Vec<DebugFlag>)
    ensures
        final(v)@.len() == old(v)@.len() + 5,
        forall|j: int| 0 <= j < old(v)@.len() ==> #[trigger] final(v)@[j] == old(v)@[j],
        forall|j: int| 0 <= j < 5 ==> flag_row(#[trigger] final(v)@[old(v)@.len() + j]) == engine_rows()[j],
{
    let ghost n = v@.len();
    v.push(ours_flag(
        "BROOD_TIER",
        ENGINE,
        "the tier ceiling: 0 tree-walk, 1 bytecode VM, 2 native (ADR-222). Measured 57.4s/3.2s/0.12s",
    ));
    v.push(ours_flag(
        "BROOD_VM",
        ENGINE,
        "alias for BROOD_TIER=0 — `=0` runs the tree-walker (~10x slower; the differential reference)",
    ));
    v.push(ours_flag(
        "BROOD_NO_BOOT_CACHE",
        ENGINE,
        "skip the expanded-prelude boot cache — a cold boot is ~11x a warm one, so this is visible",
    ));
    v.push(ours_flag(
        "BROOD_PRELUDE_IMAGE",
        ENGINE,
        "opt IN to the prelude image (ADR-314) — a warm boot materialises the prelude's bindings instead of evaluating 544 forms (startup -11%), but OFF by default: with it on, a multi-file `nest check` loses a record's ability impl (KI-106)",
    ));
    v.push(ours_flag(
        "BROOD_NO_CHECK",
        ENGINE,
        "skip the implicit advisory type-check before a run (raw eval, e.g. when timing)",
    ));
    proof {
        assert forall|j: int| 0 <= j < 5 implies flag_row(#[trigger] v@[n + j]) == engine_rows()[j] by {}
    }
}

/// More attribution flags.
/// Each row is a flag's name, its group, and whether the runtime itself reads it.
pub open spec fn attribution_completed_rows() -> Seq<(&'static str, &'static str, bool)> {
    seq![
        ("BROOD_STALL_MS", ATTRIBUTION, true),
        ("BROOD_COMPILE_TRACE", ATTRIBUTION, true),
        ("BROOD_EVAL_TRACE", ATTRIBUTION, true),
        ("BROOD_VM_TRACE", ATTRIBUTION, true),
    ]
}

/// Appends the catalogue's attribution (later) flags.
fn push_attribution_completed_flags(v: &mut Vec<DebugFlag>)
    ensures
        final(v)@.len() == old(v)@.len() + 4,
        forall|j: int| 0 <= j < old(v)@.len() ==> #[trigger] final(v)@[j] == old(v)@[j],
        forall|j: int| 0 <= j < 4 ==> flag_row(#[trigger] final(v)@[old(v)@.len() + j]) == attribution_completed_rows()[j],
{
    let ghost n = v@.len();
    v.push(ours_flag(
        "BROOD_STALL_MS",
        ATTRIBUTION,
        "`=<ms>`: report any GC pause, scheduler quantum or GUI paint at or over this — the lag tracer",
    ));
    v.push(ours_flag(
        "BROOD_COMPILE_TRACE",
        ATTRIBUTION,
        "time each JIT lowering (`[compile] <dur> arm=… inlined=…`); needs `make perf-brood`",
    ));
    v.push(ours_flag(
        "BROOD_EVAL_TRACE",
        ATTRIBUTION,
        "trace each form entering the TREE-WALKING evaluator (debug builds) — who left the VM",
    ));
    v.push(ours_flag(
        "BROOD_VM_TRACE",
        ATTRIBUTION,
        "trace each bytecode instruction as it executes (debug builds)",
    ));
    proof {
        assert forall|j: int| 0 <= j < 4 implies flag_row(#[trigger] v@[n + j]) == attribution_completed_rows()[j] by {}
    }
}

/// More JIT flags.
/// Each row is a flag's name, its group, and whether the runtime itself reads it.
pub open spec fn jit_completed_rows() -> Seq<(&'static str, &'static str, bool)> {
    seq![
        ("BROOD_JIT_CB_TRACE", JIT, true),
        ("BROOD_DBG_CONST", JIT, true),
        ("BROOD_MKCLO", JIT, true),
        ("BROOD_MAPGET", JIT, true),
    ]
}

/// Appends the catalogue's JIT (later) flags.
fn push_jit_completed_flags(v: &mut Vec<DebugFlag>)
    ensures
        final(v)@.len() == old(v)@.len() + 4,
        forall|j: int| 0 <= j < old(v)@.len() ==> #[trigger] final(v)@[j] == old(v)@[j],
        forall|j: int| 0 <= j < 4 ==> flag_row(#[trigger] final(v)@[old(v)@.len() + j]) == jit_completed_rows()[j],
{
    let ghost n = v@.len();
    v.push(ours_flag(
        "BROOD_JIT_CB_TRACE",
        JIT,
        "trace each `brood_rt_*` callback from native code back into Rust (debug builds)",
    ));
    v.push(ours_flag(
        "BROOD_DBG_CONST",
        JIT,
        "trace JIT constant-pool decisions — for diagnosing a wrong-constant miscompile",
    ));
    v.push(ours_flag(
        "BROOD_MKCLO",
        JIT,
        "opt IN to admitting `MakeClosure` to the JIT subset; default OFF (`docs/compute-frontier.md`)",
    ));
    v.push(ours_flag(
        "BROOD_MAPGET",
        JIT,
        "opt IN to lowering `(get m k)` to a native map probe; default OFF — a miss-heavy loop can deopt to BAILED",
    ));
    proof {
        assert forall|j: int| 0 <= j < 4 implies flag_row(#[trigger] v@[n + j]) == jit_completed_rows()[j] by {}
    }
}

/// More optimizer opt-outs.
/// Each row is a flag's name, its group, and whether the runtime itself reads it.
pub open spec fn optimizer_opt_outs_completed_rows() -> Seq<(&'static str, &'static str, bool)> {
    seq![
        ("BROOD_NO_HOF_JIT", OPTOUT, true),
        ("BROOD_NO_JIT_ICALL", OPTOUT, true),
        ("BROOD_NO_DEOPT_RESUME", OPTOUT, true),
        ("BROOD_INLINE_DEPTH", OPTOUT, true),
        ("BROOD_INLINE_MAXBODY", OPTOUT, true),
    ]
}

/// Appends the catalogue's optimizer opt-outs (later) flags.
fn push_optimizer_opt_outs_completed_flags(v: &mut Vec<DebugFlag>)
    ensures
        final(v)@.len() == old(v)@.len() + 5,
        forall|j: int| 0 <= j < old(v)@.len() ==> #[trigger] final(v)@[j] == old(v)@[j],
        forall|j: int| 0 <= j < 5 ==> flag_row(#[trigger] final(v)@[old(v)@.len() + j]) == optimizer_opt_outs_completed_rows()[j],
{
    let ghost n = v@.len();
    v.push(ours_flag(
        "BROOD_NO_HOF_JIT",
        OPTOUT,
        "opt out of the higher-order call's native fast-frame (narrower than BROOD_NO_HOF)",
    ));
    v.push(ours_flag(
        "BROOD_NO_JIT_ICALL",
        OPTOUT,
        "opt out of the in-IR call-site fast-link; every call takes `brood_rt_call_slow` (fib ~20%)",
    ));
    v.push(ours_flag(
        "BROOD_NO_DEOPT_RESUME",
        OPTOUT,
        "chicken switch: drop deopt checkpoints and re-run a deopted arm from ip 0 instead",
    ));
    v.push(ours_flag(
        "BROOD_INLINE_DEPTH",
        OPTOUT,
        "`=<n>`: recursion levels the self-inliner splices (default 2) — the A/B knob",
    ));
    v.push(ours_flag(
        "BROOD_INLINE_MAXBODY",
        OPTOUT,
        "`=<n>`: body-size ceiling for self-inline expansion past the first pass",
    ));
    proof {
        assert forall|j: int| 0 <= j < 5 implies flag_row(#[trigger] v@[n + j]) == optimizer_opt_outs_completed_rows()[j] by {}
    }
}

/// More GC and memory flags.
/// Each row is a flag's name, its group, and whether the runtime itself reads it.
pub open spec fn gc_memory_completed_rows() -> Seq<(&'static str, &'static str, bool)> {
    seq![
        ("BROOD_GC_MAJOR", GC, true),
        ("BROOD_GC_TENURE", GC, true),
        ("BROOD_GC_GROWTH", GC, true),
        ("BROOD_MAJOR_GROWTH", GC, true),
        ("BROOD_GC_TENURE_RESERVE", GC, true),
        ("BROOD_STACK_BUDGET", GC, true),
        ("BROOD_TRACE_GCBLOCK", GC, true),
    ]
}

/// Appends the catalogue's GC / memory (later) flags.
fn push_gc_memory_completed_flags(v: &mut Vec<DebugFlag>)
    ensures
        final(v)@.len() == old(v)@.len() + 7,
        forall|j: int| 0 <= j < old(v)@.len() ==> #[trigger] final(v)@[j] == old(v)@[j],
        forall|j: int| 0 <= j < 7 ==> flag_row(#[trigger] final(v)@[old(v)@.len() + j]) == gc_memory_completed_rows()[j],
{
    let ghost n = v@.len();
    v.push(ours_flag(
        "BROOD_GC_MAJOR",
        GC,
        "`=<count>`: live-object floor before a MAJOR collection (default 256K; K/M suffixes ok)",
    ));
    v.push(ours_flag(
        "BROOD_GC_TENURE",
        GC,
        "`=<count>`: nursery pressure at which a minor TENURES survivors rather than flipping (default 16K)",
    ));
    v.push(ours_flag(
        "BROOD_GC_GROWTH",
        GC,
        "`=<factor>`: minor-threshold growth per collection, 1.05–8.0 (default 2.0)",
    ));
    v.push(ours_flag(
        "BROOD_MAJOR_GROWTH",
        GC,
        "`=<factor>`: old-gen growth allowed before the next major, >=2 (default 4)",
    ));
    v.push(ours_flag(
        "BROOD_GC_TENURE_RESERVE",
        GC,
        "restore the peak-sized nursery reservation after a tenure — the A/B lever for that RSS fix",
    ));
    v.push(ours_flag(
        "BROOD_STACK_BUDGET",
        GC,
        "`=<bytes>`: the non-tail-recursion stack guard's budget",
    ));
    v.push(ours_flag(
        "BROOD_TRACE_GCBLOCK",
        GC,
        "trace GC-block depth (debug builds)",
    ));
    proof {
        assert forall|j: int| 0 <= j < 7 implies flag_row(#[trigger] v@[n + j]) == gc_memory_completed_rows()[j] by {}
    }
}

/// Scheduler, messaging and distribution.
/// Each row is a flag's name, its group, and whether the runtime itself reads it.
pub open spec fn distribution_completed_rows() -> Seq<(&'static str, &'static str, bool)> {
    seq![
        ("BROOD_J", SCHED, true),
        ("BROOD_REDUCTIONS", SCHED, true),
        ("BROOD_STEAL_GRACE_NS", SCHED, true),
        ("BROOD_NO_STEAL_WAKE", SCHED, true),
        ("BROOD_NO_SHARE_FN_MSG", SCHED, true),
        ("BROOD_NO_MESH", SCHED, true),
    ]
}

/// Appends the catalogue's scheduler / messaging / distribution (later) flags.
fn push_distribution_completed_flags(v: &mut Vec<DebugFlag>)
    ensures
        final(v)@.len() == old(v)@.len() + 6,
        forall|j: int| 0 <= j < old(v)@.len() ==> #[trigger] final(v)@[j] == old(v)@[j],
        forall|j: int| 0 <= j < 6 ==> flag_row(#[trigger] final(v)@[old(v)@.len() + j]) == distribution_completed_rows()[j],
{
    let ghost n = v@.len();
    v.push(ours_flag(
        "BROOD_J",
        SCHED,
        "`=<n>`: worker threads in the scheduler pool (default = available parallelism)",
    ));
    v.push(ours_flag(
        "BROOD_REDUCTIONS",
        SCHED,
        "`=<n>`: eval iterations a process runs before it must yield (default 2000; huge ≈ no preemption)",
    ));
    v.push(ours_flag(
        "BROOD_STEAL_GRACE_NS",
        SCHED,
        "`=<ns>`: a spawner's first refusal on its own child before a peer may steal it (default 5000; 0 off)",
    ));
    v.push(ours_flag(
        "BROOD_NO_STEAL_WAKE",
        SCHED,
        "opt out of the spawn-time peer wake; idle workers wait for their own steal re-probe",
    ));
    v.push(ours_flag(
        "BROOD_NO_SHARE_FN_MSG",
        SCHED,
        "opt out of handing a shared closure by handle on the SERIALISED send (BROOD_NO_SHARE_FN's sibling)",
    ));
    v.push(ours_flag(
        "BROOD_NO_MESH",
        SCHED,
        "point-to-point node links only — no automatic mesh to every node a peer already knows",
    ));
    proof {
        assert forall|j: int| 0 <= j < 6 implies flag_row(#[trigger] v@[n + j]) == distribution_completed_rows()[j] by {}
    }
}

/// Diagnostics and checking.
/// Each row is a flag's name, its group, and whether the runtime itself reads it.
pub open spec fn diagnostics_rows() -> Seq<(&'static str, &'static str, bool)> {
    seq![
        ("BROOD_COVERAGE", DIAG, true),
        ("BROOD_CONTRACTS", DIAG, true),
        ("BROOD_CHECK_STRICT", DIAG, true),
        ("BROOD_NO_CHECK_CACHE", DIAG, true),
        ("BROOD_CHECK_CACHE_MAX", DIAG, true),
        ("BROOD_NO_RELOAD_DIAG", DIAG, true),
        ("BROOD_NO_SHADOW_WARN", DIAG, true),
        ("BROOD_TEST_NO_SCOPE", DIAG, true),
    ]
}

/// Appends the catalogue's diagnostics and checking flags.
fn push_diagnostics_flags(v: &mut Vec<DebugFlag>)
    ensures
        final(v)@.len() == old(v)@.len() + 8,
        forall|j: int| 0 <= j < old(v)@.len() ==> #[trigger] final(v)@[j] == old(v)@[j],
        forall|j: int| 0 <= j < 8 ==> flag_row(#[trigger] final(v)@[old(v)@.len() + j]) == diagnostics_rows()[j],
{
    let ghost n = v@.len();
    v.push(ours_flag(
        "BROOD_COVERAGE",
        DIAG,
        "arm line-coverage instrumentation. Set it before the first Interp — the prelude compiles then — and note it stands the prelude/std images aside, since a materialised binding is never compiled",
    ));
    v.push(ours_flag(
        "BROOD_CONTRACTS",
        DIAG,
        "turn every `sig` into a runtime checking shim — the static checker's runtime counterpart",
    ));
    v.push(ours_flag(
        "BROOD_CHECK_STRICT",
        DIAG,
        "run the advisory checker in --strict mode; the check cache keys its manifest on this",
    ));
    v.push(ours_flag(
        "BROOD_NO_CHECK_CACHE",
        DIAG,
        "bypass `nest check`'s incremental result cache — recheck everything from scratch",
    ));
    v.push(ours_flag(
        "BROOD_CHECK_CACHE_MAX",
        DIAG,
        "`=<n>`: project file count above which the check cache stands aside (default 50000)",
    ));
    v.push(ours_flag(
        "BROOD_NO_RELOAD_DIAG",
        DIAG,
        "silence the hot-reload `def` diagnostics (arity changed / macro redefined)",
    ));
    v.push(ours_flag(
        "BROOD_NO_SHADOW_WARN",
        DIAG,
        "silence the warning that a `(:use …)` import shadows a prelude/root global",
    ));
    v.push(ours_flag(
        "BROOD_TEST_NO_SCOPE",
        DIAG,
        "revert `nest test` to load-all-then-run-all instead of the per-file `%isolate` scope",
    ));
    proof {
        assert forall|j: int| 0 <= j < 8 implies flag_row(#[trigger] v@[n + j]) == diagnostics_rows()[j] by {}
    }
}

/// The host environment.
/// Each row is a flag's name, its group, and whether the runtime itself reads it.
pub open spec fn host_rows() -> Seq<(&'static str, &'static str, bool)> {
    seq![
        ("BROOD_GUI_HEADLESS", HOST, true),
        ("BROOD_GUI_GPU", HOST, true),
        ("BROOD_GUI_DAMAGE", HOST, true),
        ("BROOD_AUDIO", HOST, true),
        ("BROOD_COOKIE", HOST, true),
        ("BROOD_HISTORY", HOST, true),
        ("BROOD_RC", HOST, true),
    ]
}

/// Appends the catalogue's host environment flags.
fn push_host_flags(v: &mut Vec<DebugFlag>)
    ensures
        final(v)@.len() == old(v)@.len() + 7,
        forall|j: int| 0 <= j < old(v)@.len() ==> #[trigger] final(v)@[j] == old(v)@[j],
        forall|j: int| 0 <= j < 7 ==> flag_row(#[trigger] final(v)@[old(v)@.len() + j]) == host_rows()[j],
{
    let ghost n = v@.len();
    v.push(ours_flag(
        "BROOD_GUI_HEADLESS",
        HOST,
        "run the GUI/display layer with no real window, and no audio — for a headless CI box",
    ));
    v.push(ours_flag(
        "BROOD_GUI_GPU",
        HOST,
        "select the experimental OpenGL render backend at runtime (build with --with-gui-gpu)",
    ));
    v.push(ours_flag(
        "BROOD_GUI_DAMAGE",
        HOST,
        "`=0`: blit the whole buffer each frame instead of the damage region (the safe fallback)",
    ));
    v.push(ours_flag(
        "BROOD_AUDIO",
        HOST,
        "`=0`: disable `audio-beep` (also off with no device present, or under BROOD_GUI_HEADLESS)",
    ));
    v.push(ours_flag(
        "BROOD_COOKIE",
        HOST,
        "the distribution auth cookie, ahead of `~/.brood_cookie` — configuration, not a diagnostic",
    ));
    v.push(ours_flag(
        "BROOD_HISTORY",
        HOST,
        "`=<path>`: where the REPL stores its history",
    ));
    v.push(ours_flag(
        "BROOD_RC",
        HOST,
        "`=<path>`: the REPL's user startup file (default `$HOME/.broodrc.blsp`)",
    ));
    proof {
        assert forall|j: int| 0 <= j < 7 implies flag_row(#[trigger] v@[n + j]) == host_rows()[j] by {}
    }
}

/// Every environment flag the runtime reads, and the dependencies' flags that
/// move measurements, with their groups and one-line effects, section by
/// section.
pub fn catalogue() -> (r: Vec<DebugFlag>)
    ensures
        r@.len() == 100,
        forall|j: int| 0 <= j < 12 ==> flag_row(#[trigger] r@[0 + j]) == attribution_rows()[j],
        forall|j: int| 0 <= j < 8 ==> flag_row(#[trigger] r@[12 + j]) == jit_rows()[j],
        forall|j: int| 0 <= j < 17 ==> flag_row(#[trigger] r@[20 + j]) == optimizer_opt_outs_rows()[j],
        forall|j: int| 0 <= j < 8 ==> flag_row(#[trigger] r@[37 + j]) == gc_memory_rows()[j],
        forall|j: int| 0 <= j < 9 ==> flag_row(#[trigger] r@[45 + j]) == scheduler_messaging_rows()[j],
        forall|j: int| 0 <= j < 5 ==> flag_row(#[trigger] r@[54 + j]) == engine_rows()[j],
        forall|j: int| 0 <= j < 4 ==> flag_row(#[trigger] r@[59 + j]) == attribution_completed_rows()[j],
        forall|j: int| 0 <= j < 4 ==> flag_row(#[trigger] r@[63 + j]) == jit_completed_rows()[j],
        forall|j: int| 0 <= j < 5 ==> flag_row(#[trigger] r@[67 + j]) == optimizer_opt_outs_completed_rows()[j],
        forall|j: int| 0 <= j < 7 ==> flag_row(#[trigger] r@[72 + j]) == gc_memory_completed_rows()[j],
        forall|j: int| 0 <= j < 6 ==> flag_row(#[trigger] r@[79 + j]) == distribution_completed_rows()[j],
        forall|j: int| 0 <= j < 8 ==> flag_row(#[trigger] r@[85 + j]) == diagnostics_rows()[j],
        forall|j: int| 0 <= j < 7 ==> flag_row(#[trigger] r@[93 + j]) == host_rows()[j],
{
    let mut v: Vec<DebugFlag> = Vec::new();
    push_attribution_flags(&mut v);
    push_jit_flags(&mut v);
    push_optimizer_opt_outs_flags(&mut v);
    push_gc_memory_flags(&mut v);
    push_scheduler_messaging_flags(&mut v);
    push_engine_flags(&mut v);
    push_attribution_completed_flags(&mut v);
    push_jit_completed_flags(&mut v);
    push_optimizer_opt_outs_completed_flags(&mut v);
    push_gc_memory_completed_flags(&mut v);
    push_distribution_completed_flags(&mut v);
    push_diagnostics_flags(&mut v);
    push_host_flags(&mut v);
    v
}

} // verus!
