//! The per-process heap substrate of the Brood runtime: the value model and its
//! handles, the CHAMP map trie, the small per-process maps and string slots, the
//! shared RUNTIME code region's collector bookkeeping, the VM inline caches, the
//! compilation context, shared tables, line coverage and the node identity gate.

pub mod value;
pub mod champ;
pub mod runtime_code;
pub mod vm_cache;
pub mod heap;
pub mod gc_runtime;
pub mod symbols;
pub mod positions;
pub mod definitions;
pub mod packages;
pub mod reach;
pub mod probe;
pub mod compact;
pub mod local_string;
pub mod small_map;
pub mod vm_ic;
pub mod champ_map;
pub mod champ_view;
pub mod map_ops;
pub mod flush;
pub mod collect;
pub mod rt_collect;
pub mod promote;
pub mod dispatch;
pub mod coverage;
pub mod node;
pub mod table;
pub mod objects;
pub mod debug_flags;
pub mod names;
pub mod passthrough;
pub mod bignum;
