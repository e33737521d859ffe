# brood_core

The per-process heap substrate of the Brood Lisp runtime, written in Verus with
its behaviour stated as contracts and proved.

## Layout

- `src/` — the verified library.
  - `value`, `champ`, `champ_map`, `champ_view`, `map_ops`: values and handles,
    and the persistent CHAMP maps (assoc, integer add, dissoc, lookup, entries),
    with the trie's meaning given by `trie_view`.
  - `runtime_code`, `heap`, `gc_runtime`, `reach`, `probe`, `compact`, `flush`,
    `collect`, `rt_collect`, `promote`, `objects`: the shared RUNTIME code region
    with its two generations, the copy engine behind compaction, migration and
    promotion, and the drain protocol that frees an aged generation.
  - `vm_cache`, `vm_ic`, `dispatch`: the compiled-body cache, the call-site and
    global-read inline caches with their fast-link mirror, and ability dispatch.
  - `symbols`, `positions`, `definitions`, `packages`: interned names, source
    positions, definition sites, imports and package qualification.
  - `small_map`, `local_string`: the small per-process map and string slots.
  - `bignum`: integers outside the `i64` range as sign and base-2^32 digits,
    normalized on the way in so an `Int` and a `BigInt` never coincide.
  - `passthrough`: the thin-wrapper analysis of closure arms.
  - `table`: shared mutable tables (dense tagged words, migrating once to a
    hashed form).
  - `coverage`, `node`, `names`, `debug_flags`: coverage recording, the node
    identity gate and handshake limits, the process-name registry, and the
    diagnostic-flag catalogue and its layout.
- `tests/` — tests run against the compiled library.
- `app/` — the host shell: process-wide registries behind locks, environment
  switches, the clock, sockets and printing.
