//! Ability dispatch with a per-op inline cache: the engine of the `%dispatch`
//! primitive. An op resolves its impl as `impls[op-key][id]`, falling back to the
//! `:default` impl; a cache keyed by the op remembers up to four `id -> impl`
//! answers for the current binding epoch.

use vstd::prelude::*;
use crate::value::{Value, Handle, Symbol, LOCAL, RUNTIME};
use crate::heap::Heap;
use crate::vm_cache::DispatchIcEntry;
use crate::vm_ic::{is_movable, spec_is_movable};
use crate::champ_map::ckey;
use crate::symbols::{SymbolTable, intern_existing};

verus! {

broadcast use {vstd::std_specs::hash::group_hash_axioms, vstd::array::group_array_axioms};

/// The cache key of the op `[a b]`: the two symbol ids packed into one word.
pub open spec fn pack_op_key(a: Symbol, b: Symbol) -> u64 {
    ((a as u64) << 32u64) | (b as u64)
}

/// The id `table` gives the spelling `name`, if it holds it.
pub open spec fn spelled(table: &SymbolTable, name: Seq<char>) -> Option<Symbol> {
    if exists|i: int| 0 <= i < table@.len() && table@[i] == name {
        Some((choose|i: int| 0 <= i < table@.len() && table@[i] == name) as Symbol)
    } else {
        None
    }
}

/// How many of an entry's ways are filled.
pub open spec fn ways(len: u8) -> int {
    if len < 4 {
        len as int
    } else {
        4
    }
}

/// The first way at or after `i`, below `n`, that holds `s`.
pub open spec fn find_way(ids: Seq<Symbol>, n: int, s: Symbol, i: int) -> Option<int>
    decreases n - i,
{
    if i >= n || i < 0 {
        None
    } else if ids[i] == s {
        Some(i)
    } else {
        find_way(ids, n, s, i + 1)
    }
}

/// The impl an entry holds for `s` when it is valid at `epoch`.
pub open spec fn cached_callee(e: DispatchIcEntry, epoch: u64, s: Symbol) -> Option<Value> {
    if e.epoch == epoch {
        match find_way(e.ids@, ways(e.len), s, 0) {
            Some(i) => Some(e.callees@[i]),
            None => None,
        }
    } else {
        None
    }
}

/// `ne` is `old` (or a fresh entry when there is none) after caching `s -> callee`
/// at `epoch`: an entry from another epoch is emptied first; a way already holding
/// `s` is overwritten; otherwise the next free way is taken, or, once all four are
/// full, the way under the round-robin cursor is evicted and the cursor advances.
pub open spec fn dispatch_filled(
    old: Option<DispatchIcEntry>,
    epoch: u64,
    s: Symbol,
    callee: Value,
    ne: DispatchIcEntry,
) -> bool {
    let (ids, callees, len, cursor) = match old {
        Some(e) => if e.epoch == epoch {
            (e.ids@, e.callees@, e.len, e.cursor)
        } else {
            (e.ids@, e.callees@, 0u8, 0u8)
        },
        None => (seq![0u32, 0u32, 0u32, 0u32], seq![Value::Nil, Value::Nil, Value::Nil, Value::Nil], 0u8, 0u8),
    };
    let (slot, nlen, ncursor) = match find_way(ids, ways(len), s, 0) {
        Some(i) => (i, len, cursor),
        None => if len < 4 {
            (len as int, (len + 1) as u8, cursor)
        } else {
            ((cursor % 4) as int, len, ((cursor % 4 + 1) % 4) as u8)
        },
    };
    &&& ne.epoch == epoch
    &&& ne.ids@ == ids.update(slot, s)
    &&& ne.callees@ == callees.update(slot, callee)
    &&& ne.len == nlen
    &&& ne.cursor == ncursor
}

proof fn lemma_find_way_none_prefix(ids: Seq<Symbol>, n: int, s: Symbol, i: int)
    requires
        0 <= i <= n,
        find_way(ids, n, s, i) is None,
    ensures
        forall|j: int| i <= j < n ==> ids[j] != s,
    decreases n - i,
{
    if i < n {
        lemma_find_way_none_prefix(ids, n, s, i + 1);
    }
}

proof fn lemma_find_way_first(ids: Seq<Symbol>, n: int, s: Symbol, i: int, k: int)
    requires
        0 <= i <= k < n,
        ids[k] == s,
        forall|j: int| i <= j < k ==> ids[j] != s,
    ensures
        find_way(ids, n, s, i) == Some(k),
    decreases k - i,
{
    if i < k {
        lemma_find_way_first(ids, n, s, i + 1, k);
    }
}

proof fn lemma_find_way_found(ids: Seq<Symbol>, n: int, s: Symbol, i: int)
    requires
        0 <= i,
        find_way(ids, n, s, i) is Some,
    ensures
        ({
            let k = find_way(ids, n, s, i)->0;
            &&& i <= k < n
            &&& ids[k] == s
            &&& forall|j: int| i <= j < k ==> ids[j] != s
        }),
    decreases n - i,
{
    if i < n && ids[i] != s {
        lemma_find_way_found(ids, n, s, i + 1);
    }
}

/// A dispatch cache answers for an id right after caching it: once `s -> callee`
/// has been filled in at `epoch`, a probe of that entry for `s` at the same epoch
/// hits and yields `callee`.
pub proof fn lemma_dispatch_fill_then_hit(
    old: Option<DispatchIcEntry>,
    epoch: u64,
    s: Symbol,
    callee: Value,
    ne: DispatchIcEntry,
)
    requires
        dispatch_filled(old, epoch, s, callee, ne),
    ensures
        cached_callee(ne, epoch, s) == Some(callee),
{
    let (ids, callees, len, cursor) = match old {
        Some(e) => if e.epoch == epoch {
            (e.ids@, e.callees@, e.len, e.cursor)
        } else {
            (e.ids@, e.callees@, 0u8, 0u8)
        },
        None => (seq![0u32, 0u32, 0u32, 0u32], seq![Value::Nil, Value::Nil, Value::Nil, Value::Nil], 0u8, 0u8),
    };
    assert(ids.len() == 4 && callees.len() == 4) by {
        match old {
            Some(e) => {},
            None => {},
        }
    }
    let n = ways(len);
    match find_way(ids, n, s, 0) {
        Some(k) => {
            lemma_find_way_found(ids, n, s, 0);
            lemma_find_way_first(ne.ids@, ways(ne.len), s, 0, k);
        },
        None => {
            lemma_find_way_none_prefix(ids, n, s, 0);
            if len < 4 {
                lemma_find_way_first(ne.ids@, ways(ne.len), s, 0, len as int);
            } else {
                let c = (cursor % 4) as int;
                lemma_find_way_first(ne.ids@, ways(ne.len), s, 0, c);
            }
        },
    }
}

impl Heap {
    /// The items of the vector a handle names, when it names one of this process's
    /// LOCAL vectors or one of the runtime's code vectors.
    pub open spec fn spec_vector_items(&self, id: Handle) -> Option<Seq<Value>> {
        let i = id.spec_index() as int;
        if id.spec_region() == LOCAL {
            if i < self.local.vectors@.len() {
                Some(self.local.vectors@[i]@)
            } else {
                None
            }
        } else if id.spec_region() == RUNTIME && id.spec_stamp() < 2 {
            let slabs = self.runtime.spec_gen(id.spec_stamp() as int);
            if i < slabs.vectors@.len() {
                Some(slabs.vectors@[i]@)
            } else {
                None
            }
        } else {
            None
        }
    }

    /// The items of the vector a handle names.
    pub fn vector_items(&self, id: Handle) -> (r: Option<&Vec<Value>>)
        ensures
            match r {
                Some(v) => self.spec_vector_items(id) == Some(v@),
                None => self.spec_vector_items(id) is None,
            },
    {
        let i = id.index();
        let region = id.region();
        if region == LOCAL {
            if i < self.local.vectors.len() {
                Some(&self.local.vectors[i])
            } else {
                None
            }
        } else if region == RUNTIME {
            let g = id.code_gen();
            if g < 2 {
                let slabs = if g == 0 {
                    &self.runtime.gen0
                } else {
                    &self.runtime.gen1
                };
                if i < slabs.vectors.len() {
                    Some(&slabs.vectors[i])
                } else {
                    None
                }
            } else {
                None
            }
        } else {
            None
        }
    }

    /// The cache key of an op key: its two symbols packed, when it is a vector of
    /// exactly two symbols.
    pub open spec fn spec_dispatch_key(&self, op_key: Value) -> Option<u64> {
        match op_key {
            Value::Vector(id) => match self.spec_vector_items(id) {
                Some(items) => if items.len() == 2 {
                    match (items[0], items[1]) {
                        (Value::Sym(a), Value::Sym(b)) => Some(pack_op_key(a, b)),
                        _ => None,
                    }
                } else {
                    None
                },
                None => None,
            },
            _ => None,
        }
    }

    /// The value `key` maps to in the map `m` holds, when `m` is a map of this heap.
    pub open spec fn spec_map_lookup(&self, m: Value, key: Value) -> Option<Value> {
        match m {
            Value::Mapping(h) => if self.maps.is_root(h) && self.maps.view_of(h).contains_key(
                ckey(key),
            ) {
                Some(self.maps.view_of(h)[ckey(key)])
            } else {
                None
            },
            _ => None,
        }
    }

    /// The impl the pure resolution picks: `impls[op_key][id]`, else the impl under
    /// the `:default` keyword (`dflt`, when that keyword exists), else nil.
    pub open spec fn spec_dispatch_resolve(
        &self,
        impls: Value,
        op_key: Value,
        id: Value,
        dflt: Option<Symbol>,
    ) -> Value {
        match self.spec_map_lookup(impls, op_key) {
            Some(methods) => match self.spec_map_lookup(methods, id) {
                Some(f) => f,
                None => match dflt {
                    Some(d) => match self.spec_map_lookup(methods, Value::Keyword(d)) {
                        Some(f) => f,
                        None => Value::Nil,
                    },
                    None => Value::Nil,
                },
            },
            None => Value::Nil,
        }
    }

    /// The cache key of an op key `[ability op]`.
    fn dispatch_key(&self, op_key: Value) -> (r: Option<u64>)
        ensures
            r == self.spec_dispatch_key(op_key),
    {
        let id = match op_key {
            Value::Vector(id) => id,
            _ => return None,
        };
        match self.vector_items(id) {
            Some(v) => {
                if v.len() == 2 {
                    match (v[0], v[1]) {
                        (Value::Sym(a), Value::Sym(b)) => Some(((a as u64) << 32u64) | (b as u64)),
                        _ => None,
                    }
                } else {
                    None
                }
            },
            None => None,
        }
    }

    /// The value `key` maps to in the map `m` holds.
    fn map_lookup(&self, m: Value, key: Value) -> (r: Option<Value>)
        requires
            self.maps.wf(),
        ensures
            r == self.spec_map_lookup(m, key),
    {
        match m {
            Value::Mapping(h) => {
                if self.maps.is_root_map(h) {
                    self.map_get(h, key)
                } else {
                    None
                }
            },
            _ => None,
        }
    }

    /// The pure resolution: `impls[op_key][id]`, else `[:default]`, else nil.
    fn dispatch_resolve(&self, table: &SymbolTable, impls: Value, op_key: Value, id: Value) -> (r:
        Value)
        requires
            self.maps.wf(),
            table.wf(),
        ensures
            r == self.spec_dispatch_resolve(impls, op_key, id, spelled(table, "default"@)),
    {
        let methods = match self.map_lookup(impls, op_key) {
            Some(m) => m,
            None => return Value::Nil,
        };
        if let Some(f) = self.map_lookup(methods, id) {
            return f;
        }
        let dflt = intern_existing(table, "default");
        proof {
            if exists|i: int| 0 <= i < table@.len() && table@[i] == "default"@ {
                let c = choose|i: int| 0 <= i < table@.len() && table@[i] == "default"@;
                match dflt {
                    Some(d) => table.lemma_spellings_distinct(d as int, c),
                    None => {},
                }
            }
            assert(dflt == spelled(table, "default"@));
        }
        match dflt {
            Some(d) => match self.map_lookup(methods, Value::Keyword(d)) {
                Some(f) => f,
                None => Value::Nil,
            },
            None => Value::Nil,
        }
    }

    /// Ability dispatch with a per-op inline cache. Given the current impls map,
    /// the op's `[ability op]` key and the first argument's dispatch id keyword,
    /// returns the impl (nil when there is none). When the key and id have the
    /// shape the cache takes, an entry valid at the current binding epoch that
    /// holds the id answers at once; otherwise the pure resolution runs and its
    /// answer, unless it is a movable LOCAL value, is cached.
    pub fn vm_dispatch(&mut self, table: &SymbolTable, impls: Value, op_key: Value, id: Value) -> (r:
        Value)
        requires
            old(self).maps.wf(),
            table.wf(),
        ensures
            ({
                let res = old(self).spec_dispatch_resolve(
                    impls,
                    op_key,
                    id,
                    spelled(table, "default"@),
                );
                let epoch = old(self).runtime.version;
                let ics = old(self).dispatch_ics@;
                match (old(self).spec_dispatch_key(op_key), id) {
                    (Some(k), Value::Keyword(s)) => {
                        let old_e = if ics.contains_key(k) {
                            Some(ics[k])
                        } else {
                            None
                        };
                        let hit = match old_e {
                            Some(e) => cached_callee(e, epoch, s),
                            None => None,
                        };
                        &&& *final(self) == (Heap { dispatch_ics: final(self).dispatch_ics, ..*old(self) })
                        &&& match hit {
                            Some(c) => r == c && final(self).dispatch_ics@ == ics,
                            None => {
                                &&& r == res
                                &&& spec_is_movable(res) ==> final(self).dispatch_ics@ == ics
                                &&& !spec_is_movable(res) ==> {
                                    &&& final(self).dispatch_ics@.dom() == ics.dom().insert(k)
                                    &&& forall|k2: u64|
                                        k2 != k && #[trigger] ics.contains_key(k2)
                                            ==> final(self).dispatch_ics@[k2] == ics[k2]
                                    &&& dispatch_filled(
                                        old_e,
                                        epoch,
                                        s,
                                        res,
                                        final(self).dispatch_ics@[k],
                                    )
                                }
                            },
                        }
                    },
                    _ => r == res && *final(self) == *old(self),
                }
            }),
    {
        let key = self.dispatch_key(op_key);
        let (k, s) = match (key, id) {
            (Some(k), Value::Keyword(s)) => (k, s),
            _ => return self.dispatch_resolve(table, impls, op_key, id),
        };
        let epoch = self.global_epoch();
        let old_e: Option<DispatchIcEntry> = match self.dispatch_ics.get(&k) {
            Some(e) => Some(*e),
            None => None,
        };
        if let Some(e) = old_e {
            if let Some(c) = probe_entry(&e, epoch, s) {
                return c;
            }
        }
        let callee = self.dispatch_resolve(table, impls, op_key, id);
        if !is_movable(callee) {
            let ne = fill_way(old_e, epoch, s, callee);
            self.dispatch_ics.insert(k, ne);
            proof {
                assert(self.dispatch_ics@.dom() =~= old(self).dispatch_ics@.dom().insert(k));
            }
        }
        callee
    }
}

/// The first of the first `n` ways that holds `s`.
fn find_way_exec(ids: &[Symbol; 4], n: usize, s: Symbol) -> (r: Option<usize>)
    requires
        n <= 4,
    ensures
        match r {
            Some(j) => find_way(ids@, n as int, s, 0) == Some(j as int) && j < n,
            None => find_way(ids@, n as int, s, 0) is None,
        },
{
    let mut i: usize = 0;
    while i < n
        invariant
            n <= 4,
            i <= n,
            find_way(ids@, n as int, s, 0) == find_way(ids@, n as int, s, i as int),
        decreases n - i,
    {
        if ids[i] == s {
            assert(ids@[i as int] == s);
            return Some(i);
        }
        i = i + 1;
    }
    None
}

/// The impl entry `e` holds for `s` when it is valid at `epoch`.
fn probe_entry(e: &DispatchIcEntry, epoch: u64, s: Symbol) -> (r: Option<Value>)
    ensures
        r == cached_callee(*e, epoch, s),
{
    if e.epoch != epoch {
        return None;
    }
    let n: usize = if e.len < 4 {
        e.len as usize
    } else {
        4
    };
    match find_way_exec(&e.ids, n, s) {
        Some(i) => Some(e.callees[i]),
        None => None,
    }
}

/// `old` (or a fresh entry) with `s -> callee` cached at `epoch`.
fn fill_way(old: Option<DispatchIcEntry>, epoch: u64, s: Symbol, callee: Value) -> (ne:
    DispatchIcEntry)
    ensures
        dispatch_filled(old, epoch, s, callee, ne),
{
    let mut e = match old {
        Some(e) => e,
        None => DispatchIcEntry {
            epoch,
            ids: [0u32, 0u32, 0u32, 0u32],
            callees: [Value::Nil, Value::Nil, Value::Nil, Value::Nil],
            len: 0,
            cursor: 0,
        },
    };
    if e.epoch != epoch {
        e.epoch = epoch;
        e.len = 0;
        e.cursor = 0;
    }
    let n: usize = if e.len < 4 {
        e.len as usize
    } else {
        4
    };
    let found = find_way_exec(&e.ids, n, s);
    let slot: usize = match found {
        Some(j) => j,
        None => {
            if e.len < 4 {
                let sl = e.len as usize;
                e.len = e.len + 1;
                sl
            } else {
                let sl = (e.cursor % 4) as usize;
                e.cursor = (e.cursor % 4 + 1) % 4;
                sl
            }
        },
    };
    e.ids[slot] = s;
    e.callees[slot] = callee;
    e
}

/// The cache key of an op decodes back to it: the high word is the ability's
/// symbol and the low word the op's.
pub proof fn law_dispatch_key_decodes(h: Heap, op_key: Value)
    requires
        h.spec_dispatch_key(op_key) is Some,
    ensures
        ({
            let k = h.spec_dispatch_key(op_key)->0;
            &&& op_key is Vector
            &&& h.spec_vector_items(op_key->Vector_0) is Some
            &&& h.spec_vector_items(op_key->Vector_0)->0 == seq![
                Value::Sym((k >> 32u64) as u32),
                Value::Sym((k & 0xFFFF_FFFFu64) as u32),
            ]
        }),
{
    let items = h.spec_vector_items(op_key->Vector_0)->0;
    let (a, b) = match (items[0], items[1]) {
        (Value::Sym(a), Value::Sym(b)) => (a, b),
        _ => { return; },
    };
    let k = pack_op_key(a, b);
    assert((((a as u64) << 32u64) | (b as u64)) >> 32u64 == a as u64) by (bit_vector)
        requires a <= 0xFFFF_FFFFu32;
    assert((((a as u64) << 32u64) | (b as u64)) & 0xFFFF_FFFFu64 == b as u64) by (bit_vector)
        requires b <= 0xFFFF_FFFFu32;
    assert(items =~= seq![Value::Sym((k >> 32u64) as u32), Value::Sym((k & 0xFFFF_FFFFu64) as u32)]);
}

/// Two ops share a cache entry only when they are the same op: equal cache keys
/// mean both op keys hold the same two symbols, in the same order.
pub proof fn law_dispatch_key_identifies_op(h: Heap, a: Value, b: Value)
    requires
        h.spec_dispatch_key(a) is Some,
        h.spec_dispatch_key(a) == h.spec_dispatch_key(b),
    ensures
        a is Vector && b is Vector,
        h.spec_vector_items(a->Vector_0) == h.spec_vector_items(b->Vector_0),
{
    law_dispatch_key_decodes(h, a);
    law_dispatch_key_decodes(h, b);
}

} // verus!
