//! The runtime's shared code region and what a runtime's processes hold in common:
//! the two RUNTIME code generations, the global bindings, the name facts a `def`
//! records (privacy, stability metadata, definition sites, form positions), and the
//! bookkeeping of the generation collector's cooperative drain.

use vstd::prelude::*;
use std::collections::HashMap;
use std::collections::HashSet;
use std::sync::Arc;
use crate::value::{Symbol, Value, EnvId};
use crate::vm_cache::CompiledClosure;

verus! {

/// The odd multiplier of the symbol hasher (a bijection on `u64`).
pub const SYMBOL_HASH_MUL: u64 = 0x517c_c1b7_2722_0a95u64;

/// The byte multiplier of the symbol hasher's fallback path.
pub const SYMBOL_HASH_BYTE_MUL: u64 = 0x0000_0100_0000_01b3u64;

pub open spec fn spec_mix(state: u64, word: u64) -> u64 {
    ((state ^ word) as nat * SYMBOL_HASH_MUL as nat % 0x1_0000_0000_0000_0000nat) as u64
}

/// A fast hasher for `Symbol` and handle keys: one wrapping multiply per key word.
#[derive(Clone, Copy, Debug, PartialEq, Eq, Structural)]
pub struct SymbolHasher(pub u64);

impl SymbolHasher {
    /// A hasher in its initial state.
    pub fn new() -> (r: SymbolHasher)
        ensures
            r.0 == 0,
    {
        SymbolHasher(0)
    }

    /// The hash of everything written so far.
    pub fn finish(&self) -> (r: u64)
        ensures
            r == self.0,
    {
        self.0
    }

    /// Mix in a `u32` key (a `Symbol`).
    pub fn write_u32(&mut self, i: u32)
        ensures
            final(self).0 == spec_mix(old(self).0, i as u64),
    {
        self.0 = (self.0 ^ (i as u64)).wrapping_mul(SYMBOL_HASH_MUL);
    }

    /// Mix in a `u64` key (a handle word).
    pub fn write_u64(&mut self, i: u64)
        ensures
            final(self).0 == spec_mix(old(self).0, i),
    {
        self.0 = (self.0 ^ i).wrapping_mul(SYMBOL_HASH_MUL);
    }

    /// Mix in arbitrary bytes, one multiply per byte.
    pub fn write(&mut self, bytes: &[u8])
        ensures
            final(self).0 == spec_mix_bytes(old(self).0, bytes@),
    {
        let mut i: usize = 0;
        while i < bytes.len()
            invariant
                i <= bytes@.len(),
                self.0 == spec_mix_bytes(old(self).0, bytes@.take(i as int)),
            decreases bytes@.len() - i,
        {
            proof {
                assert(bytes@.take(i as int + 1).drop_last() == bytes@.take(i as int));
            }
            self.0 = (self.0 ^ (bytes[i] as u64)).wrapping_mul(SYMBOL_HASH_BYTE_MUL);
            i = i + 1;
        }
        proof {
            assert(bytes@.take(bytes@.len() as int) == bytes@);
        }
    }
}

/// The byte path of the symbol hasher.
pub open spec fn spec_mix_bytes(state: u64, bytes: Seq<u8>) -> u64
    decreases bytes.len(),
{
    if bytes.len() == 0 {
        state
    } else {
        let prev = spec_mix_bytes(state, bytes.drop_last());
        ((prev ^ (bytes.last() as u64)) as nat * SYMBOL_HASH_BYTE_MUL as nat
            % 0x1_0000_0000_0000_0000nat) as u64
    }
}

/// Which update a registry write performs.
#[derive(Debug, Clone, Copy, PartialEq, Eq, Structural)]
pub enum RegistryOp {
    /// Set `path` to the value, creating the intermediate map if needed.
    Assoc,
    /// Set `path` only if it is currently absent.
    AssocNew,
    /// Remove a one-key `path`.
    Dissoc,
    /// Prepend to a list-valued global unless already a member.
    ConsNew,
}

/// A source position: line and column.
#[derive(Clone, Copy, Debug, PartialEq, Eq, Structural)]
pub struct Pos {
    pub line: u32,
    pub col: u32,
}

/// What a `(meta name …)` form records about a global: when it appeared, whether
/// it is deprecated and what replaces it, and whether it is beta.
#[derive(Clone, Debug)]
pub struct NameMeta {
    pub since: Option<String>,
    pub deprecated: Option<String>,
    pub use_instead: Option<Symbol>,
    pub beta: Option<String>,
}

/// A copy of an optional string.
pub fn clone_opt_string(s: &Option<String>) -> (r: Option<String>)
    ensures
        r == *s,
{
    match s {
        Some(x) => Some(x.clone()),
        None => None,
    }
}

impl NameMeta {
    /// A field-by-field copy.
    pub fn duplicate(&self) -> (r: NameMeta)
        ensures
            r == *self,
    {
        NameMeta {
            since: clone_opt_string(&self.since),
            deprecated: clone_opt_string(&self.deprecated),
            use_instead: self.use_instead,
            beta: clone_opt_string(&self.beta),
        }
    }
}

/// Extending a prefix by one element extends its set by that element.
pub proof fn lemma_take_push_to_set<A>(s: Seq<A>, i: int)
    requires
        0 <= i < s.len(),
    ensures
        s.take(i + 1).to_set() == s.take(i).to_set().insert(s[i]),
{
    assert forall|a: A| s.take(i + 1).to_set().contains(a) <==> s.take(i).to_set().insert(
        s[i],
    ).contains(a) by {
        if s.take(i + 1).contains(a) {
            let j = choose|j: int| 0 <= j < i + 1 && #[trigger] s.take(i + 1)[j] == a;
            if j < i {
                assert(s.take(i)[j] == a);
            }
        }
        if s.take(i).contains(a) {
            let j = choose|j: int| 0 <= j < i && #[trigger] s.take(i)[j] == a;
            assert(s.take(i + 1)[j] == a);
        }
        if a == s[i] {
            assert(s.take(i + 1)[i] == a);
        }
    }
    assert(s.take(i + 1).to_set() =~= s.take(i).to_set().insert(s[i]));
}

/// Where a global was defined: the file, and the start position of its form.
#[derive(Clone, Debug)]
pub struct SourceLoc {
    pub file: String,
    pub pos: Pos,
}

/// A recorded source position of a list form, the file it came from, and whether
/// the expander (rather than the user) built the form.
#[derive(Clone, Debug)]
pub struct FormPos {
    pub pos: Pos,
    pub file: Option<String>,
    pub synthetic: bool,
}

/// A closure body resident in the RUNTIME code region: the values its arms embed
/// (bodies and optional defaults) and its captured environment.
#[derive(Clone, Debug)]
pub struct CodeClosure {
    pub refs: Vec<Value>,
    pub env: Option<EnvId>,
}

/// An environment frame: the values it binds and its parent frame.
#[derive(Clone, Debug)]
pub struct CodeEnv {
    pub vars: Vec<(Symbol, Value)>,
    pub parent: Option<EnvId>,
}

/// One generation's slabs: closures, pairs, vectors, maps (each map as the keys
/// and values of its entries) and environment frames, each addressed by a handle
/// tagged with this generation.
#[derive(Clone, Debug)]
pub struct CodeSlabs {
    pub closures: Vec<CodeClosure>,
    pub pairs: Vec<(Value, Value)>,
    pub vectors: Vec<Vec<Value>>,
    pub maps: Vec<Vec<Value>>,
    pub envs: Vec<CodeEnv>,
}

impl CodeSlabs {
    pub open spec fn spec_is_empty(&self) -> bool {
        &&& self.closures@.len() == 0
        &&& self.pairs@.len() == 0
        &&& self.vectors@.len() == 0
        &&& self.maps@.len() == 0
        &&& self.envs@.len() == 0
    }

    /// A fresh, empty generation.
    pub fn new() -> (r: CodeSlabs)
        ensures
            r.spec_is_empty(),
    {
        CodeSlabs {
            closures: Vec::new(),
            pairs: Vec::new(),
            vectors: Vec::new(),
            maps: Vec::new(),
            envs: Vec::new(),
        }
    }

    /// Does this generation hold nothing?
    pub fn is_empty(&self) -> (r: bool)
        ensures
            r == self.spec_is_empty(),
    {
        self.closures.len() == 0 && self.pairs.len() == 0 && self.vectors.len() == 0
            && self.maps.len() == 0 && self.envs.len() == 0
    }
}

/// The key of a RUNTIME form position: code generation and slab index.
pub open spec fn spec_rt_pos_key(idx: nat, code_gen: nat) -> u64 {
    ((code_gen * 0x1_0000_0000 + idx) % 0x1_0000_0000_0000_0000) as u64
}

/// The key of a RUNTIME form position.
pub fn rt_pos_key(idx: usize, code_gen: usize) -> (r: u64)
    requires
        idx < 0x1_0000_0000,
        code_gen < 2,
    ensures
        r == spec_rt_pos_key(idx as nat, code_gen as nat),
{
    (code_gen as u64) * 0x1_0000_0000u64 + (idx as u64)
}

/// A runtime's mutable, shared code region: the two code generations, the global
/// bindings, the facts recorded about names, and the collector's drain state.
pub struct RuntimeCode {
    /// Code generation 0.
    pub gen0: CodeSlabs,
    /// Code generation 1.
    pub gen1: CodeSlabs,
    /// Index (0 or 1) of the generation new code lands in.
    pub current_gen: usize,
    /// A tag distinguishing this runtime instance.
    pub runtime_tag: u64,
    /// Per generation, how many shared-closure messages are in flight against it.
    pub gen_inflight: [usize; 2],
    /// Bumped whenever a generation's slab is replaced.
    pub gen_version: u64,
    /// The global bindings.
    pub globals: HashMap<Symbol, Value>,
    /// The value of `version` at each name's most recent `def`.
    pub global_generations: HashMap<Symbol, u64>,
    /// Reserved (language-shipped) names.
    pub sealed: HashSet<Symbol>,
    /// Module-private globals.
    pub private: HashSet<Symbol>,
    /// Stability metadata per global.
    pub meta: HashMap<Symbol, NameMeta>,
    /// Bumped on every binding change.
    pub version: u64,
    /// Bumped when compiled code must be thrown away.
    pub code_epoch: u64,
    /// Where each global was defined.
    pub def_sites: HashMap<Symbol, SourceLoc>,
    /// Source positions of RUNTIME list forms, keyed by generation and index.
    pub positions: HashMap<u64, FormPos>,
    /// Shared compiled closures: handle bits to (free epoch at compile, closure).
    pub shared_closures: HashMap<u64, (u64, Arc<CompiledClosure>)>,
    /// User-declared signatures.
    pub declared_sigs: HashMap<Symbol, Value>,
    /// Is a cooperative generation drain armed?
    pub drain_active: bool,
    /// The generation being drained.
    pub drain_gen: usize,
    /// The strictly monotonic drain epoch.
    pub drain_epoch: u64,
    /// Distinct processes that reported clean for the current drain epoch.
    pub drain_acked: u64,
    /// Set when a closure is minted into the current generation.
    pub rt_dirty: bool,
    /// Each process's pid to the epoch it last reported clean for.
    pub drain_acks: HashMap<u64, u64>,
    /// Bumped each time a generation is freed.
    pub free_epoch: u64,
    /// The single-flight aging gate.
    pub aging: bool,
    /// How many times this runtime has aged.
    pub aged_count: u64,
}

impl RuntimeCode {
    /// The region's structural invariant: the generation indices address one of the
    /// two slots.
    pub open spec fn wf(&self) -> bool {
        &&& self.current_gen < 2
        &&& self.drain_gen < 2
    }

    /// Generation `g`'s slabs.
    pub open spec fn spec_gen(&self, g: int) -> CodeSlabs {
        if g == 0 {
            self.gen0
        } else {
            self.gen1
        }
    }

    /// The number of distinct processes whose recorded ack is the current epoch.
    pub open spec fn acks_for_epoch(&self) -> nat {
        self.drain_acks@.dom().filter(|p: u64| self.drain_acks@[p] == self.drain_epoch).len()
    }

    /// A fresh runtime with empty generations and an empty globals table.
    pub fn new(runtime_tag: u64) -> (r: RuntimeCode)
        ensures
            r.wf(),
            r.current_gen == 0,
            r.gen0.spec_is_empty(),
            r.gen1.spec_is_empty(),
            r.globals@ == Map::<Symbol, Value>::empty(),
            r.private@ == Set::<Symbol>::empty(),
            r.sealed@ == Set::<Symbol>::empty(),
            r.global_generations@ == Map::<Symbol, u64>::empty(),
            r.meta@ == Map::<Symbol, NameMeta>::empty(),
            r.def_sites@ == Map::<Symbol, SourceLoc>::empty(),
            r.positions@ == Map::<u64, FormPos>::empty(),
            r.drain_acks@ == Map::<u64, u64>::empty(),
            !r.drain_active,
            !r.aging,
            r.rt_dirty,
            r.drain_epoch == 0,
            r.drain_acked == 0,
            r.free_epoch == 0,
            r.aged_count == 0,
            r.version == 0,
            r.gen_inflight == [0usize, 0usize],
            r.runtime_tag == runtime_tag,
    {
        RuntimeCode {
            gen0: CodeSlabs::new(),
            gen1: CodeSlabs::new(),
            current_gen: 0,
            runtime_tag,
            gen_inflight: [0, 0],
            gen_version: 0,
            globals: HashMap::new(),
            global_generations: HashMap::new(),
            sealed: HashSet::new(),
            private: HashSet::new(),
            meta: HashMap::new(),
            version: 0,
            code_epoch: 0,
            def_sites: HashMap::new(),
            positions: HashMap::new(),
            shared_closures: HashMap::new(),
            declared_sigs: HashMap::new(),
            drain_active: false,
            drain_gen: 0,
            drain_epoch: 0,
            drain_acked: 0,
            rt_dirty: true,
            drain_acks: HashMap::new(),
            free_epoch: 0,
            aging: false,
            aged_count: 0,
        }
    }

    /// The current code generation's index (0 or 1).
    pub fn cur_gen(&self) -> (r: usize)
        ensures
            r == self.current_gen,
    {
        self.current_gen
    }

    /// Generation `g`'s slabs.
    pub fn gen_slabs(&self, g: usize) -> (r: &CodeSlabs)
        requires
            g < 2,
        ensures
            *r == self.spec_gen(g as int),
    {
        if g == 0 {
            &self.gen0
        } else {
            &self.gen1
        }
    }

    /// Is `sym` recorded module-private?
    pub fn is_private_recorded(&self, sym: Symbol) -> (r: bool)
        ensures
            r == self.private@.contains(sym),
    {
        broadcast use vstd::std_specs::hash::group_hash_axioms;

        self.private.contains(&sym)
    }

    /// Record `sym` as module-private (idempotent).
    pub fn mark_private(&mut self, sym: Symbol)
        ensures
            final(self).private@ == old(self).private@.insert(sym),
            *final(self) == (RuntimeCode { private: final(self).private, ..*old(self) }),
    {
        broadcast use vstd::std_specs::hash::group_hash_axioms;

        self.private.insert(sym);
    }

    /// Clear any private mark on `sym`.
    pub fn unmark_private(&mut self, sym: Symbol)
        ensures
            final(self).private@ == old(self).private@.remove(sym),
            *final(self) == (RuntimeCode { private: final(self).private, ..*old(self) }),
    {
        broadcast use vstd::std_specs::hash::group_hash_axioms;

        self.private.remove(&sym);
    }

    /// Replace the whole private set.
    pub fn restore_private(&mut self, names: Vec<Symbol>)
        ensures
            final(self).private@ == names@.to_set(),
            *final(self) == (RuntimeCode { private: final(self).private, ..*old(self) }),
    {
        broadcast use vstd::std_specs::hash::group_hash_axioms;

        let mut set: HashSet<Symbol> = HashSet::new();
        let mut i: usize = 0;
        while i < names.len()
            invariant
                i <= names@.len(),
                set@ == names@.take(i as int).to_set(),
            decreases names@.len() - i,
        {
            proof {
                assert(names@.take(i as int + 1) == names@.take(i as int).push(names@[i as int]));
                lemma_take_push_to_set(names@, i as int);
            }
            set.insert(names[i]);
            i = i + 1;
        }
        proof {
            assert(names@.take(names@.len() as int) == names@);
        }
        self.private = set;
    }

    /// Record `sym`'s stability metadata, replacing whatever was there.
    pub fn set_meta(&mut self, sym: Symbol, meta: NameMeta)
        ensures
            final(self).meta@ == old(self).meta@.insert(sym, meta),
            *final(self) == (RuntimeCode { meta: final(self).meta, ..*old(self) }),
    {
        broadcast use vstd::std_specs::hash::group_hash_axioms;

        self.meta.insert(sym, meta);
    }

    /// Drop `sym`'s metadata.
    pub fn clear_meta(&mut self, sym: Symbol)
        ensures
            final(self).meta@ == old(self).meta@.remove(sym),
            *final(self) == (RuntimeCode { meta: final(self).meta, ..*old(self) }),
    {
        broadcast use vstd::std_specs::hash::group_hash_axioms;

        self.meta.remove(&sym);
    }

    /// `sym`'s recorded metadata, if any.
    pub fn meta_of(&self, sym: Symbol) -> (r: Option<NameMeta>)
        ensures
            r is Some <==> self.meta@.contains_key(sym),
            r matches Some(m) ==> m == self.meta@[sym],
    {
        broadcast use vstd::std_specs::hash::group_hash_axioms;

        match self.meta.get(&sym) {
            Some(m) => Some(m.duplicate()),
            None => None,
        }
    }
}


/// The map a list of `(key, value)` pairs builds when inserted in order: a later
/// pair for the same key wins.
pub open spec fn pairs_map<K, V>(pairs: Seq<(K, V)>) -> Map<K, V>
    decreases pairs.len(),
{
    if pairs.len() == 0 {
        Map::empty()
    } else {
        pairs_map(pairs.drop_last()).insert(pairs.last().0, pairs.last().1)
    }
}

/// A value that is code: a closure, a macro or a builtin.
pub open spec fn is_code_value(v: Value) -> bool {
    v is Fn || v is Macro || v is Native
}

/// The names a seeding reserves: every name bound (somewhere in `bindings`) to code.
pub open spec fn sealed_names(bindings: Seq<(Symbol, Value)>) -> Set<Symbol> {
    Set::new(
        |s: Symbol|
            exists|j: int| 0 <= j < bindings.len() && #[trigger] bindings[j].0 == s && is_code_value(bindings[j].1),
    )
}

impl RuntimeCode {
    /// A fresh runtime whose global table holds the prelude bindings. Every name
    /// bound to code (a closure, macro or builtin) is reserved against redefinition;
    /// data globals stay rebindable. The prelude's private names and stability
    /// metadata are carried in as given. The code generations start empty.
    pub fn seeded(
        bindings: &[(Symbol, Value)],
        prelude_private: &[Symbol],
        prelude_meta: &[(Symbol, NameMeta)],
        runtime_tag: u64,
    ) -> (r: RuntimeCode)
        ensures
            r.wf(),
            r.current_gen == 0,
            r.gen0.spec_is_empty(),
            r.gen1.spec_is_empty(),
            r.globals@ == pairs_map(bindings@),
            r.sealed@ == sealed_names(bindings@),
            r.private@ == prelude_private@.to_set(),
            r.meta@ == pairs_map(prelude_meta@),
            r.global_generations@ == Map::<Symbol, u64>::empty(),
            r.def_sites@ == Map::<Symbol, SourceLoc>::empty(),
            r.positions@ == Map::<u64, FormPos>::empty(),
            r.drain_acks@ == Map::<u64, u64>::empty(),
            !r.drain_active,
            !r.aging,
            r.rt_dirty,
            r.drain_epoch == 0,
            r.drain_acked == 0,
            r.free_epoch == 0,
            r.aged_count == 0,
            r.version == 0,
            r.gen_inflight == [0usize, 0usize],
            r.runtime_tag == runtime_tag,
    {
        broadcast use vstd::std_specs::hash::group_hash_axioms;

        let mut r = RuntimeCode::new(runtime_tag);
        let ghost r0 = r;
        proof {
            assert(bindings@.take(0) == Seq::<(Symbol, Value)>::empty());
            assert(sealed_names(bindings@.take(0)) == Set::<Symbol>::empty());
        }
        let mut i: usize = 0;
        while i < bindings.len()
            invariant
                i <= bindings@.len(),
                r == (RuntimeCode { globals: r.globals, sealed: r.sealed, ..r0 }),
                r.globals@ == pairs_map(bindings@.take(i as int)),
                r.sealed@ == sealed_names(bindings@.take(i as int)),
            decreases bindings@.len() - i,
        {
            let (s, v) = bindings[i];
            proof {
                let pre = bindings@.take(i as int);
                let next = bindings@.take(i as int + 1);
                assert(next.drop_last() == pre);
                assert(next.last() == bindings@[i as int]);
            }
            r.globals.insert(s, v);
            if matches!(v, Value::Fn(_)) || matches!(v, Value::Macro(_)) || matches!(v, Value::Native(_)) {
                r.sealed.insert(s);
            }
            proof {
                let pre = bindings@.take(i as int);
                let next = bindings@.take(i as int + 1);
                assert forall|x: Symbol| r.sealed@.contains(x) <==> sealed_names(next).contains(x) by {
                    if sealed_names(pre).contains(x) {
                        let j = choose|j: int| 0 <= j < pre.len() && #[trigger] pre[j].0 == x && is_code_value(pre[j].1);
                        assert(next[j] == pre[j]);
                    }
                    if sealed_names(next).contains(x) {
                        let j = choose|j: int| 0 <= j < next.len() && #[trigger] next[j].0 == x && is_code_value(next[j].1);
                        if j < pre.len() {
                            assert(pre[j] == next[j]);
                        }
                    }
                    if is_code_value(v) && x == s {
                        assert(next[i as int].0 == x);
                    }
                }
                assert(r.sealed@ == sealed_names(next));
            }
            i = i + 1;
        }
        proof {
            assert(bindings@.take(bindings@.len() as int) == bindings@);
        }
        let ghost r1 = r;
        proof {
            assert(prelude_private@.take(0) == Seq::<Symbol>::empty());
        }
        let mut k: usize = 0;
        while k < prelude_private.len()
            invariant
                k <= prelude_private@.len(),
                r == (RuntimeCode { private: r.private, ..r1 }),
                r.private@ == prelude_private@.take(k as int).to_set(),
            decreases prelude_private@.len() - k,
        {
            proof {
                lemma_take_push_to_set(prelude_private@, k as int);
            }
            r.private.insert(prelude_private[k]);
            k = k + 1;
        }
        proof {
            assert(prelude_private@.take(prelude_private@.len() as int) == prelude_private@);
        }
        let ghost r2 = r;
        proof {
            assert(prelude_meta@.take(0) == Seq::<(Symbol, NameMeta)>::empty());
        }
        let mut m: usize = 0;
        while m < prelude_meta.len()
            invariant
                m <= prelude_meta@.len(),
                r == (RuntimeCode { meta: r.meta, ..r2 }),
                r.meta@ == pairs_map(prelude_meta@.take(m as int)),
            decreases prelude_meta@.len() - m,
        {
            proof {
                let next = prelude_meta@.take(m as int + 1);
                assert(next.drop_last() == prelude_meta@.take(m as int));
                assert(next.last() == prelude_meta@[m as int]);
            }
            let entry = &prelude_meta[m];
            r.meta.insert(entry.0, entry.1.duplicate());
            m = m + 1;
        }
        proof {
            assert(prelude_meta@.take(prelude_meta@.len() as int) == prelude_meta@);
        }
        r
    }
}


impl RuntimeCode {
    /// Is `sym` reserved against redefinition? A dynamic variable never is.
    pub fn is_sealed(&self, vars: &crate::symbols::DynamicVars, sym: Symbol) -> (r: bool)
        ensures
            r == (!vars@.contains(sym) && self.sealed@.contains(sym)),
    {
        broadcast use vstd::std_specs::hash::group_hash_axioms;

        !crate::symbols::is_dynamic(vars, sym) && self.sealed.contains(&sym)
    }

    /// Reserves `sym` against redefinition.
    pub fn seal(&mut self, sym: Symbol)
        ensures
            final(self).sealed@ == old(self).sealed@.insert(sym),
            *final(self) == (RuntimeCode { sealed: final(self).sealed, ..*old(self) }),
    {
        broadcast use vstd::std_specs::hash::group_hash_axioms;

        self.sealed.insert(sym);
    }

    /// The recorded position of RUNTIME form `idx` of generation `code_gen`.
    pub fn position_of(&self, idx: usize, code_gen: usize) -> (r: Option<FormPos>)
        requires
            idx < 0x1_0000_0000,
            code_gen < 2,
        ensures
            r == (if self.positions@.contains_key(spec_rt_pos_key(idx as nat, code_gen as nat)) {
                Some(self.positions@[spec_rt_pos_key(idx as nat, code_gen as nat)])
            } else {
                None
            }),
    {
        broadcast use vstd::std_specs::hash::group_hash_axioms;

        match self.positions.get(&rt_pos_key(idx, code_gen)) {
            Some(e) => Some(FormPos { pos: e.pos, file: clone_opt_string(&e.file), synthetic: e.synthetic }),
            None => None,
        }
    }

    /// Records the position of RUNTIME form `idx` of generation `code_gen`.
    pub fn set_position(&mut self, idx: usize, code_gen: usize, entry: FormPos)
        requires
            idx < 0x1_0000_0000,
            code_gen < 2,
        ensures
            final(self).positions@ == old(self).positions@.insert(
                spec_rt_pos_key(idx as nat, code_gen as nat),
                entry,
            ),
            *final(self) == (RuntimeCode { positions: final(self).positions, ..*old(self) }),
    {
        broadcast use vstd::std_specs::hash::group_hash_axioms;

        self.positions.insert(rt_pos_key(idx, code_gen), entry);
    }
}
} // verus!
