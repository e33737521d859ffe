//! The value model: `Value`, the packed handles that address the heap regions,
//! the runtime type tags, and the arity rules of closures and builtins.

use vstd::prelude::*;

verus! {

/// An interned symbol name.
pub type Symbol = u32;

pub const REGION_SHIFT: u32 = 62;
pub const AGE_SHIFT: u32 = 61;
pub const GEN_SHIFT: u32 = 32;
/// Low 32 bits: the slab index.
pub const INDEX_MASK: u64 = 0xFFFF_FFFFu64;
/// 29 bits between the index and the age bit: the generation stamp.
pub const GEN_MASK: u64 = 0x1FFF_FFFFu64;
/// The age bit, pre-shifted.
pub const AGE_OLD: u64 = 0x2000_0000_0000_0000u64;
/// The bits the generation stamp occupies, pre-shifted.
pub const STAMP_BITS: u64 = 0x1FFF_FFFF_0000_0000u64;
pub const LOCAL: u8 = 0;
pub const PRELUDE: u8 = 1;
pub const RUNTIME: u8 = 2;

/// The region of a packed handle word.
pub open spec fn spec_region(bits: u64) -> u8 {
    (bits >> 62u64) as u8
}

/// The slab index of a packed handle word.
pub open spec fn spec_index(bits: u64) -> nat {
    (bits & 0xFFFF_FFFFu64) as nat
}

/// The generation stamp of a packed handle word.
pub open spec fn spec_stamp(bits: u64) -> u32 {
    ((bits >> 32u64) & 0x1FFF_FFFFu64) as u32
}

/// The identity of a handle: region, age and index, with the stamp cleared.
pub open spec fn spec_canonical(bits: u64) -> u64 {
    bits & !0x1FFF_FFFF_0000_0000u64
}

pub open spec fn spec_local_gen(index: nat, gen: u32) -> u64 {
    (index as u64) | (((gen as u64) & 0x1FFF_FFFFu64) << 32u64)
}

pub open spec fn spec_in_region(index: nat, region: u8) -> u64 {
    (index as u64) | ((region as u64) << 62u64)
}

/// A RUNTIME handle in code generation `g` carries the generation in its stamp.
pub open spec fn spec_runtime_gen(index: nat, g: nat) -> u64 {
    (index as u64) | (((g as u64) & 0x1FFF_FFFFu64) << 32u64) | (2u64 << 62u64)
}

proof fn lemma_local_gen_fields(index: u64, gen: u64)
    requires
        index < 0x1_0000_0000u64,
        gen < 0x1_0000_0000u64,
    ensures
        ((index | ((gen & 0x1FFF_FFFFu64) << 32u64)) >> 62u64) == 0,
        ((index | ((gen & 0x1FFF_FFFFu64) << 32u64)) & 0xFFFF_FFFFu64) == index,
        (((index | ((gen & 0x1FFF_FFFFu64) << 32u64)) >> 32u64) & 0x1FFF_FFFFu64) == gen
            & 0x1FFF_FFFFu64,
        (((index | ((gen & 0x1FFF_FFFFu64) << 32u64)) >> 61u64) & 1) == 0,
{
    assert(((index | ((gen & 0x1FFF_FFFFu64) << 32u64)) >> 62u64) == 0) by (bit_vector)
        requires
            index < 0x1_0000_0000u64,
    ;
    assert(((index | ((gen & 0x1FFF_FFFFu64) << 32u64)) & 0xFFFF_FFFFu64) == index)
        by (bit_vector)
        requires
            index < 0x1_0000_0000u64,
    ;
    assert((((index | ((gen & 0x1FFF_FFFFu64) << 32u64)) >> 32u64) & 0x1FFF_FFFFu64) == gen
        & 0x1FFF_FFFFu64) by (bit_vector)
        requires
            index < 0x1_0000_0000u64,
    ;
    assert((((index | ((gen & 0x1FFF_FFFFu64) << 32u64)) >> 61u64) & 1) == 0) by (bit_vector)
        requires
            index < 0x1_0000_0000u64,
    ;
}

proof fn lemma_region_fields(index: u64, region: u64)
    requires
        index < 0x1_0000_0000u64,
        region < 4,
    ensures
        ((index | (region << 62u64)) >> 62u64) == region,
        ((index | (region << 62u64)) & 0xFFFF_FFFFu64) == index,
        (((index | (region << 62u64)) >> 32u64) & 0x1FFF_FFFFu64) == 0,
{
    assert(((index | (region << 62u64)) >> 62u64) == region) by (bit_vector)
        requires
            index < 0x1_0000_0000u64,
            region < 4,
    ;
    assert(((index | (region << 62u64)) & 0xFFFF_FFFFu64) == index) by (bit_vector)
        requires
            index < 0x1_0000_0000u64,
    ;
    assert((((index | (region << 62u64)) >> 32u64) & 0x1FFF_FFFFu64) == 0) by (bit_vector)
        requires
            index < 0x1_0000_0000u64,
            region < 4,
    ;
}

proof fn lemma_runtime_gen_fields(index: u64, g: u64)
    requires
        index < 0x1_0000_0000u64,
        g < 0x2000_0000u64,
    ensures
        ((index | ((g & 0x1FFF_FFFFu64) << 32u64) | (2u64 << 62u64)) >> 62u64) == 2,
        ((index | ((g & 0x1FFF_FFFFu64) << 32u64) | (2u64 << 62u64)) & 0xFFFF_FFFFu64) == index,
        (((index | ((g & 0x1FFF_FFFFu64) << 32u64) | (2u64 << 62u64)) >> 32u64)
            & 0x1FFF_FFFFu64) == g,
{
    assert(((index | ((g & 0x1FFF_FFFFu64) << 32u64) | (2u64 << 62u64)) >> 62u64) == 2)
        by (bit_vector)
        requires
            index < 0x1_0000_0000u64,
    ;
    assert(((index | ((g & 0x1FFF_FFFFu64) << 32u64) | (2u64 << 62u64)) & 0xFFFF_FFFFu64)
        == index) by (bit_vector)
        requires
            index < 0x1_0000_0000u64,
    ;
    assert((((index | ((g & 0x1FFF_FFFFu64) << 32u64) | (2u64 << 62u64)) >> 32u64)
        & 0x1FFF_FFFFu64) == g) by (bit_vector)
        requires
            index < 0x1_0000_0000u64,
            g < 0x2000_0000u64,
    ;
}

/// A packed heap handle: region tag, age bit, generation stamp and slab index
/// in one word. Every heap object kind is addressed through one of these.
#[derive(Clone, Copy, Debug, PartialEq, Eq, Structural)]
pub struct Handle(pub u64);

pub type PairId = Handle;
pub type VecId = Handle;
pub type StrId = Handle;
pub type BigIntId = Handle;
pub type TransientId = Handle;
pub type RopeId = Handle;
pub type ClosureId = Handle;
pub type NativeId = Handle;
pub type MapId = Handle;
pub type EnvId = Handle;

/// The runtime's global scope sentinel (both region bits set, an otherwise
/// undefined region).
pub fn global_env() -> (r: Handle)
    ensures
        r.0 == 0xFFFF_FFFF_FFFF_FFFFu64,
{
    Handle(0xFFFF_FFFF_FFFF_FFFFu64)
}

impl Handle {
    pub open spec fn spec_region(self) -> u8 {
        spec_region(self.0)
    }

    pub open spec fn spec_index(self) -> nat {
        spec_index(self.0)
    }

    /// A handle's index fits in its 32-bit field.
    pub proof fn lemma_index_bound(self)
        ensures
            self.spec_index() < 0x1_0000_0000,
    {
        let b = self.0;
        assert((b & 0xFFFF_FFFFu64) <= 0xFFFF_FFFFu64) by (bit_vector);
    }

    pub open spec fn spec_stamp(self) -> u32 {
        spec_stamp(self.0)
    }

    /// A LOCAL handle stamped with generation `gen` (the allocating heap's epoch).
    pub fn local_gen(index: usize, gen: u32) -> (r: Handle)
        requires
            index < 0x1_0000_0000,
        ensures
            r.0 == spec_local_gen(index as nat, gen),
            r.spec_region() == LOCAL,
            r.spec_index() == index,
            r.spec_stamp() == gen & 0x1FFF_FFFFu32,
    {
        proof {
            lemma_local_gen_fields(index as u64, gen as u64);
            assert((gen as u64 & 0x1FFF_FFFFu64) as u32 == gen & 0x1FFF_FFFFu32) by (bit_vector);
        }
        Handle((index as u64) | (((gen as u64) & GEN_MASK) << 32u64))
    }

    /// A LOCAL handle with no generation stamp.
    pub fn local(index: usize) -> (r: Handle)
        requires
            index < 0x1_0000_0000,
        ensures
            r.0 == spec_local_gen(index as nat, 0),
            r.spec_region() == LOCAL,
            r.spec_index() == index,
            r.spec_stamp() == 0,
    {
        proof {
            assert(0u32 & 0x1FFF_FFFFu32 == 0) by (bit_vector);
        }
        Handle::local_gen(index, 0)
    }

    /// A handle into the immutable shared prelude region.
    pub fn prelude(index: usize) -> (r: Handle)
        requires
            index < 0x1_0000_0000,
        ensures
            r.0 == spec_in_region(index as nat, PRELUDE),
            r.spec_region() == PRELUDE,
            r.spec_index() == index,
            r.spec_stamp() == 0,
    {
        proof {
            lemma_region_fields(index as u64, 1);
        }
        Handle((index as u64) | (1u64 << 62u64))
    }

    /// A handle into the runtime's shared code region, tagged with code generation `g`.
    pub fn runtime_gen(index: usize, g: usize) -> (r: Handle)
        requires
            index < 0x1_0000_0000,
            g < 2,
        ensures
            r.0 == spec_runtime_gen(index as nat, g as nat),
            r.spec_region() == RUNTIME,
            r.spec_index() == index,
            r.spec_stamp() == g,
    {
        proof {
            lemma_runtime_gen_fields(index as u64, g as u64);
        }
        Handle((index as u64) | (((g as u64) & GEN_MASK) << 32u64) | (2u64 << 62u64))
    }

    /// Which region this handle addresses.
    pub fn region(self) -> (r: u8)
        ensures
            r == self.spec_region(),
    {
        (self.0 >> 62u64) as u8
    }

    /// The slab index, with the region tag and generation masked off.
    pub fn index(self) -> (r: usize)
        ensures
            r == self.spec_index(),
            r < 0x1_0000_0000,
    {
        let b = self.0;
        proof {
            assert((b & 0xFFFF_FFFFu64) <= 0xFFFF_FFFFu64) by (bit_vector);
        }
        (b & INDEX_MASK) as usize
    }

    /// The generation stamp (the heap epoch a LOCAL handle was minted in; the code
    /// generation of a RUNTIME handle).
    pub fn generation(self) -> (r: u32)
        ensures
            r == self.spec_stamp(),
    {
        ((self.0 >> 32u64) & GEN_MASK) as u32
    }

    /// The RUNTIME code generation this handle lives in.
    pub fn code_gen(self) -> (r: usize)
        ensures
            r == self.spec_stamp(),
    {
        self.generation() as usize
    }

    /// Whether a LOCAL handle addresses the old (tenured) generation.
    pub fn is_old(self) -> (r: bool)
        ensures
            r == (((self.0 >> 61u64) & 1) == 1),
    {
        (self.0 >> 61u64) & 1 == 1
    }

    /// Region, age and index with the generation stamp cleared: the identity two
    /// handles to the same object share across epochs.
    pub fn canonical(self) -> (r: u64)
        ensures
            r == spec_canonical(self.0),
    {
        self.0 & !STAMP_BITS
    }
}

/// A Brood value. `Copy`: immediates inline, heap objects as handles. A float is
/// carried as its IEEE-754 bit pattern.
#[derive(Clone, Copy, Debug, PartialEq, Eq, Structural)]
pub enum Value {
    Nil,
    Bool(bool),
    Int(i64),
    /// An arbitrary-precision integer outside the `i64` range.
    BigInt(BigIntId),
    /// A float, as the bits of its `f64`.
    Float(u64),
    Sym(Symbol),
    Keyword(Symbol),
    Str(StrId),
    /// A text rope.
    Rope(RopeId),
    /// A cons cell.
    Pair(PairId),
    Vector(VecId),
    /// An immutable map.
    Mapping(MapId),
    /// A closure.
    Fn(ClosureId),
    /// A macro: closure storage, invoked on unevaluated forms.
    Macro(ClosureId),
    /// A builtin implemented in Rust.
    Native(NativeId),
    /// A unique, opaque reference token.
    Ref(u64),
    /// A process identifier carrying its node.
    Pid { node: Symbol, id: u64 },
    /// A TCP socket id.
    Socket(u64),
    /// A transient map handle.
    Transient(TransientId),
}

/// The runtime type tags: the discriminant of [`Value`] made first-class.
#[derive(Clone, Copy, PartialEq, Eq, Debug, Structural)]
pub enum Tag {
    Nil,
    Bool,
    Int,
    Float,
    Sym,
    Keyword,
    Str,
    Pair,
    Vector,
    Fn,
    Macro,
    Native,
    Mapping,
    Ref,
    Pid,
    Rope,
    Socket,
    Transient,
}

/// The canonical spelling of each tag.
pub open spec fn spec_tag_name(t: Tag) -> Seq<char> {
    match t {
        Tag::Nil => seq!['n', 'i', 'l'],
        Tag::Bool => seq!['b', 'o', 'o', 'l'],
        Tag::Int => seq!['i', 'n', 't'],
        Tag::Float => seq!['f', 'l', 'o', 'a', 't'],
        Tag::Sym => seq!['s', 'y', 'm', 'b', 'o', 'l'],
        Tag::Keyword => seq!['k', 'e', 'y', 'w', 'o', 'r', 'd'],
        Tag::Str => seq!['s', 't', 'r', 'i', 'n', 'g'],
        Tag::Pair => seq!['p', 'a', 'i', 'r'],
        Tag::Vector => seq!['v', 'e', 'c', 't', 'o', 'r'],
        Tag::Fn => seq!['f', 'n'],
        Tag::Macro => seq!['m', 'a', 'c', 'r', 'o'],
        Tag::Native => seq!['n', 'a', 't', 'i', 'v', 'e'],
        Tag::Mapping => seq!['m', 'a', 'p'],
        Tag::Ref => seq!['r', 'e', 'f'],
        Tag::Pid => seq!['p', 'i', 'd'],
        Tag::Rope => seq!['r', 'o', 'p', 'e'],
        Tag::Socket => seq!['s', 'o', 'c', 'k', 'e', 't'],
        Tag::Transient => seq!['t', 'r', 'a', 'n', 's', 'i', 'e', 'n', 't'],
    }
}

impl Tag {
    /// The canonical name: the `type-of` keyword spelling and the word used in
    /// type-error messages.
    pub fn name(self) -> (r: &'static str)
        ensures
            r@ == spec_tag_name(self),
    {
        match self {
            Tag::Nil => {
                proof {
                    reveal_strlit("nil");
                }
                "nil"
            },
            Tag::Bool => {
                proof {
                    reveal_strlit("bool");
                }
                "bool"
            },
            Tag::Int => {
                proof {
                    reveal_strlit("int");
                }
                "int"
            },
            Tag::Float => {
                proof {
                    reveal_strlit("float");
                }
                "float"
            },
            Tag::Sym => {
                proof {
                    reveal_strlit("symbol");
                }
                "symbol"
            },
            Tag::Keyword => {
                proof {
                    reveal_strlit("keyword");
                }
                "keyword"
            },
            Tag::Str => {
                proof {
                    reveal_strlit("string");
                }
                "string"
            },
            Tag::Pair => {
                proof {
                    reveal_strlit("pair");
                }
                "pair"
            },
            Tag::Vector => {
                proof {
                    reveal_strlit("vector");
                }
                "vector"
            },
            Tag::Fn => {
                proof {
                    reveal_strlit("fn");
                }
                "fn"
            },
            Tag::Macro => {
                proof {
                    reveal_strlit("macro");
                }
                "macro"
            },
            Tag::Native => {
                proof {
                    reveal_strlit("native");
                }
                "native"
            },
            Tag::Mapping => {
                proof {
                    reveal_strlit("map");
                }
                "map"
            },
            Tag::Ref => {
                proof {
                    reveal_strlit("ref");
                }
                "ref"
            },
            Tag::Pid => {
                proof {
                    reveal_strlit("pid");
                }
                "pid"
            },
            Tag::Rope => {
                proof {
                    reveal_strlit("rope");
                }
                "rope"
            },
            Tag::Socket => {
                proof {
                    reveal_strlit("socket");
                }
                "socket"
            },
            Tag::Transient => {
                proof {
                    reveal_strlit("transient");
                }
                "transient"
            },
        }
    }
}

/// The tag of a value. A big integer is transparently an integer.
pub open spec fn spec_tag(v: Value) -> Tag {
    match v {
        Value::Nil => Tag::Nil,
        Value::Bool(_) => Tag::Bool,
        Value::Int(_) => Tag::Int,
        Value::BigInt(_) => Tag::Int,
        Value::Float(_) => Tag::Float,
        Value::Sym(_) => Tag::Sym,
        Value::Keyword(_) => Tag::Keyword,
        Value::Str(_) => Tag::Str,
        Value::Pair(_) => Tag::Pair,
        Value::Vector(_) => Tag::Vector,
        Value::Fn(_) => Tag::Fn,
        Value::Macro(_) => Tag::Macro,
        Value::Native(_) => Tag::Native,
        Value::Mapping(_) => Tag::Mapping,
        Value::Ref(_) => Tag::Ref,
        Value::Pid { .. } => Tag::Pid,
        Value::Rope(_) => Tag::Rope,
        Value::Socket(_) => Tag::Socket,
        Value::Transient(_) => Tag::Transient,
    }
}

/// The runtime [`Tag`] of `v`.
pub fn tag(v: Value) -> (r: Tag)
    ensures
        r == spec_tag(v),
{
    match v {
        Value::Nil => Tag::Nil,
        Value::Bool(_) => Tag::Bool,
        Value::Int(_) => Tag::Int,
        Value::BigInt(_) => Tag::Int,
        Value::Float(_) => Tag::Float,
        Value::Sym(_) => Tag::Sym,
        Value::Keyword(_) => Tag::Keyword,
        Value::Str(_) => Tag::Str,
        Value::Pair(_) => Tag::Pair,
        Value::Vector(_) => Tag::Vector,
        Value::Fn(_) => Tag::Fn,
        Value::Macro(_) => Tag::Macro,
        Value::Native(_) => Tag::Native,
        Value::Mapping(_) => Tag::Mapping,
        Value::Ref(_) => Tag::Ref,
        Value::Pid { .. } => Tag::Pid,
        Value::Rope(_) => Tag::Rope,
        Value::Socket(_) => Tag::Socket,
        Value::Transient(_) => Tag::Transient,
    }
}

/// The handle a heap-object value carries, if any.
pub open spec fn spec_handle_of(v: Value) -> Option<Handle> {
    match v {
        Value::BigInt(h) => Some(h),
        Value::Str(h) => Some(h),
        Value::Rope(h) => Some(h),
        Value::Pair(h) => Some(h),
        Value::Vector(h) => Some(h),
        Value::Mapping(h) => Some(h),
        Value::Fn(h) => Some(h),
        Value::Macro(h) => Some(h),
        Value::Native(h) => Some(h),
        Value::Transient(h) => Some(h),
        _ => None,
    }
}

/// A value with its handle's generation stamp cleared: two handles to the same
/// object compare equal regardless of the epoch they were minted in.
pub open spec fn spec_canonical_value(v: Value) -> Value {
    match v {
        Value::BigInt(h) => Value::BigInt(Handle(spec_canonical(h.0))),
        Value::Str(h) => Value::Str(Handle(spec_canonical(h.0))),
        Value::Rope(h) => Value::Rope(Handle(spec_canonical(h.0))),
        Value::Pair(h) => Value::Pair(Handle(spec_canonical(h.0))),
        Value::Vector(h) => Value::Vector(Handle(spec_canonical(h.0))),
        Value::Mapping(h) => Value::Mapping(Handle(spec_canonical(h.0))),
        Value::Fn(h) => Value::Fn(Handle(spec_canonical(h.0))),
        Value::Macro(h) => Value::Macro(Handle(spec_canonical(h.0))),
        Value::Native(h) => Value::Native(Handle(spec_canonical(h.0))),
        Value::Transient(h) => Value::Transient(Handle(spec_canonical(h.0))),
        _ => v,
    }
}

/// The canonical form of a value (see [`spec_canonical_value`]).
pub fn canonical_value(v: Value) -> (r: Value)
    ensures
        r == spec_canonical_value(v),
{
    match v {
        Value::BigInt(h) => Value::BigInt(Handle(h.canonical())),
        Value::Str(h) => Value::Str(Handle(h.canonical())),
        Value::Rope(h) => Value::Rope(Handle(h.canonical())),
        Value::Pair(h) => Value::Pair(Handle(h.canonical())),
        Value::Vector(h) => Value::Vector(Handle(h.canonical())),
        Value::Mapping(h) => Value::Mapping(Handle(h.canonical())),
        Value::Fn(h) => Value::Fn(Handle(h.canonical())),
        Value::Macro(h) => Value::Macro(Handle(h.canonical())),
        Value::Native(h) => Value::Native(Handle(h.canonical())),
        Value::Transient(h) => Value::Transient(Handle(h.canonical())),
        _ => v,
    }
}

/// Identity equality of two values: the same immediate, or handles to the same
/// object.
pub fn same_value(a: Value, b: Value) -> (r: bool)
    ensures
        r == (spec_canonical_value(a) == spec_canonical_value(b)),
{
    canonical_value(a) == canonical_value(b)
}

/// How many arguments a primitive accepts. `max: None` is variadic.
#[derive(Clone, Copy, Debug, PartialEq, Eq, Structural)]
pub struct Arity {
    pub min: usize,
    pub max: Option<usize>,
}

impl Arity {
    /// Does this arity admit a call with `n` arguments?
    pub open spec fn spec_accepts(self, n: usize) -> bool {
        n >= self.min && match self.max {
            Some(m) => n <= m,
            None => true,
        }
    }

    /// Exactly `n` arguments.
    pub fn exact(n: usize) -> (r: Arity)
        ensures
            r == (Arity { min: n, max: Some(n) }),
    {
        Arity { min: n, max: Some(n) }
    }

    /// `n` or more (variadic tail).
    pub fn at_least(n: usize) -> (r: Arity)
        ensures
            r == (Arity { min: n, max: None }),
    {
        Arity { min: n, max: None }
    }

    /// Between `min` and `max` inclusive.
    pub fn range(min: usize, max: usize) -> (r: Arity)
        ensures
            r == (Arity { min: min, max: Some(max) }),
    {
        Arity { min, max: Some(max) }
    }

    /// Any number of arguments.
    pub fn any() -> (r: Arity)
        ensures
            r == (Arity { min: 0, max: None }),
    {
        Arity { min: 0, max: None }
    }

    /// Does this arity admit a call with `n` arguments?
    pub fn accepts(self, n: usize) -> (r: bool)
        ensures
            r == self.spec_accepts(n),
    {
        n >= self.min && match self.max {
            Some(m) => n <= m,
            None => true,
        }
    }
}

/// A resolved thin-wrapper redirect for a [`ClosureArm`]: the inner call's head and,
/// for each of its arguments, the index of the forwarded parameter.
#[derive(Clone, Debug)]
pub struct Passthrough {
    pub head: Value,
    pub map: Vec<usize>,
}

/// One arity clause of a [`Closure`]: a parameter list plus the body run when the
/// call's argument count selects this arm.
#[derive(Clone, Debug)]
pub struct ClosureArm {
    pub params: Vec<Symbol>,
    pub optionals: Vec<(Symbol, Value)>,
    pub rest: Option<Symbol>,
    pub body: Vec<Value>,
    /// The thin-wrapper analysis, when this arm is a pure pass-through.
    pub passthrough: Option<Passthrough>,
}

impl ClosureArm {
    /// The counts of an arm's parameter lists fit together in a `usize`.
    pub open spec fn wf(&self) -> bool {
        self.params@.len() + self.optionals@.len() <= usize::MAX
    }

    pub open spec fn spec_max_arity(&self) -> Option<usize> {
        if self.rest is Some {
            None
        } else {
            Some((self.params@.len() + self.optionals@.len()) as usize)
        }
    }

    pub open spec fn spec_accepts(&self, argc: usize) -> bool {
        argc >= self.params@.len() && match self.spec_max_arity() {
            Some(m) => argc <= m,
            None => true,
        }
    }

    /// Smallest argument count this arm accepts.
    pub fn min_arity(&self) -> (r: usize)
        ensures
            r == self.params@.len(),
    {
        self.params.len()
    }

    /// Largest argument count this arm accepts (`None` = unbounded, has `&` rest).
    pub fn max_arity(&self) -> (r: Option<usize>)
        requires
            self.wf(),
        ensures
            r == self.spec_max_arity(),
    {
        if self.rest.is_some() {
            None
        } else {
            Some(self.params.len() + self.optionals.len())
        }
    }

    /// Does this arm accept a call of `argc` arguments?
    pub fn accepts(&self, argc: usize) -> (r: bool)
        requires
            self.wf(),
        ensures
            r == self.spec_accepts(argc),
    {
        argc >= self.min_arity() && match self.max_arity() {
            Some(m) => argc <= m,
            None => true,
        }
    }
}

/// The ordering key of an arm when several accept a call: a fixed-arity arm beats a
/// variadic one, then more required parameters beat fewer.
pub open spec fn arm_key_less(a: &ClosureArm, b: &ClosureArm) -> bool {
    ((a.rest is Some) && (b.rest is None)) || ((a.rest is Some) == (b.rest is Some)
        && a.params@.len() < b.params@.len())
}

/// A user-defined function: its arity clauses, docstring and captured environment.
#[derive(Clone, Debug)]
pub struct Closure {
    pub name: Option<Symbol>,
    /// Arity clauses, dispatched by argument count.
    pub arms: Vec<ClosureArm>,
    pub doc: Option<String>,
    /// The captured lexical environment; `None` is the global environment.
    pub env: Option<EnvId>,
}

impl Closure {
    /// Every arm's parameter counts fit in a `usize`.
    pub open spec fn wf(&self) -> bool {
        forall|i: int| 0 <= i < self.arms@.len() ==> (#[trigger] self.arms@[i]).wf()
    }

    /// Build a single-arity closure from a flat parameter spec.
    pub fn single(
        name: Option<Symbol>,
        params: Vec<Symbol>,
        optionals: Vec<(Symbol, Value)>,
        rest: Option<Symbol>,
        body: Vec<Value>,
        doc: Option<String>,
        env: Option<EnvId>,
    ) -> (r: Closure)
        ensures
            r.name == name,
            r.arms@.len() == 1,
            r.arms@[0].params@ == params@,
            r.arms@[0].optionals@ == optionals@,
            r.arms@[0].rest == rest,
            r.arms@[0].body@ == body@,
            r.arms@[0].passthrough is None,
            r.doc == doc,
            r.env == env,
    {
        let arm = ClosureArm { params, optionals, rest, body, passthrough: None };
        let mut arms: Vec<ClosureArm> = Vec::new();
        arms.push(arm);
        Closure { name, arms, doc, env }
    }

    /// Select the arm to run for a call of `argc` arguments: among the arms that
    /// accept `argc`, a fixed-arity arm beats a variadic one, then the arm with the
    /// most required parameters wins; of equally good arms the last one is taken.
    /// `None` if no arm accepts `argc`.
    pub fn select_arm(&self, argc: usize) -> (r: Option<&ClosureArm>)
        requires
            self.wf(),
        ensures
            r is None <==> forall|i: int|
                0 <= i < self.arms@.len() ==> !(#[trigger] self.arms@[i]).spec_accepts(argc),
            r matches Some(a) ==> exists|i: int|
                0 <= i < self.arms@.len() && self.arms@[i] == *a && a.spec_accepts(argc) && (
                forall|j: int|
                    0 <= j < self.arms@.len() && (#[trigger] self.arms@[j]).spec_accepts(argc)
                        ==> !arm_key_less(a, &self.arms@[j]) && (j > i ==> arm_key_less(
                        &self.arms@[j],
                        a,
                    ))),
    {
        let mut best: Option<usize> = None;
        let mut i: usize = 0;
        while i < self.arms.len()
            invariant
                self.wf(),
                i <= self.arms@.len(),
                best matches Some(b) ==> b < i && self.arms@[b as int].spec_accepts(argc),
                best is None ==> forall|j: int| 0 <= j < i ==> !(#[trigger] self.arms@[j]).spec_accepts(argc),
                best matches Some(b) ==> forall|j: int|
                    0 <= j < i && (#[trigger] self.arms@[j]).spec_accepts(argc) ==> !arm_key_less(
                        &self.arms@[b as int],
                        &self.arms@[j],
                    ) && (j > b ==> arm_key_less(&self.arms@[j], &self.arms@[b as int])),
            decreases self.arms@.len() - i,
        {
            let a = &self.arms[i];
            if a.accepts(argc) {
                match best {
                    None => {
                        best = Some(i);
                    },
                    Some(b) => {
                        let cur = &self.arms[b];
                        let a_fixed = a.rest.is_none();
                        let c_fixed = cur.rest.is_none();
                        if (a_fixed && !c_fixed) || (a_fixed == c_fixed && a.params.len()
                            >= cur.params.len()) {
                            best = Some(i);
                        }
                    },
                }
            }
            i = i + 1;
        }
        match best {
            Some(b) => Some(&self.arms[b]),
            None => None,
        }
    }
}

/// Canonicalising a value keeps its variant: a keyword stays a keyword, a symbol
/// a symbol, a pair handle a pair handle, and so on.
pub proof fn law_canonical_keeps_variant(v: Value)
    ensures
        ({
        &&& (spec_canonical_value(v) is Nil) == (v is Nil)
        &&& (spec_canonical_value(v) is Bool) == (v is Bool)
        &&& (spec_canonical_value(v) is Int) == (v is Int)
        &&& (spec_canonical_value(v) is BigInt) == (v is BigInt)
        &&& (spec_canonical_value(v) is Float) == (v is Float)
        &&& (spec_canonical_value(v) is Sym) == (v is Sym)
        &&& (spec_canonical_value(v) is Keyword) == (v is Keyword)
        &&& (spec_canonical_value(v) is Str) == (v is Str)
        &&& (spec_canonical_value(v) is Rope) == (v is Rope)
        &&& (spec_canonical_value(v) is Pair) == (v is Pair)
        &&& (spec_canonical_value(v) is Vector) == (v is Vector)
        &&& (spec_canonical_value(v) is Mapping) == (v is Mapping)
        &&& (spec_canonical_value(v) is Fn) == (v is Fn)
        &&& (spec_canonical_value(v) is Macro) == (v is Macro)
        &&& (spec_canonical_value(v) is Native) == (v is Native)
        &&& (spec_canonical_value(v) is Ref) == (v is Ref)
        &&& (spec_canonical_value(v) is Pid) == (v is Pid)
        &&& (spec_canonical_value(v) is Socket) == (v is Socket)
        &&& (spec_canonical_value(v) is Transient) == (v is Transient)
        }),
{
}

/// Values of different variants are never the same key: if two values
/// canonicalise alike, they are of the same variant (so `:s` and `s` differ).
pub proof fn law_distinct_variants_are_distinct_keys(a: Value, b: Value)
    requires
        spec_canonical_value(a) == spec_canonical_value(b),
    ensures
        ({
        &&& (a is Nil) == (b is Nil)
        &&& (a is Bool) == (b is Bool)
        &&& (a is Int) == (b is Int)
        &&& (a is BigInt) == (b is BigInt)
        &&& (a is Float) == (b is Float)
        &&& (a is Sym) == (b is Sym)
        &&& (a is Keyword) == (b is Keyword)
        &&& (a is Str) == (b is Str)
        &&& (a is Rope) == (b is Rope)
        &&& (a is Pair) == (b is Pair)
        &&& (a is Vector) == (b is Vector)
        &&& (a is Mapping) == (b is Mapping)
        &&& (a is Fn) == (b is Fn)
        &&& (a is Macro) == (b is Macro)
        &&& (a is Native) == (b is Native)
        &&& (a is Ref) == (b is Ref)
        &&& (a is Pid) == (b is Pid)
        &&& (a is Socket) == (b is Socket)
        &&& (a is Transient) == (b is Transient)
        }),
{
    law_canonical_keeps_variant(a);
    law_canonical_keeps_variant(b);
}

/// An immediate value (no heap handle) is its own key.
pub proof fn law_canonical_fixes_immediates(v: Value)
    requires
        v is Nil || v is Bool || v is Int || v is Float || v is Sym || v is Keyword || v is Ref || v is Pid || v is Socket,
    ensures
        spec_canonical_value(v) == v,
{
}

/// Each variant carries its own tag; an `Int` and a `BigInt` are both integers.
pub proof fn law_tag_of_each_variant(v: Value)
    ensures
        v is Nil ==> spec_tag(v) == Tag::Nil,
        v is Bool ==> spec_tag(v) == Tag::Bool,
        v is Int ==> spec_tag(v) == Tag::Int,
        v is BigInt ==> spec_tag(v) == Tag::Int,
        v is Float ==> spec_tag(v) == Tag::Float,
        v is Sym ==> spec_tag(v) == Tag::Sym,
        v is Keyword ==> spec_tag(v) == Tag::Keyword,
        v is Str ==> spec_tag(v) == Tag::Str,
        v is Rope ==> spec_tag(v) == Tag::Rope,
        v is Pair ==> spec_tag(v) == Tag::Pair,
        v is Vector ==> spec_tag(v) == Tag::Vector,
        v is Mapping ==> spec_tag(v) == Tag::Mapping,
        v is Fn ==> spec_tag(v) == Tag::Fn,
        v is Macro ==> spec_tag(v) == Tag::Macro,
        v is Native ==> spec_tag(v) == Tag::Native,
        v is Ref ==> spec_tag(v) == Tag::Ref,
        v is Pid ==> spec_tag(v) == Tag::Pid,
        v is Socket ==> spec_tag(v) == Tag::Socket,
        v is Transient ==> spec_tag(v) == Tag::Transient,
{
}

/// Two values share a tag only when they are of the same variant, or both
/// integers.
pub proof fn law_tags_separate_variants(a: Value, b: Value)
    requires
        spec_tag(a) == spec_tag(b),
    ensures
        (a is Int || a is BigInt) && (b is Int || b is BigInt) || ({
        &&& (a is Nil) == (b is Nil)
        &&& (a is Bool) == (b is Bool)
        &&& (a is Int) == (b is Int)
        &&& (a is BigInt) == (b is BigInt)
        &&& (a is Float) == (b is Float)
        &&& (a is Sym) == (b is Sym)
        &&& (a is Keyword) == (b is Keyword)
        &&& (a is Str) == (b is Str)
        &&& (a is Rope) == (b is Rope)
        &&& (a is Pair) == (b is Pair)
        &&& (a is Vector) == (b is Vector)
        &&& (a is Mapping) == (b is Mapping)
        &&& (a is Fn) == (b is Fn)
        &&& (a is Macro) == (b is Macro)
        &&& (a is Native) == (b is Native)
        &&& (a is Ref) == (b is Ref)
        &&& (a is Pid) == (b is Pid)
        &&& (a is Socket) == (b is Socket)
        &&& (a is Transient) == (b is Transient)
        }),
{
    law_tag_of_each_variant(a);
    law_tag_of_each_variant(b);
}

} // verus!
