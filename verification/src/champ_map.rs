//! The CHAMP trie behind map values: 16-way branching nodes with two bitmaps
//! (inline entries and child sub-nodes), collision leaves at full hash depth,
//! and path-copying updates in an append-only node arena, so every map value
//! ever built stays readable.
//!
//! A map's keys are compared by identity (the canonical value: the same
//! immediate, or a handle to the same object) and hashed from that identity.

use vstd::prelude::*;
use smallvec::SmallVec;
use crate::value::{Value, Handle, spec_canonical_value, canonical_value};
use crate::runtime_code::{SymbolHasher, spec_mix};
use crate::champ::{
    spec_slot_at, bit_set, bits_below, popcount, slot_at, slot_mask, rank, MAX_DEPTH, lemma_bit_or,
    lemma_bit_xor, lemma_bit_and_mask, lemma_bit_disjoint, lemma_bit_zero, lemma_bits_below_le,
    lemma_bits_below_mono, lemma_bits_below_injective, lemma_rank_lt_popcount,
    lemma_bits_below_insert, lemma_bits_below_remove, lemma_rank_surjective,
};

verus! {

/// A node's inline entries, kept in a `SmallVec` that Verus sees only through
/// the wrappers below.
#[verifier::external_body]
pub struct EntryVec {
    v: SmallVec<[(Value, Value); 4]>,
}

/// A node's child handles, kept in a `SmallVec` that Verus sees only through
/// the wrappers below.
#[verifier::external_body]
pub struct ChildVec {
    v: SmallVec<[Handle; 4]>,
}

/// The entries an entry vector holds, in order.
pub uninterp spec fn sv_entries(v: EntryVec) -> Seq<(Value, Value)>;

/// The child handles a child vector holds, in order.
pub uninterp spec fn sv_children(v: ChildVec) -> Seq<Handle>;

/// `SmallVec::new`: an empty entry vector.
#[verifier::external_body]
pub(crate) fn entries_new() -> (r: EntryVec)
    ensures
        sv_entries(r) == Seq::<(Value, Value)>::empty(),
{
    EntryVec { v: SmallVec::new() }
}

/// `SmallVec::len`: the number of entries.
#[verifier::external_body]
pub(crate) fn entries_len(v: &EntryVec) -> (r: usize)
    ensures
        r == sv_entries(*v).len(),
{
    v.v.len()
}

/// Indexing a `SmallVec`: the entry at `i`.
#[verifier::external_body]
pub(crate) fn entries_get(v: &EntryVec, i: usize) -> (r: (Value, Value))
    requires
        i < sv_entries(*v).len(),
    ensures
        r == sv_entries(*v)[i as int],
{
    v.v[i]
}

/// Assigning through a `SmallVec` index: the entry at `i` becomes `e`.
#[verifier::external_body]
pub(crate) fn entries_set(v: &mut EntryVec, i: usize, e: (Value, Value))
    requires
        i < sv_entries(*old(v)).len(),
    ensures
        sv_entries(*final(v)) == sv_entries(*old(v)).update(i as int, e),
{
    v.v[i] = e;
}

/// `SmallVec::push`: appends `e`.
#[verifier::external_body]
pub(crate) fn entries_push(v: &mut EntryVec, e: (Value, Value))
    ensures
        sv_entries(*final(v)) == sv_entries(*old(v)).push(e),
{
    v.v.push(e);
}

/// `SmallVec::insert`: `e` at position `i`, the rest shifted right.
#[verifier::external_body]
pub(crate) fn entries_insert(v: &mut EntryVec, i: usize, e: (Value, Value))
    requires
        i <= sv_entries(*old(v)).len(),
    ensures
        sv_entries(*final(v)) == sv_entries(*old(v)).insert(i as int, e),
{
    v.v.insert(i, e);
}

/// `SmallVec::remove`: takes out the entry at `i`, the rest shifted left.
#[verifier::external_body]
pub(crate) fn entries_remove(v: &mut EntryVec, i: usize) -> (r: (Value, Value))
    requires
        i < sv_entries(*old(v)).len(),
    ensures
        r == sv_entries(*old(v))[i as int],
        sv_entries(*final(v)) == sv_entries(*old(v)).remove(i as int),
{
    v.v.remove(i)
}

/// `SmallVec::clone`: a copy holding the same entries.
#[verifier::external_body]
pub(crate) fn entries_clone(v: &EntryVec) -> (r: EntryVec)
    ensures
        sv_entries(r) == sv_entries(*v),
{
    EntryVec { v: v.v.clone() }
}

/// `SmallVec::new`: an empty child vector.
#[verifier::external_body]
pub(crate) fn children_new() -> (r: ChildVec)
    ensures
        sv_children(r) == Seq::<Handle>::empty(),
{
    ChildVec { v: SmallVec::new() }
}

/// `SmallVec::len`: the number of children.
#[verifier::external_body]
pub(crate) fn children_len(v: &ChildVec) -> (r: usize)
    ensures
        r == sv_children(*v).len(),
{
    v.v.len()
}

/// Indexing a `SmallVec`: the child at `i`.
#[verifier::external_body]
pub(crate) fn children_get(v: &ChildVec, i: usize) -> (r: Handle)
    requires
        i < sv_children(*v).len(),
    ensures
        r == sv_children(*v)[i as int],
{
    v.v[i]
}

/// Assigning through a `SmallVec` index: the child at `i` becomes `c`.
#[verifier::external_body]
pub(crate) fn children_set(v: &mut ChildVec, i: usize, c: Handle)
    requires
        i < sv_children(*old(v)).len(),
    ensures
        sv_children(*final(v)) == sv_children(*old(v)).update(i as int, c),
{
    v.v[i] = c;
}

/// `SmallVec::push`: appends `c`.
#[verifier::external_body]
pub(crate) fn children_push(v: &mut ChildVec, c: Handle)
    ensures
        sv_children(*final(v)) == sv_children(*old(v)).push(c),
{
    v.v.push(c);
}

/// `SmallVec::insert`: `c` at position `i`, the rest shifted right.
#[verifier::external_body]
pub(crate) fn children_insert(v: &mut ChildVec, i: usize, c: Handle)
    requires
        i <= sv_children(*old(v)).len(),
    ensures
        sv_children(*final(v)) == sv_children(*old(v)).insert(i as int, c),
{
    v.v.insert(i, c);
}

/// `SmallVec::remove`: takes out the child at `i`, the rest shifted left.
#[verifier::external_body]
pub(crate) fn children_remove(v: &mut ChildVec, i: usize) -> (r: Handle)
    requires
        i < sv_children(*old(v)).len(),
    ensures
        r == sv_children(*old(v))[i as int],
        sv_children(*final(v)) == sv_children(*old(v)).remove(i as int),
{
    v.v.remove(i)
}

/// `SmallVec::clone`: a copy holding the same children.
#[verifier::external_body]
pub(crate) fn children_clone(v: &ChildVec) -> (r: ChildVec)
    ensures
        sv_children(r) == sv_children(*v),
{
    ChildVec { v: v.v.clone() }
}

/// One trie node: a branch (`data_map` slots hold inline entries, `node_map`
/// slots hold child nodes, in slot order) or, at full hash depth, a collision
/// leaf whose entries all share one hash.
pub struct MapNode {
    /// Entries in this subtree.
    pub size: u32,
    pub data_map: u16,
    pub node_map: u16,
    pub is_collision: bool,
    pub data: EntryVec,
    pub children: ChildVec,
}

impl MapNode {
    /// The node's inline entries.
    pub open spec fn entries(&self) -> Seq<(Value, Value)> {
        sv_entries(self.data)
    }

    /// The node's children.
    pub open spec fn kids(&self) -> Seq<Handle> {
        sv_children(self.children)
    }

    /// The empty branch: no entries, no children.
    pub fn empty() -> (r: MapNode)
        ensures
            r.size == 0,
            r.data_map == 0,
            r.node_map == 0,
            !r.is_collision,
            r.entries().len() == 0,
            r.kids().len() == 0,
    {
        MapNode {
            size: 0,
            data_map: 0,
            node_map: 0,
            is_collision: false,
            data: entries_new(),
            children: children_new(),
        }
    }

    /// Number of direct entries.
    pub fn direct_len(&self) -> (r: usize)
        ensures
            r == self.entries().len(),
    {
        entries_len(&self.data)
    }

    /// Number of children.
    pub fn child_len(&self) -> (r: usize)
        ensures
            r == self.kids().len(),
    {
        children_len(&self.children)
    }

    /// One direct entry and no children: the shape a parent inlines.
    pub fn is_singleton(&self) -> (r: bool)
        ensures
            r == (self.entries().len() == 1 && self.kids().len() == 0),
    {
        entries_len(&self.data) == 1 && children_len(&self.children) == 0
    }

    /// No entries and no children.
    pub fn is_empty(&self) -> (r: bool)
        ensures
            r == (self.entries().len() == 0 && self.kids().len() == 0),
    {
        entries_len(&self.data) == 0 && children_len(&self.children) == 0
    }

    /// A copy of the node.
    pub fn copy(&self) -> (r: MapNode)
        ensures
            r.size == self.size,
            r.data_map == self.data_map,
            r.node_map == self.node_map,
            r.is_collision == self.is_collision,
            r.entries() == self.entries(),
            r.kids() == self.kids(),
    {
        MapNode {
            size: self.size,
            data_map: self.data_map,
            node_map: self.node_map,
            is_collision: self.is_collision,
            data: entries_clone(&self.data),
            children: children_clone(&self.children),
        }
    }
}

impl Default for MapNode {
    /// The empty branch.
    fn default() -> (r: MapNode)
        ensures
            r.size == 0,
            r.data_map == 0,
            r.node_map == 0,
            !r.is_collision,
            r.entries().len() == 0,
            r.kids().len() == 0,
    {
        MapNode::empty()
    }
}

/// The words a value's identity is hashed from: a variant code and up to two
/// payload words.
pub open spec fn value_code(v: Value) -> (u64, u64, u64) {
    match v {
        Value::Nil => (0, 0, 0),
        Value::Bool(b) => (1, if b { 1 } else { 0 }, 0),
        Value::Int(i) => (2, i as u64, 0),
        Value::BigInt(h) => (3, h.0, 0),
        Value::Float(bits) => (4, bits, 0),
        Value::Sym(s) => (5, s as u64, 0),
        Value::Keyword(s) => (6, s as u64, 0),
        Value::Str(h) => (7, h.0, 0),
        Value::Rope(h) => (8, h.0, 0),
        Value::Pair(h) => (9, h.0, 0),
        Value::Vector(h) => (10, h.0, 0),
        Value::Mapping(h) => (11, h.0, 0),
        Value::Fn(h) => (12, h.0, 0),
        Value::Macro(h) => (13, h.0, 0),
        Value::Native(h) => (14, h.0, 0),
        Value::Ref(r) => (15, r, 0),
        Value::Pid { node, id } => (16, node as u64, id),
        Value::Socket(s) => (17, s, 0),
        Value::Transient(h) => (18, h.0, 0),
    }
}

/// The identity of a map key.
pub open spec fn ckey(k: Value) -> Value {
    spec_canonical_value(k)
}

/// The hash of a key: its identity's words mixed in order.
pub open spec fn khash(k: Value) -> u64 {
    let c = value_code(ckey(k));
    spec_mix(spec_mix(spec_mix(0, c.0), c.1), c.2)
}

/// The words of a value's identity.
fn value_words(v: Value) -> (r: (u64, u64, u64))
    ensures
        r == value_code(v),
{
    match v {
        Value::Nil => (0, 0, 0),
        Value::Bool(b) => (1, if b { 1 } else { 0 }, 0),
        Value::Int(i) => (2, i as u64, 0),
        Value::BigInt(h) => (3, h.0, 0),
        Value::Float(bits) => (4, bits, 0),
        Value::Sym(s) => (5, s as u64, 0),
        Value::Keyword(s) => (6, s as u64, 0),
        Value::Str(h) => (7, h.0, 0),
        Value::Rope(h) => (8, h.0, 0),
        Value::Pair(h) => (9, h.0, 0),
        Value::Vector(h) => (10, h.0, 0),
        Value::Mapping(h) => (11, h.0, 0),
        Value::Fn(h) => (12, h.0, 0),
        Value::Macro(h) => (13, h.0, 0),
        Value::Native(h) => (14, h.0, 0),
        Value::Ref(r) => (15, r, 0),
        Value::Pid { node, id } => (16, node as u64, id),
        Value::Socket(s) => (17, s, 0),
        Value::Transient(h) => (18, h.0, 0),
    }
}

/// The hash of a key.
pub fn hash_value(k: Value) -> (r: u64)
    ensures
        r == khash(k),
{
    let c = value_words(canonical_value(k));
    let mut h = SymbolHasher::new();
    h.write_u64(c.0);
    h.write_u64(c.1);
    h.write_u64(c.2);
    h.finish()
}

} // verus!
