//! Shared mutable tables: a registry of stores addressed by a `u64` handle, each a
//! map from keys to values. A store is born **dense**: int keys in
//! `[0, DENSE_KEY_MAX)` with scalar values (nil, booleans, ints in the 61-bit
//! tagged range) sit in one tagged word per key. The first operation that does not
//! fit that shape migrates the store, once, to the **hashed** form: a
//! `hash -> bucket` map whose buckets hold `(key, value)` pairs. Keys are compared
//! by identity and hashed as map keys are, so a table key behaves as a map key.

use vstd::prelude::*;
use std::collections::HashMap;
use smallvec::SmallVec;
use crate::value::{Value, Tag, tag, spec_tag};
use crate::heap::Heap;
use crate::map_ops::map_handle;
use crate::champ_map::{ckey, khash, hash_value};
use crate::champ_view::{lemma_ckey_idem, entries_view, keys_distinct, lemma_entries_push};
use vstd::std_specs::iter::IteratorSpec;

verus! {

broadcast use vstd::std_specs::hash::group_hash_axioms;

/// A dense slot that holds nothing (distinct from a stored nil).
pub const SLOT_EMPTY: u64 = 0;
pub const SLOT_NIL: u64 = 1;
pub const SLOT_TRUE: u64 = 2;
pub const SLOT_FALSE: u64 = 3;
/// The migration sentinel of the concurrent store; never stored here.
pub const SLOT_MOVED: u64 = 5;
/// The tag bit of an int word: the value is the word shifted right by three.
pub const INT_TAG: u64 = 4;
/// One past the largest int key the dense form holds.
pub const DENSE_KEY_MAX: i64 = 0x80_0000;

/// An int fits a tagged word: it lies in `[-2^60, 2^60)`.
pub open spec fn int_fits(n: i64) -> bool {
    -0x1000_0000_0000_0000i64 <= n < 0x1000_0000_0000_0000i64
}

/// The tagged word of an int.
pub open spec fn int_word(n: i64) -> u64 {
    ((n as u64) << 3u64) | 4u64
}

/// The int a tagged word holds.
pub open spec fn word_int(s: u64) -> i64 {
    (s as i64) >> 3u64
}

/// The dense word of a value, when it is a scalar the dense form holds.
pub open spec fn spec_slot_enc(v: Value) -> Option<u64> {
    match v {
        Value::Nil => Some(SLOT_NIL),
        Value::Bool(b) => Some(if b {
            SLOT_TRUE
        } else {
            SLOT_FALSE
        }),
        Value::Int(n) => if int_fits(n) {
            Some(int_word(n))
        } else {
            None
        },
        _ => None,
    }
}

/// The value a dense word holds (`None` for an empty slot).
pub open spec fn spec_slot_dec(s: u64) -> Option<Value> {
    if s == SLOT_EMPTY {
        None
    } else if s == SLOT_NIL {
        Some(Value::Nil)
    } else if s == SLOT_TRUE {
        Some(Value::Bool(true))
    } else if s == SLOT_FALSE {
        Some(Value::Bool(false))
    } else {
        Some(Value::Int(word_int(s)))
    }
}

/// A word a dense slot may hold: empty, or the encoding of the value it decodes to.
pub open spec fn slot_ok(s: u64) -> bool {
    s == SLOT_EMPTY || spec_slot_enc(spec_slot_dec(s)->0) == Some(s)
}

proof fn lemma_int_word(n: i64)
    requires
        int_fits(n),
    ensures
        word_int(int_word(n)) == n,
        int_word(n) & 4 == 4,
        int_word(n) > 3,
        int_word(n) != SLOT_MOVED,
{
    assert(-0x1000_0000_0000_0000i64 <= n < 0x1000_0000_0000_0000i64 ==> ((((n as u64) << 3u64)
        | 4u64) as i64) >> 3u64 == n) by (bit_vector);
    assert((((n as u64) << 3u64) | 4u64) & 4 == 4) by (bit_vector);
    assert((((n as u64) << 3u64) | 4u64) & 4 == 4 ==> (((n as u64) << 3u64) | 4u64) > 3) by (
    bit_vector);
    assert((((n as u64) << 3u64) | 4u64) & 7 == 4) by (bit_vector);
    assert(5u64 & 7 == 5) by (bit_vector);
}

/// A dense word decodes to the value it encodes: storing a scalar and reading
/// it back gives the same scalar.
pub proof fn lemma_slot_roundtrip(v: Value)
    requires
        spec_slot_enc(v) is Some,
    ensures
        spec_slot_dec(spec_slot_enc(v)->0) == Some(v),
        slot_ok(spec_slot_enc(v)->0),
        spec_slot_enc(v)->0 != SLOT_EMPTY,
{
    if let Value::Int(n) = v {
        lemma_int_word(n);
    }
}

/// What a slot word that holds something reveals of its value's kind: the words
/// up to three are nil and the booleans; a larger word carries the int tag.
proof fn lemma_slot_kind(s: u64)
    requires
        slot_ok(s),
        s != SLOT_EMPTY,
    ensures
        s <= 3 ==> !(spec_slot_dec(s)->0 is Int),
        s > 3 ==> spec_slot_dec(s) == Some(Value::Int(word_int(s))) && s & 4 == 4,
        s & 4 == 4 <==> s > 3,
        s & 4 != 0 <==> s > 3,
{
    assert(s & 4 != 0 <==> s & 4 == 4) by (bit_vector);
    if s > 3 {
        lemma_int_word(word_int(s));
    } else {
        assert(s <= 3 ==> s & 4 == 0) by (bit_vector);
    }
}

/// The dense word of `v`, or `None` when `v` needs the hashed form.
pub fn slot_enc(v: Value) -> (r: Option<u64>)
    ensures
        r == spec_slot_enc(v),
{
    match v {
        Value::Nil => Some(SLOT_NIL),
        Value::Bool(true) => Some(SLOT_TRUE),
        Value::Bool(false) => Some(SLOT_FALSE),
        Value::Int(n) => {
            if -0x1000_0000_0000_0000i64 <= n && n < 0x1000_0000_0000_0000i64 {
                Some(((n as u64) << 3u64) | INT_TAG)
            } else {
                None
            }
        },
        _ => None,
    }
}

/// The value of a dense word, `None` for an empty slot.
pub fn slot_dec(s: u64) -> (r: Option<Value>)
    ensures
        r == spec_slot_dec(s),
{
    if s == SLOT_EMPTY {
        None
    } else if s == SLOT_NIL {
        Some(Value::Nil)
    } else if s == SLOT_TRUE {
        Some(Value::Bool(true))
    } else if s == SLOT_FALSE {
        Some(Value::Bool(false))
    } else {
        Some(Value::Int((s as i64) >> 3u64))
    }
}

/// The dense index of a key: an int in `[0, DENSE_KEY_MAX)`.
pub open spec fn spec_dense_idx(key: Value) -> Option<usize> {
    match key {
        Value::Int(n) => if 0 <= n < DENSE_KEY_MAX {
            Some(n as usize)
        } else {
            None
        },
        _ => None,
    }
}

/// The dense index of `key`, when it is an int the dense form can hold.
pub fn dense_idx(key: Value) -> (r: Option<usize>)
    ensures
        r == spec_dense_idx(key),
{
    match key {
        Value::Int(n) => {
            if 0 <= n && n < DENSE_KEY_MAX {
                Some(n as usize)
            } else {
                None
            }
        },
        _ => None,
    }
}


/// One hash bucket: the `(key, value)` pairs whose keys share a hash. Almost
/// always a single pair, held inline in a `SmallVec` that Verus sees only through
/// the wrappers below.
#[verifier::external_body]
pub struct Bucket {
    v: SmallVec<[(Value, Value); 1]>,
}

/// The pairs a bucket holds, in order.
pub uninterp spec fn bucket_entries(b: Bucket) -> Seq<(Value, Value)>;

/// `SmallVec::new`: an empty bucket.
#[verifier::external_body]
fn bucket_new() -> (r: Bucket)
    ensures
        bucket_entries(r) == Seq::<(Value, Value)>::empty(),
{
    Bucket { v: SmallVec::new() }
}

/// `SmallVec::len`: the number of pairs.
#[verifier::external_body]
fn bucket_len(b: &Bucket) -> (r: usize)
    ensures
        r == bucket_entries(*b).len(),
{
    b.v.len()
}

/// Indexing a `SmallVec`: the pair at `i`.
#[verifier::external_body]
fn bucket_get(b: &Bucket, i: usize) -> (r: (Value, Value))
    requires
        i < bucket_entries(*b).len(),
    ensures
        r == bucket_entries(*b)[i as int],
{
    b.v[i]
}

/// Assigning through a `SmallVec` index: the pair at `i` becomes `e`.
#[verifier::external_body]
fn bucket_set(b: &mut Bucket, i: usize, e: (Value, Value))
    requires
        i < bucket_entries(*old(b)).len(),
    ensures
        bucket_entries(*final(b)) == bucket_entries(*old(b)).update(i as int, e),
{
    b.v[i] = e;
}

/// `SmallVec::push`: appends `e`.
#[verifier::external_body]
fn bucket_push(b: &mut Bucket, e: (Value, Value))
    ensures
        bucket_entries(*final(b)) == bucket_entries(*old(b)).push(e),
{
    b.v.push(e);
}

/// `SmallVec::swap_remove`: takes out the pair at `i`, moving the last pair into
/// its place.
#[verifier::external_body]
fn bucket_swap_remove(b: &mut Bucket, i: usize) -> (r: (Value, Value))
    requires
        i < bucket_entries(*old(b)).len(),
    ensures
        r == bucket_entries(*old(b))[i as int],
        bucket_entries(*final(b)) == bucket_entries(*old(b)).update(
            i as int,
            bucket_entries(*old(b)).last(),
        ).drop_last(),
{
    b.v.swap_remove(i)
}

/// The hashed form holds exactly the map `m`: every pair sits in the bucket of
/// its key's hash and is what `m` binds that key to, every binding of `m` sits in
/// its hash's bucket, and no bucket holds a key twice.
pub open spec fn hashed_ok(hm: Map<u64, Bucket>, m: Map<Value, Value>) -> bool {
    &&& forall|h: u64, i: int|
        #![trigger bucket_entries(hm[h])[i]]
        hm.contains_key(h) && 0 <= i < bucket_entries(hm[h]).len() ==> {
            let e = bucket_entries(hm[h])[i];
            &&& khash(e.0) == h
            &&& m.contains_key(ckey(e.0))
            &&& m[ckey(e.0)] == e.1
        }
    &&& forall|x: Value|
        #[trigger] m.contains_key(x) ==> {
            &&& ckey(x) == x
            &&& hm.contains_key(khash(x))
            &&& exists|i: int|
                0 <= i < bucket_entries(hm[khash(x)]).len() && ckey(
                    #[trigger] bucket_entries(hm[khash(x)])[i].0,
                ) == x
        }
    &&& forall|h: u64, i: int, j: int|
        #![trigger bucket_entries(hm[h])[i], bucket_entries(hm[h])[j]]
        hm.contains_key(h) && 0 <= i < bucket_entries(hm[h]).len() && 0 <= j < bucket_entries(
            hm[h],
        ).len() && i != j ==> ckey(bucket_entries(hm[h])[i].0) != ckey(
            bucket_entries(hm[h])[j].0,
        )
}

/// The dense form holds exactly the map `m`: slot `i` is empty exactly when `m`
/// binds no `Int(i)`, and otherwise decodes to what `m` binds it to; `m` binds
/// nothing but ints below the watermark.
pub open spec fn dense_ok(slots: Seq<u64>, m: Map<Value, Value>) -> bool {
    &&& slots.len() <= DENSE_KEY_MAX
    &&& forall|i: int| 0 <= i < slots.len() ==> slot_ok(#[trigger] slots[i])
    &&& forall|i: int|
        0 <= i < slots.len() ==> (#[trigger] slots[i] != SLOT_EMPTY <==> m.contains_key(
            Value::Int(i as i64),
        ))
    &&& forall|i: int|
        0 <= i < slots.len() && #[trigger] slots[i] != SLOT_EMPTY ==> m[Value::Int(i as i64)]
            == spec_slot_dec(slots[i])->0
    &&& forall|x: Value|
        #[trigger] m.contains_key(x) ==> (x matches Value::Int(n) && 0 <= n < slots.len())
}

/// One shared store.
pub struct Store {
    /// Still in the dense form.
    pub dense: bool,
    /// The dense slots, up to the watermark (one past the highest index written).
    pub slots: Vec<u64>,
    /// The number of non-empty dense slots.
    pub dense_count: usize,
    /// The hashed form, once migrated.
    pub hashed: Option<HashMap<u64, Bucket>>,
    /// The number of pairs in the hashed form.
    pub hashed_len: usize,
    /// Set by `table-drop`; a dropped store is gone.
    pub dropped: bool,
    /// The map the store holds, by key identity.
    pub contents: Ghost<Map<Value, Value>>,
}

impl Store {
    pub open spec fn wf(&self) -> bool {
        &&& self.contents@.dom().finite()
        &&& self.dropped ==> !self.dense && self.hashed is None && self.contents@.is_empty()
        &&& !self.dropped ==> (self.dense <==> self.hashed is None)
        &&& self.dense ==> {
            &&& dense_ok(self.slots@, self.contents@)
            &&& self.dense_count == self.contents@.len()
        }
        &&& self.hashed matches Some(hm) ==> {
            &&& hashed_ok(hm@, self.contents@)
            &&& self.hashed_len == self.contents@.len()
        }
    }

    /// A fresh, empty, dense store.
    pub fn new() -> (r: Store)
        ensures
            r.wf(),
            !r.dropped,
            r.dense,
            r.contents@ == Map::<Value, Value>::empty(),
    {
        Store {
            dense: true,
            slots: Vec::new(),
            dense_count: 0,
            hashed: None,
            hashed_len: 0,
            dropped: false,
            contents: Ghost(Map::empty()),
        }
    }
}

proof fn lemma_int_ckey(n: i64)
    ensures
        ckey(Value::Int(n)) == Value::Int(n),
{
}

/// The index in `b` of the pair whose key is `key`, by identity.
fn find_idx(b: &Bucket, key: Value) -> (r: Option<usize>)
    ensures
        match r {
            Some(i) => i < bucket_entries(*b).len() && ckey(bucket_entries(*b)[i as int].0) == ckey(
                key,
            ),
            None => forall|i: int|
                0 <= i < bucket_entries(*b).len() ==> ckey(#[trigger] bucket_entries(*b)[i].0)
                    != ckey(key),
        },
{
    let n = bucket_len(b);
    let mut i: usize = 0;
    while i < n
        invariant
            n == bucket_entries(*b).len(),
            i <= n,
            forall|j: int| 0 <= j < i ==> ckey(#[trigger] bucket_entries(*b)[j].0) != ckey(key),
        decreases n - i,
    {
        let e = bucket_get(b, i);
        if crate::value::same_value(e.0, key) {
            return Some(i);
        }
        i = i + 1;
    }
    None
}

impl Store {
    /// Raises the watermark to cover index `i`.
    fn cover(&mut self, i: usize)
        requires
            old(self).wf(),
            old(self).dense,
            !old(self).dropped,
            i < DENSE_KEY_MAX,
        ensures
            final(self).wf(),
            *final(self) == (Store { slots: final(self).slots, ..*old(self) }),
            i < final(self).slots@.len(),
            final(self).slots@.len() >= old(self).slots@.len(),
            forall|j: int| 0 <= j < old(self).slots@.len() ==> final(self).slots@[j] == old(self).slots@[j],
    {
        while self.slots.len() <= i
            invariant
                i < DENSE_KEY_MAX,
                self.wf(),
                self.dense,
                !self.dropped,
                *self == (Store { slots: self.slots, ..*old(self) }),
                self.slots@.len() >= old(self).slots@.len(),
                forall|j: int| 0 <= j < old(self).slots@.len() ==> self.slots@[j] == old(self).slots@[j],
            decreases i + 1 - self.slots@.len(),
        {
            self.slots.push(SLOT_EMPTY);
            proof {
                let m = self.contents@;
                let sl = self.slots@;
                assert forall|x: Value| #[trigger] m.contains_key(x) implies (x matches Value::Int(n)
                    && 0 <= n < sl.len()) by {}
                assert forall|k: int| 0 <= k < sl.len() implies (#[trigger] sl[k] != SLOT_EMPTY <==> m.contains_key(
                    Value::Int(k as i64),
                )) by {
                    if k == sl.len() - 1 {
                        if m.contains_key(Value::Int(k as i64)) {
                            assert(false);
                        }
                    }
                }
            }
        }
    }

    /// The value under dense index `i`.
    fn dense_get(&self, i: usize) -> (r: Option<Value>)
        requires
            self.wf(),
            self.dense,
            i < DENSE_KEY_MAX,
        ensures
            r == (if self.contents@.contains_key(Value::Int(i as i64)) {
                Some(self.contents@[Value::Int(i as i64)])
            } else {
                None
            }),
    {
        if i < self.slots.len() {
            slot_dec(self.slots[i])
        } else {
            proof {
                if self.contents@.contains_key(Value::Int(i as i64)) {
                    assert(false);
                }
            }
            None
        }
    }

    /// Stores `word`, the dense encoding of `val`, under index `i`.
    fn dense_put(&mut self, i: usize, word: u64, Ghost(val): Ghost<Value>)
        requires
            old(self).wf(),
            old(self).dense,
            !old(self).dropped,
            i < DENSE_KEY_MAX,
            spec_slot_enc(val) == Some(word),
        ensures
            final(self).wf(),
            final(self).dense,
            !final(self).dropped,
            final(self).contents@ == old(self).contents@.insert(Value::Int(i as i64), val),
    {
        self.cover(i);
        proof {
            lemma_slot_roundtrip(val);
        }
        let old_word = self.slots[i];
        self.slots.set(i, word);
        if old_word == SLOT_EMPTY {
            proof {
                assert(!self.contents@.contains_key(Value::Int(i as i64)));
                assert(self.contents@.len() <= DENSE_KEY_MAX) by {
                    lemma_dense_len_bound(self.slots@, self.contents@, self.slots@.len());
                }
            }
            self.dense_count = self.dense_count + 1;
        }
        self.contents = Ghost(self.contents@.insert(Value::Int(i as i64), val));
        proof {
            let m = self.contents@;
            let sl = self.slots@;
            assert forall|x: Value| #[trigger] m.contains_key(x) implies (x matches Value::Int(n)
                && 0 <= n < sl.len()) by {}
            assert forall|k: int| 0 <= k < sl.len() implies (#[trigger] sl[k] != SLOT_EMPTY <==> m.contains_key(
                Value::Int(k as i64),
            )) by {
                if k != i {
                    assert(Value::Int(k as i64) != Value::Int(i as i64));
                }
            }
            assert forall|k: int| 0 <= k < sl.len() && #[trigger] sl[k] != SLOT_EMPTY implies m[Value::Int(k as i64)]
                == spec_slot_dec(sl[k])->0 by {
                if k != i {
                    assert(Value::Int(k as i64) != Value::Int(i as i64));
                }
            }
        }
    }
}

/// A dense store binds no more keys than its watermark.
proof fn lemma_dense_len_bound(slots: Seq<u64>, m: Map<Value, Value>, w: nat)
    requires
        m.dom().finite(),
        forall|x: Value| #[trigger] m.contains_key(x) ==> (x matches Value::Int(n) && 0 <= n < w),
        w <= DENSE_KEY_MAX,
    ensures
        m.len() <= w,
{
    let ints = Set::new(|x: Value| x matches Value::Int(n) && 0 <= n < w);
    assert(m.dom().subset_of(ints));
    lemma_int_set_len(w);
    vstd::set_lib::lemma_len_subset(m.dom(), ints);
}

/// The ints `0..w` as values form a finite set of `w` elements.
proof fn lemma_int_set_len(w: nat)
    requires
        w <= DENSE_KEY_MAX,
    ensures
        Set::new(|x: Value| x matches Value::Int(n) && 0 <= n < w).finite(),
        Set::new(|x: Value| x matches Value::Int(n) && 0 <= n < w).len() == w,
    decreases w,
{
    let s = Set::new(|x: Value| x matches Value::Int(n) && 0 <= n < w);
    if w == 0 {
        assert(s =~= Set::empty());
    } else {
        let p = Set::new(|x: Value| x matches Value::Int(n) && 0 <= n < (w - 1) as nat);
        lemma_int_set_len((w - 1) as nat);
        assert(s =~= p.insert(Value::Int((w - 1) as i64)));
    }
}


/// The pairs under hash `h`, none when there is no bucket for it.
pub open spec fn bucket_at(hm: Map<u64, Bucket>, h: u64) -> Seq<(Value, Value)> {
    if hm.contains_key(h) {
        bucket_entries(hm[h])
    } else {
        Seq::empty()
    }
}

/// Adding a pair for a key the map does not bind to the end of its hash's bucket.
proof fn lemma_hashed_insert_new(
    hm: Map<u64, Bucket>,
    m: Map<Value, Value>,
    key: Value,
    v: Value,
    b: Bucket,
)
    requires
        hashed_ok(hm, m),
        !m.contains_key(ckey(key)),
        bucket_entries(b) == bucket_at(hm, khash(key)).push((key, v)),
    ensures
        hashed_ok(hm.insert(khash(key), b), m.insert(ckey(key), v)),
{
    let h = khash(key);
    let x = ckey(key);
    let hm2 = hm.insert(h, b);
    let m2 = m.insert(x, v);
    let old_e = bucket_at(hm, h);
    lemma_ckey_idem(key);
    assert forall|h2: u64, i: int|
        hm2.contains_key(h2) && 0 <= i < bucket_entries(hm2[h2]).len() implies {
        let e = #[trigger] bucket_entries(hm2[h2])[i];
        &&& khash(e.0) == h2
        &&& m2.contains_key(ckey(e.0))
        &&& m2[ckey(e.0)] == e.1
    } by {
        let e = bucket_entries(hm2[h2])[i];
        if h2 != h {
            assert(bucket_entries(hm[h2])[i] == e);
            lemma_ckey_idem(e.0);
        } else if i < old_e.len() {
            assert(bucket_entries(hm[h])[i] == e);
        }
    }
    assert forall|y: Value| #[trigger] m2.contains_key(y) implies {
        &&& ckey(y) == y
        &&& hm2.contains_key(khash(y))
        &&& exists|i: int|
            0 <= i < bucket_entries(hm2[khash(y)]).len() && ckey(
                #[trigger] bucket_entries(hm2[khash(y)])[i].0,
            ) == y
    } by {
        if y == x {
            assert(ckey(bucket_entries(hm2[khash(y)])[old_e.len() as int].0) == y);
        } else {
            assert(m.contains_key(y));
            let i = choose|i: int|
                0 <= i < bucket_entries(hm[khash(y)]).len() && ckey(
                    #[trigger] bucket_entries(hm[khash(y)])[i].0,
                ) == y;
            assert(ckey(bucket_entries(hm2[khash(y)])[i].0) == y);
        }
    }
    assert forall|h2: u64, i: int, j: int|
        hm2.contains_key(h2) && 0 <= i < bucket_entries(hm2[h2]).len() && 0 <= j
            < bucket_entries(hm2[h2]).len() && i != j implies ckey(
        #[trigger] bucket_entries(hm2[h2])[i].0,
    ) != ckey(#[trigger] bucket_entries(hm2[h2])[j].0) by {
        if h2 == h {
            if i < old_e.len() && j < old_e.len() {
                assert(bucket_entries(hm[h])[i] == bucket_entries(hm2[h2])[i]);
                assert(bucket_entries(hm[h])[j] == bucket_entries(hm2[h2])[j]);
            } else if i < old_e.len() {
                assert(bucket_entries(hm[h])[i] == bucket_entries(hm2[h2])[i]);
            } else {
                assert(bucket_entries(hm[h])[j] == bucket_entries(hm2[h2])[j]);
            }
        } else {
            assert(bucket_entries(hm[h2])[i] == bucket_entries(hm2[h2])[i]);
            assert(bucket_entries(hm[h2])[j] == bucket_entries(hm2[h2])[j]);
        }
    }
}

/// Rebinding a key the map binds, in place in its bucket.
proof fn lemma_hashed_update(
    hm: Map<u64, Bucket>,
    m: Map<Value, Value>,
    key: Value,
    v: Value,
    i: int,
    b: Bucket,
)
    requires
        hashed_ok(hm, m),
        hm.contains_key(khash(key)),
        0 <= i < bucket_entries(hm[khash(key)]).len(),
        ckey(bucket_entries(hm[khash(key)])[i].0) == ckey(key),
        bucket_entries(b) == bucket_entries(hm[khash(key)]).update(
            i,
            (bucket_entries(hm[khash(key)])[i].0, v),
        ),
    ensures
        hashed_ok(hm.insert(khash(key), b), m.insert(ckey(key), v)),
{
    let h = khash(key);
    let x = ckey(key);
    let hm2 = hm.insert(h, b);
    let m2 = m.insert(x, v);
    let old_e = bucket_entries(hm[h]);
    lemma_ckey_idem(key);
    assert forall|h2: u64, k: int|
        hm2.contains_key(h2) && 0 <= k < bucket_entries(hm2[h2]).len() implies {
        let e = #[trigger] bucket_entries(hm2[h2])[k];
        &&& khash(e.0) == h2
        &&& m2.contains_key(ckey(e.0))
        &&& m2[ckey(e.0)] == e.1
    } by {
        let e = bucket_entries(hm2[h2])[k];
        if h2 != h {
            assert(bucket_entries(hm[h2])[k] == e);
            lemma_ckey_idem(e.0);
        } else if k != i {
            assert(bucket_entries(hm[h])[k] == e);
            assert(ckey(old_e[k].0) != ckey(old_e[i].0));
        } else {
            assert(old_e[i].0 == e.0);
        }
    }
    assert forall|y: Value| #[trigger] m2.contains_key(y) implies {
        &&& ckey(y) == y
        &&& hm2.contains_key(khash(y))
        &&& exists|k: int|
            0 <= k < bucket_entries(hm2[khash(y)]).len() && ckey(
                #[trigger] bucket_entries(hm2[khash(y)])[k].0,
            ) == y
    } by {
        if y == x {
            assert(ckey(bucket_entries(hm2[khash(y)])[i].0) == y);
        } else {
            assert(m.contains_key(y));
            let k = choose|k: int|
                0 <= k < bucket_entries(hm[khash(y)]).len() && ckey(
                    #[trigger] bucket_entries(hm[khash(y)])[k].0,
                ) == y;
            assert(ckey(bucket_entries(hm2[khash(y)])[k].0) == y);
        }
    }
    assert forall|h2: u64, p: int, q: int|
        hm2.contains_key(h2) && 0 <= p < bucket_entries(hm2[h2]).len() && 0 <= q
            < bucket_entries(hm2[h2]).len() && p != q implies ckey(
        #[trigger] bucket_entries(hm2[h2])[p].0,
    ) != ckey(#[trigger] bucket_entries(hm2[h2])[q].0) by {
        if h2 == h {
            assert(bucket_entries(hm[h])[p].0 == bucket_entries(hm2[h2])[p].0);
            assert(bucket_entries(hm[h])[q].0 == bucket_entries(hm2[h2])[q].0);
        } else {
            assert(bucket_entries(hm[h2])[p] == bucket_entries(hm2[h2])[p]);
            assert(bucket_entries(hm[h2])[q] == bucket_entries(hm2[h2])[q]);
        }
    }
}

/// Taking a key's pair out of its bucket (the last pair moving into its place),
/// and dropping the bucket when it empties.
proof fn lemma_hashed_remove(
    hm: Map<u64, Bucket>,
    m: Map<Value, Value>,
    key: Value,
    i: int,
    b: Bucket,
    hm2: Map<u64, Bucket>,
)
    requires
        hashed_ok(hm, m),
        hm.contains_key(khash(key)),
        0 <= i < bucket_entries(hm[khash(key)]).len(),
        ckey(bucket_entries(hm[khash(key)])[i].0) == ckey(key),
        bucket_entries(b) == bucket_entries(hm[khash(key)]).update(
            i,
            bucket_entries(hm[khash(key)]).last(),
        ).drop_last(),
        bucket_entries(b).len() == 0 ==> hm2 == hm.remove(khash(key)),
        bucket_entries(b).len() > 0 ==> hm2 == hm.insert(khash(key), b),
    ensures
        hashed_ok(hm2, m.remove(ckey(key))),
{
    let h = khash(key);
    let x = ckey(key);
    let m2 = m.remove(x);
    let old_e = bucket_entries(hm[h]);
    let n = old_e.len();
    let ne = bucket_entries(b);
    lemma_ckey_idem(key);
    assert forall|h2: u64, k: int|
        hm2.contains_key(h2) && 0 <= k < bucket_entries(hm2[h2]).len() implies {
        let e = #[trigger] bucket_entries(hm2[h2])[k];
        &&& khash(e.0) == h2
        &&& m2.contains_key(ckey(e.0))
        &&& m2[ckey(e.0)] == e.1
    } by {
        let e = bucket_entries(hm2[h2])[k];
        if h2 != h {
            assert(bucket_entries(hm[h2])[k] == e);
            lemma_ckey_idem(e.0);
        } else {
            let ok = if k == i {
                n - 1
            } else {
                k
            };
            assert(old_e[ok] == e);
            assert(ok != i);
            assert(ckey(old_e[ok].0) != ckey(old_e[i].0));
        }
    }
    assert forall|y: Value| #[trigger] m2.contains_key(y) implies {
        &&& ckey(y) == y
        &&& hm2.contains_key(khash(y))
        &&& exists|k: int|
            0 <= k < bucket_entries(hm2[khash(y)]).len() && ckey(
                #[trigger] bucket_entries(hm2[khash(y)])[k].0,
            ) == y
    } by {
        assert(m.contains_key(y) && y != x);
        let k = choose|k: int|
            0 <= k < bucket_entries(hm[khash(y)]).len() && ckey(
                #[trigger] bucket_entries(hm[khash(y)])[k].0,
            ) == y;
        if khash(y) == h {
            assert(k != i);
            if k == n - 1 {
                assert(ne[i] == old_e[k]);
                assert(ckey(bucket_entries(hm2[khash(y)])[i].0) == y);
            } else {
                assert(ne[k] == old_e[k]);
                assert(ckey(bucket_entries(hm2[khash(y)])[k].0) == y);
            }
        } else {
            assert(ckey(bucket_entries(hm2[khash(y)])[k].0) == y);
        }
    }
    assert forall|h2: u64, p: int, q: int|
        hm2.contains_key(h2) && 0 <= p < bucket_entries(hm2[h2]).len() && 0 <= q
            < bucket_entries(hm2[h2]).len() && p != q implies ckey(
        #[trigger] bucket_entries(hm2[h2])[p].0,
    ) != ckey(#[trigger] bucket_entries(hm2[h2])[q].0) by {
        if h2 == h {
            let op = if p == i {
                n - 1
            } else {
                p
            };
            let oq = if q == i {
                n - 1
            } else {
                q
            };
            assert(old_e[op] == ne[p]);
            assert(old_e[oq] == ne[q]);
            assert(bucket_entries(hm[h])[op] == old_e[op]);
            assert(bucket_entries(hm[h])[oq] == old_e[oq]);
        } else {
            assert(bucket_entries(hm[h2])[p] == bucket_entries(hm2[h2])[p]);
            assert(bucket_entries(hm[h2])[q] == bucket_entries(hm2[h2])[q]);
        }
    }
}


/// Why a table operation failed.
#[derive(Clone, Copy, Debug, PartialEq, Eq, Structural)]
pub enum TableError {
    /// Handle 0, which never names a table.
    NoSuchTable(u64),
    /// A handle of a dropped table, or one never created.
    Dropped(u64),
    /// `table-incr` on a value that is not an integer.
    NotAnInteger,
    /// `table-incr` on an integer outside the `i64` range it supports.
    IntegerOutOfRange,
    /// `table-incr` would leave the `i64` range.
    IncrOverflow,
    /// A closure, macro or builtin as a key: it compares by identity, which a
    /// stored copy cannot keep.
    IdentityKey(Tag),
    /// NaN as a key: it never equals itself, so it could never be found again.
    NanKey,
}

/// What `table-incr` by `delta` answers when the key holds `cur`: the new integer,
/// or why there is none. An absent key counts as 0.
pub open spec fn incr_outcome(cur: Option<Value>, delta: i64) -> Result<i64, TableError> {
    let base: Result<i64, TableError> = match cur {
        None => Ok(0i64),
        Some(Value::Int(n)) => Ok(n),
        Some(Value::BigInt(_)) => Err(TableError::IntegerOutOfRange),
        Some(_) => Err(TableError::NotAnInteger),
    };
    match base {
        Ok(n) => if i64::MIN <= n + delta <= i64::MAX {
            Ok((n + delta) as i64)
        } else {
            Err(TableError::IncrOverflow)
        },
        Err(e) => Err(e),
    }
}

/// The binding of `x` in `m`, if any.
pub open spec fn map_get(m: Map<Value, Value>, x: Value) -> Option<Value> {
    if m.contains_key(x) {
        Some(m[x])
    } else {
        None
    }
}

impl Store {
    /// The value bound to `key`, in the hashed form.
    fn hashed_get(&self, key: Value) -> (r: Option<Value>)
        requires
            self.wf(),
            self.hashed is Some,
        ensures
            r == map_get(self.contents@, ckey(key)),
    {
        let hm = match &self.hashed {
            Some(hm) => hm,
            None => return None,
        };
        let h = hash_value(key);
        proof {
            lemma_ckey_idem(key);
        }
        match hm.get(&h) {
            Some(b) => match find_idx(b, key) {
                Some(i) => {
                    let e = bucket_get(b, i);
                    proof {
                        assert(bucket_entries(hm@[h])[i as int] == e);
                    }
                    Some(e.1)
                },
                None => {
                    proof {
                        if self.contents@.contains_key(ckey(key)) {
                            let k = choose|k: int|
                                0 <= k < bucket_entries(hm@[khash(ckey(key))]).len() && ckey(
                                    #[trigger] bucket_entries(hm@[khash(ckey(key))])[k].0,
                                ) == ckey(key);
                            assert(ckey(bucket_entries(*b)[k].0) != ckey(key));
                        }
                    }
                    None
                },
            },
            None => {
                proof {
                    if self.contents@.contains_key(ckey(key)) {
                        assert(hm@.contains_key(khash(ckey(key))));
                    }
                }
                None
            },
        }
    }

    /// Binds `key` to `val` in the hashed form.
    fn hashed_put(&mut self, key: Value, val: Value)
        requires
            old(self).wf(),
            old(self).hashed is Some,
            old(self).contents@.len() + 1 < usize::MAX,
        ensures
            final(self).wf(),
            final(self).hashed is Some,
            final(self).dense == old(self).dense,
            final(self).dropped == old(self).dropped,
            final(self).contents@ == old(self).contents@.insert(ckey(key), val),
    {
        let mut hm = match self.hashed.take() {
            Some(hm) => hm,
            None => HashMap::new(),
        };
        let ghost hm0 = hm@;
        let ghost m = self.contents@;
        let h = hash_value(key);
        proof {
            lemma_ckey_idem(key);
        }
        let mut b = match hm.remove(&h) {
            Some(b) => b,
            None => bucket_new(),
        };
        proof {
            assert(bucket_entries(b) == bucket_at(hm0, h));
        }
        match find_idx(&b, key) {
            Some(i) => {
                let e = bucket_get(&b, i);
                bucket_set(&mut b, i, (e.0, val));
                proof {
                    lemma_hashed_update(hm0, m, key, val, i as int, b);
                }
            },
            None => {
                proof {
                    if m.contains_key(ckey(key)) {
                        let k = choose|k: int|
                            0 <= k < bucket_entries(hm0[khash(ckey(key))]).len() && ckey(
                                #[trigger] bucket_entries(hm0[khash(ckey(key))])[k].0,
                            ) == ckey(key);
                        assert(ckey(bucket_entries(b)[k].0) != ckey(key));
                    }
                }
                bucket_push(&mut b, (key, val));
                proof {
                    lemma_hashed_insert_new(hm0, m, key, val, b);
                }
                self.hashed_len = self.hashed_len + 1;
            },
        }
        hm.insert(h, b);
        proof {
            assert(hm@ =~= hm0.insert(h, b));
        }
        self.hashed = Some(hm);
        self.contents = Ghost(m.insert(ckey(key), val));
    }

    /// Unbinds `key` in the hashed form.
    fn hashed_delete(&mut self, key: Value)
        requires
            old(self).wf(),
            old(self).hashed is Some,
        ensures
            final(self).wf(),
            final(self).hashed is Some,
            final(self).dense == old(self).dense,
            final(self).dropped == old(self).dropped,
            final(self).contents@ == old(self).contents@.remove(ckey(key)),
    {
        let mut hm = match self.hashed.take() {
            Some(hm) => hm,
            None => HashMap::new(),
        };
        let ghost hm0 = hm@;
        let ghost m = self.contents@;
        let h = hash_value(key);
        proof {
            lemma_ckey_idem(key);
        }
        match hm.remove(&h) {
            Some(mut b) => {
                match find_idx(&b, key) {
                    Some(i) => {
                        bucket_swap_remove(&mut b, i);
                        let ghost b2 = b;
                        if bucket_len(&b) > 0 {
                            hm.insert(h, b);
                            proof {
                                assert(hm@ =~= hm0.insert(h, b2));
                            }
                        } else {
                            proof {
                                assert(hm@ =~= hm0.remove(h));
                            }
                        }
                        proof {
                            lemma_hashed_remove(hm0, m, key, i as int, b2, hm@);
                            assert(m.contains_key(ckey(key)));
                        }
                        self.hashed_len = self.hashed_len - 1;
                    },
                    None => {
                        hm.insert(h, b);
                        proof {
                            assert(hm@ =~= hm0);
                            if m.contains_key(ckey(key)) {
                                let k = choose|k: int|
                                    0 <= k < bucket_entries(hm0[khash(ckey(key))]).len() && ckey(
                                        #[trigger] bucket_entries(hm0[khash(ckey(key))])[k].0,
                                    ) == ckey(key);
                                assert(ckey(bucket_entries(b)[k].0) != ckey(key));
                            }
                            assert(m.remove(ckey(key)) =~= m);
                        }
                    },
                }
            },
            None => {
                proof {
                    assert(hm@ =~= hm0);
                    if m.contains_key(ckey(key)) {
                        assert(hm0.contains_key(khash(ckey(key))));
                    }
                    assert(m.remove(ckey(key)) =~= m);
                }
            },
        }
        self.hashed = Some(hm);
        self.contents = Ghost(m.remove(ckey(key)));
    }

    /// Adds `delta` to the integer under `key` in the hashed form (an absent key
    /// counting as 0) and returns the new integer.
    fn incr_hashed(&mut self, key: Value, delta: i64) -> (r: Result<i64, TableError>)
        requires
            old(self).wf(),
            old(self).hashed is Some,
            old(self).contents@.len() + 1 < usize::MAX,
        ensures
            final(self).wf(),
            final(self).hashed is Some,
            final(self).dense == old(self).dense,
            final(self).dropped == old(self).dropped,
            r == incr_outcome(map_get(old(self).contents@, ckey(key)), delta),
            r matches Ok(n) ==> final(self).contents@ == old(self).contents@.insert(
                ckey(key),
                Value::Int(n),
            ),
            r is Err ==> final(self).contents@ == old(self).contents@,
    {
        let cur = self.hashed_get(key);
        let base: i64 = match cur {
            None => 0,
            Some(Value::Int(n)) => n,
            Some(Value::BigInt(_)) => return Err(TableError::IntegerOutOfRange),
            Some(_) => return Err(TableError::NotAnInteger),
        };
        let next = match base.checked_add(delta) {
            Some(n) => n,
            None => return Err(TableError::IncrOverflow),
        };
        self.hashed_put(key, Value::Int(next));
        Ok(next)
    }

    /// Moves a dense store to the hashed form, one time, keeping every entry.
    fn migrate_to_hashed(&mut self)
        requires
            old(self).wf(),
            old(self).dense,
            !old(self).dropped,
        ensures
            final(self).wf(),
            !final(self).dense,
            !final(self).dropped,
            final(self).hashed is Some,
            final(self).contents@ == old(self).contents@,
    {
        let mut map: HashMap<u64, Bucket> = HashMap::new();
        let ghost mut pm: Map<Value, Value> = Map::empty();
        let n = self.slots.len();
        let mut k: usize = 0;
        proof {
            assert(hashed_ok(map@, pm));
        }
        while k < n
            invariant
                n == self.slots@.len(),
                k <= n,
                *self == *old(self),
                self.wf(),
                self.dense,
                pm.dom().finite(),
                hashed_ok(map@, pm),
                forall|j: int|
                    0 <= j < k ==> (#[trigger] self.slots@[j] != SLOT_EMPTY <==> pm.contains_key(
                        Value::Int(j as i64),
                    )),
                forall|x: Value| #[trigger]
                    pm.contains_key(x) ==> (x matches Value::Int(t) && 0 <= t < k)
                        && self.contents@.contains_key(x) && pm[x] == self.contents@[x],
            decreases n - k,
        {
            let s = self.slots[k];
            if s != SLOT_EMPTY {
                let key = Value::Int(k as i64);
                let v = match slot_dec(s) {
                    Some(v) => v,
                    None => Value::Nil,
                };
                let h = hash_value(key);
                let ghost map0 = map@;
                let mut b = match map.remove(&h) {
                    Some(b) => b,
                    None => bucket_new(),
                };
                proof {
                    assert(bucket_entries(b) == bucket_at(map0, h));
                    lemma_int_ckey(k as i64);
                    assert(!pm.contains_key(ckey(key)));
                }
                bucket_push(&mut b, (key, v));
                proof {
                    lemma_hashed_insert_new(map0, pm, key, v, b);
                }
                map.insert(h, b);
                proof {
                    assert(map@ =~= map0.insert(h, b));
                    pm = pm.insert(key, v);
                    assert(self.contents@.contains_key(key));
                }
            }
            k = k + 1;
        }
        proof {
            assert forall|x: Value| #[trigger] self.contents@.contains_key(x) implies pm.contains_key(x) by {
                if let Value::Int(t) = x {
                    assert(self.slots@[t as int] != SLOT_EMPTY);
                }
            }
            assert(pm =~= self.contents@);
        }
        self.dense = false;
        self.hashed = Some(map);
        self.hashed_len = self.dense_count;
        self.slots = Vec::new();
    }
}


proof fn lemma_ckey_int(key: Value, t: i64)
    requires
        ckey(key) == Value::Int(t),
    ensures
        key == Value::Int(t),
{
}

impl Store {
    /// Binds `key` to `val`: in place when the store is dense and the key and
    /// value fit the dense shape, otherwise in the hashed form, migrating to it
    /// first (for good) if the store is still dense.
    pub fn store_put(&mut self, key: Value, val: Value)
        requires
            old(self).wf(),
            !old(self).dropped,
            old(self).contents@.len() + 1 < usize::MAX,
        ensures
            final(self).wf(),
            !final(self).dropped,
            final(self).contents@ == old(self).contents@.insert(ckey(key), val),
    {
        if self.dense {
            match (dense_idx(key), slot_enc(val)) {
                (Some(i), Some(w)) => {
                    self.dense_put(i, w, Ghost(val));
                    proof {
                        lemma_int_ckey(i as i64);
                    }
                    return;
                },
                _ => {},
            }
            self.migrate_to_hashed();
        }
        self.hashed_put(key, val);
    }

    /// The value bound to `key`, if any.
    pub fn store_get(&self, key: Value) -> (r: Option<Value>)
        requires
            self.wf(),
            !self.dropped,
        ensures
            r == map_get(self.contents@, ckey(key)),
    {
        if self.dense {
            match dense_idx(key) {
                Some(i) => {
                    proof {
                        lemma_int_ckey(i as i64);
                    }
                    self.dense_get(i)
                },
                None => {
                    proof {
                        if self.contents@.contains_key(ckey(key)) {
                            if let Value::Int(t) = ckey(key) {
                                lemma_ckey_int(key, t);
                            }
                        }
                    }
                    None
                },
            }
        } else {
            self.hashed_get(key)
        }
    }

    /// Unbinds `key`.
    pub fn store_delete(&mut self, key: Value)
        requires
            old(self).wf(),
            !old(self).dropped,
        ensures
            final(self).wf(),
            !final(self).dropped,
            final(self).contents@ == old(self).contents@.remove(ckey(key)),
    {
        if self.dense {
            match dense_idx(key) {
                Some(i) => {
                    proof {
                        lemma_int_ckey(i as i64);
                    }
                    if i < self.slots.len() {
                        let old_word = self.slots[i];
                        self.slots.set(i, SLOT_EMPTY);
                        if old_word != SLOT_EMPTY {
                            self.dense_count = self.dense_count - 1;
                        }
                        self.contents = Ghost(self.contents@.remove(Value::Int(i as i64)));
                        proof {
                            let m = self.contents@;
                            let sl = self.slots@;
                            assert forall|k: int| 0 <= k < sl.len() implies (#[trigger] sl[k]
                                != SLOT_EMPTY <==> m.contains_key(Value::Int(k as i64))) by {
                                if k != i {
                                    assert(Value::Int(k as i64) != Value::Int(i as i64));
                                }
                            }
                            assert forall|k: int|
                                0 <= k < sl.len() && #[trigger] sl[k] != SLOT_EMPTY implies m[Value::Int(
                                k as i64,
                            )] == spec_slot_dec(sl[k])->0 by {
                                assert(k != i);
                                assert(Value::Int(k as i64) != Value::Int(i as i64));
                            }
                        }
                    } else {
                        proof {
                            assert(!self.contents@.contains_key(Value::Int(i as i64)));
                            assert(self.contents@.remove(Value::Int(i as i64)) =~= self.contents@);
                        }
                    }
                },
                None => {
                    proof {
                        if self.contents@.contains_key(ckey(key)) {
                            if let Value::Int(t) = ckey(key) {
                                lemma_ckey_int(key, t);
                            }
                        }
                        assert(self.contents@.remove(ckey(key)) =~= self.contents@);
                    }
                },
            }
        } else {
            self.hashed_delete(key);
        }
    }

    /// Adds `delta` to the integer under `key` (an absent key counting as 0) and
    /// returns the new integer; the key is left as it was when that fails.
    pub fn store_incr(&mut self, key: Value, delta: i64) -> (r: Result<i64, TableError>)
        requires
            old(self).wf(),
            !old(self).dropped,
            old(self).contents@.len() + 1 < usize::MAX,
        ensures
            final(self).wf(),
            !final(self).dropped,
            r == incr_outcome(map_get(old(self).contents@, ckey(key)), delta),
            r matches Ok(n) ==> final(self).contents@ == old(self).contents@.insert(
                ckey(key),
                Value::Int(n),
            ),
            r is Err ==> final(self).contents@ == old(self).contents@,
    {
        if self.dense {
            if let Some(i) = dense_idx(key) {
                proof {
                    lemma_int_ckey(i as i64);
                }
                self.cover(i);
                let s = self.slots[i];
                proof {
                    if s != SLOT_EMPTY {
                        lemma_slot_kind(s);
                    }
                }
                let cur: i64 = if s == SLOT_EMPTY {
                    0
                } else if s & INT_TAG != 0 {
                    (s as i64) >> 3u64
                } else {
                    return Err(TableError::NotAnInteger);
                };
                proof {
                    if s == SLOT_EMPTY {
                        assert(self.slots@[i as int] == s);
                        assert(!old(self).contents@.contains_key(Value::Int(i as i64)));
                        assert(map_get(old(self).contents@, ckey(key)) == None::<Value>);
                    } else {
                        assert(cur == word_int(s));
                        assert(self.slots@[i as int] == s);
                        assert(self.contents@ == old(self).contents@);
                        assert(self.contents@[Value::Int(i as i64)] == spec_slot_dec(s)->0);
                        assert(old(self).contents@.contains_key(Value::Int(i as i64)));
                        assert(old(self).contents@[Value::Int(i as i64)] == Value::Int(cur));
                        assert(map_get(old(self).contents@, ckey(key)) == Some(Value::Int(cur)));
                    }
                }
                let next = match cur.checked_add(delta) {
                    Some(n) => n,
                    None => return Err(TableError::IncrOverflow),
                };
                match slot_enc(Value::Int(next)) {
                    Some(word) => {
                        self.dense_put(i, word, Ghost(Value::Int(next)));
                        return Ok(next);
                    },
                    None => {},
                }
            }
            self.migrate_to_hashed();
        }
        self.incr_hashed(key, delta)
    }

    /// The number of bindings.
    pub fn store_count(&self) -> (r: usize)
        requires
            self.wf(),
            !self.dropped,
        ensures
            r == self.contents@.len(),
    {
        if self.dense {
            self.dense_count
        } else {
            self.hashed_len
        }
    }
}


/// The hashes a bucket map has buckets for, each once.
fn hash_keys(m: &HashMap<u64, Bucket>) -> (r: Vec<u64>)
    ensures
        r@.to_set() == m@.dom(),
        r@.no_duplicates(),
{
    let mut keys: Vec<u64> = Vec::new();
    let ghost full: Seq<u64> = m.keys().remaining().unref();
    for k in it: m.keys()
        invariant
            full == m.keys().remaining().unref(),
            full.to_set() == m@.dom(),
            full.no_duplicates(),
            it.seq().unref() == full,
            keys@ == full.take(it.index() as int),
    {
        proof {
            assert(full.take(it.index() + 1) == full.take(it.index() as int).push(full[it.index() as int]));
        }
        keys.push(*k);
    }
    proof {
        assert(full.take(full.len() as int) == full);
    }
    keys
}

/// The bindings of `m` whose keys hash into `hs`, or, for hash `h`, whose keys are
/// among the first `j` of bucket `b`.
pub open spec fn part_of(
    m: Map<Value, Value>,
    hs: Set<u64>,
    h: u64,
    b: Seq<(Value, Value)>,
    j: int,
) -> Map<Value, Value> {
    Map::new(
        |x: Value|
            m.contains_key(x) && (hs.contains(khash(x)) || (khash(x) == h && exists|q: int|
                0 <= q < j && ckey(#[trigger] b[q].0) == x)),
        |x: Value| m[x],
    )
}

impl Store {
    /// Every binding as a `(key, value)` pair, each key once: for a dense store in
    /// ascending key order, for a hashed one in bucket order.
    pub fn store_entries(&self) -> (r: Vec<(Value, Value)>)
        requires
            self.wf(),
            !self.dropped,
        ensures
            keys_distinct(r@),
            entries_view(r@) == self.contents@,
    {
        let mut out: Vec<(Value, Value)> = Vec::new();
        let ghost m = self.contents@;
        if self.dense {
            let n = self.slots.len();
            let mut k: usize = 0;
            proof {
                assert(entries_view(out@) =~= Map::new(
                    |x: Value| m.contains_key(x) && (x matches Value::Int(t) && t < 0),
                    |x: Value| m[x],
                ));
            }
            while k < n
                invariant
                    n == self.slots@.len(),
                    k <= n,
                    self.wf(),
                    self.dense,
                    m == self.contents@,
                    keys_distinct(out@),
                    entries_view(out@) == Map::new(
                        |x: Value| m.contains_key(x) && (x matches Value::Int(t) && t < k),
                        |x: Value| m[x],
                    ),
                decreases n - k,
            {
                let s = self.slots[k];
                if s != SLOT_EMPTY {
                    let v = match slot_dec(s) {
                        Some(v) => v,
                        None => Value::Nil,
                    };
                    let ghost before = out@;
                    let key = Value::Int(k as i64);
                    proof {
                        lemma_int_ckey(k as i64);
                        assert(!entries_view(before).contains_key(ckey(key)));
                    }
                    out.push((key, v));
                    proof {
                        lemma_entries_push(before, (key, v));
                        assert(m.contains_key(key));
                        assert(entries_view(out@) =~= Map::new(
                            |x: Value| m.contains_key(x) && (x matches Value::Int(t) && t < k + 1),
                            |x: Value| m[x],
                        ));
                    }
                } else {
                    proof {
                        assert(!m.contains_key(Value::Int(k as i64)));
                        assert(entries_view(out@) =~= Map::new(
                            |x: Value| m.contains_key(x) && (x matches Value::Int(t) && t < k + 1),
                            |x: Value| m[x],
                        ));
                    }
                }
                k = k + 1;
            }
            proof {
                assert(entries_view(out@) =~= m);
            }
            out
        } else {
            let hm = match &self.hashed {
                Some(hm) => hm,
                None => return out,
            };
            let hs = hash_keys(hm);
            let nh = hs.len();
            let mut a: usize = 0;
            proof {
                assert(entries_view(out@) =~= part_of(m, hs@.take(0).to_set(), 0, Seq::empty(), 0));
            }
            while a < nh
                invariant
                    nh == hs@.len(),
                    a <= nh,
                    hs@.to_set() == hm@.dom(),
                    hs@.no_duplicates(),
                    hashed_ok(hm@, m),
                    keys_distinct(out@),
                    entries_view(out@) == part_of(m, hs@.take(a as int).to_set(), 0, Seq::empty(), 0),
                decreases nh - a,
            {
                let h = hs[a];
                let ghost done_set = hs@.take(a as int).to_set();
                proof {
                    assert(!done_set.contains(h)) by {
                        if done_set.contains(h) {
                            let q = choose|q: int| 0 <= q < a && hs@.take(a as int)[q] == h;
                            assert(hs@[q] == hs@[a as int]);
                        }
                    }
                    assert(hs@.to_set().contains(h)) by {
                        assert(hs@[a as int] == h);
                    }
                }
                match hm.get(&h) {
                    Some(b) => {
                        let bl = bucket_len(b);
                        let ghost be = bucket_entries(*b);
                        let mut j: usize = 0;
                        proof {
                            assert(part_of(m, done_set, 0, Seq::empty(), 0) =~= part_of(
                                m,
                                done_set,
                                h,
                                be,
                                0,
                            ));
                        }
                        while j < bl
                            invariant
                                bl == be.len(),
                                be == bucket_entries(*b),
                                j <= bl,
                                be == bucket_entries(hm@[h]),
                                hm@.contains_key(h),
                                !done_set.contains(h),
                                hashed_ok(hm@, m),
                                keys_distinct(out@),
                                entries_view(out@) == part_of(m, done_set, h, be, j as int),
                            decreases bl - j,
                        {
                            let e = bucket_get(b, j);
                            let ghost before = out@;
                            proof {
                                assert(be[j as int] == e);
                                lemma_ckey_idem(e.0);
                                assert(!entries_view(before).contains_key(ckey(e.0))) by {
                                    if entries_view(before).contains_key(ckey(e.0)) {
                                        let q = choose|q: int|
                                            0 <= q < j && ckey(#[trigger] be[q].0) == ckey(e.0);
                                        assert(bucket_entries(hm@[h])[q] == be[q]);
                                    }
                                }
                            }
                            out.push(e);
                            proof {
                                lemma_entries_push(before, e);
                                let nxt = part_of(m, done_set, h, be, j as int + 1);
                                assert forall|x: Value|
                                    #[trigger] nxt.contains_key(x) == entries_view(out@).contains_key(x) by {
                                    if nxt.contains_key(x) && !done_set.contains(khash(x)) {
                                        let q = choose|q: int| 0 <= q < j + 1 && ckey(#[trigger] be[q].0) == x;
                                        if q < j {
                                            assert(part_of(m, done_set, h, be, j as int).contains_key(x));
                                        }
                                    }
                                    if entries_view(out@).contains_key(x) && x != ckey(e.0) {
                                        assert(part_of(m, done_set, h, be, j as int).contains_key(x));
                                        if !done_set.contains(khash(x)) {
                                            let q = choose|q: int| 0 <= q < j && ckey(#[trigger] be[q].0) == x;
                                            assert(0 <= q < j + 1 && ckey(be[q].0) == x);
                                        }
                                    }
                                    if x == ckey(e.0) {
                                        assert(0 <= j < j + 1 && ckey(be[j as int].0) == x);
                                    }
                                }
                                assert(entries_view(out@) =~= nxt);
                            }
                            j = j + 1;
                        }
                        proof {
                            let nd = hs@.take(a as int + 1).to_set();
                            assert(hs@.take(a as int + 1) =~= hs@.take(a as int).push(h));
                            crate::runtime_code::lemma_take_push_to_set(hs@, a as int);
                            assert forall|x: Value|
                                #[trigger] part_of(m, nd, 0, Seq::empty(), 0).contains_key(x) == entries_view(
                                    out@,
                                ).contains_key(x) by {
                                if m.contains_key(x) && khash(x) == h {
                                    let q = choose|q: int|
                                        0 <= q < bucket_entries(hm@[khash(x)]).len() && ckey(
                                            #[trigger] bucket_entries(hm@[khash(x)])[q].0,
                                        ) == x;
                                    assert(0 <= q < bl && ckey(be[q].0) == x);
                                }
                            }
                            assert(entries_view(out@) =~= part_of(m, nd, 0, Seq::empty(), 0));
                        }
                    },
                    None => {
                        proof {
                            assert(false);
                        }
                    },
                }
                a = a + 1;
            }
            proof {
                assert(hs@.take(nh as int) =~= hs@);
                assert(entries_view(out@) =~= m);
            }
            out
        }
    }
}


/// The stores a registry holds, in index order.
pub uninterp spec fn registry_stores(v: boxcar::Vec<Store>) -> Seq<Store>;

/// `boxcar::Vec::new`: an empty registry.
#[verifier::external_body]
fn stores_new() -> (r: boxcar::Vec<Store>)
    ensures
        registry_stores(r) == Seq::<Store>::empty(),
{
    boxcar::Vec::new()
}

/// `boxcar::Vec::push`: appends a store and returns the index it was written to.
/// It panics only past the vector's capacity of nearly `2^63` entries, so the
/// length is kept below `2^62`.
#[verifier::external_body]
fn stores_push(v: &mut boxcar::Vec<Store>, s: Store) -> (r: usize)
    requires
        registry_stores(*old(v)).len() < 0x4000_0000_0000_0000,
    ensures
        registry_stores(*final(v)) == registry_stores(*old(v)).push(s),
        r == registry_stores(*old(v)).len(),
{
    v.push(s)
}

/// `boxcar::Vec::count`: the number of stores.
#[verifier::external_body]
fn stores_count(v: &boxcar::Vec<Store>) -> (r: usize)
    ensures
        r == registry_stores(*v).len(),
{
    v.count()
}

/// `boxcar::Vec::get`: the store at `index`, or `None` past the end.
#[verifier::external_body]
fn stores_get(v: &boxcar::Vec<Store>, index: usize) -> (r: Option<&Store>)
    ensures
        index < registry_stores(*v).len() ==> r is Some && *r.unwrap() == registry_stores(*v)[index as int],
        index >= registry_stores(*v).len() ==> r is None,
{
    v.get(index)
}

/// `boxcar::Vec::get_mut`, written through: puts `s` at `index` and hands back
/// the store that was there.
#[verifier::external_body]
fn stores_replace(v: &mut boxcar::Vec<Store>, index: usize, s: Store) -> (r: Store)
    requires
        index < registry_stores(*old(v)).len(),
    ensures
        r == registry_stores(*old(v))[index as int],
        registry_stores(*final(v)) == registry_stores(*old(v)).update(index as int, s),
{
    std::mem::replace(v.get_mut(index).unwrap(), s)
}

/// The registry of shared tables. A handle `id` names the store at `id - 1`; 0 is
/// never a table. Stores are never removed: a dropped one is marked in place.
pub struct Tables {
    pub stores: boxcar::Vec<Store>,
}

impl Tables {
    /// The stores, in handle order.
    pub open spec fn stores(&self) -> Seq<Store> {
        registry_stores(self.stores)
    }

    pub open spec fn wf(&self) -> bool {
        forall|i: int| 0 <= i < self.stores().len() ==> (#[trigger] self.stores()[i]).wf()
    }

    /// `id` names a table that exists and has not been dropped.
    pub open spec fn live(&self, id: u64) -> bool {
        &&& 1 <= id <= self.stores().len()
        &&& !self.stores()[id - 1].dropped
    }

    /// What the table `id` holds.
    pub open spec fn contents(&self, id: u64) -> Map<Value, Value> {
        self.stores()[id - 1].contents@
    }

    /// The error an operation on a handle that names no live table reports.
    pub open spec fn missing(id: u64) -> TableError {
        if id == 0 {
            TableError::NoSuchTable(id)
        } else {
            TableError::Dropped(id)
        }
    }

    /// An empty registry.
    pub fn new() -> (r: Tables)
        ensures
            r.wf(),
            r.stores().len() == 0,
    {
        Tables { stores: stores_new() }
    }

    /// The store a handle names, or the error for a missing or dropped table.
    fn lookup(&self, id: u64) -> (r: Result<&Store, TableError>)
        requires
            self.wf(),
        ensures
            self.live(id) ==> r is Ok && *r.unwrap() == self.stores()[id - 1],
            !self.live(id) ==> r == Err::<&Store, TableError>(Tables::missing(id)),
    {
        if id == 0 {
            return Err(TableError::NoSuchTable(id));
        }
        let n = stores_count(&self.stores);
        if id - 1 >= n as u64 {
            return Err(TableError::Dropped(id));
        }
        let idx = (id - 1) as usize;
        match stores_get(&self.stores, idx) {
            Some(store) => {
                if store.dropped {
                    Err(TableError::Dropped(id))
                } else {
                    Ok(store)
                }
            },
            None => Err(TableError::Dropped(id)),
        }
    }
}

/// `(%table)`: creates an empty table and returns its handle.
pub fn create(tables: &mut Tables) -> (id: u64)
    requires
        old(tables).wf(),
        old(tables).stores().len() < 0x4000_0000_0000_0000,
    ensures
        final(tables).wf(),
        id == old(tables).stores().len() + 1,
        final(tables).stores().len() == old(tables).stores().len() + 1,
        forall|i: int| 0 <= i < old(tables).stores().len() ==> final(tables).stores()[i] == old(tables).stores()[i],
        final(tables).live(id),
        final(tables).contents(id) == Map::<Value, Value>::empty(),
{
    let idx = stores_push(&mut tables.stores, Store::new());
    proof {
        assert forall|i: int| 0 <= i < tables.stores().len() implies (#[trigger] tables.stores()[i]).wf() by {
            if i < old(tables).stores().len() {
                assert(tables.stores()[i] == old(tables).stores()[i]);
            }
        }
    }
    idx as u64 + 1
}


impl Tables {
    /// `new` is `self` with the live table `id` now holding `c`, every other table
    /// as it was.
    pub open spec fn with_contents(&self, new: &Tables, id: u64, c: Map<Value, Value>) -> bool {
        &&& new.stores().len() == self.stores().len()
        &&& forall|i: int|
            0 <= i < self.stores().len() && i != id - 1 ==> #[trigger] new.stores()[i]
                == self.stores()[i]
        &&& new.live(id)
        &&& new.contents(id) == c
    }

    /// The store index of a live table.
    fn live_index(&self, id: u64) -> (r: Option<usize>)
        requires
            self.wf(),
        ensures
            r is Some <==> self.live(id),
            r matches Some(i) ==> i == id - 1,
    {
        if id == 0 {
            return None;
        }
        let n = stores_count(&self.stores);
        if id - 1 >= n as u64 {
            return None;
        }
        let idx = (id - 1) as usize;
        match stores_get(&self.stores, idx) {
            Some(store) => if store.dropped {
                None
            } else {
                Some(idx)
            },
            None => None,
        }
    }
}

/// `(%table-drop t)`: marks a table dropped and releases what it held. Returns
/// whether it was live; dropping twice, or a handle that names nothing, is a no-op.
pub fn drop_table(tables: &mut Tables, id: u64) -> (r: bool)
    requires
        old(tables).wf(),
    ensures
        final(tables).wf(),
        r == old(tables).live(id),
        !final(tables).live(id),
        final(tables).stores().len() == old(tables).stores().len(),
        forall|i: int|
            0 <= i < old(tables).stores().len() && i != id - 1 ==> #[trigger] final(tables).stores()[i]
                == old(tables).stores()[i],
        !r ==> final(tables).stores() == old(tables).stores(),
{
    let idx = match tables.live_index(id) {
        Some(i) => i,
        None => return false,
    };
    let _old_store = stores_replace(
        &mut tables.stores,
        idx,
        Store {
            dense: false,
            slots: Vec::new(),
            dense_count: 0,
            hashed: None,
            hashed_len: 0,
            dropped: true,
            contents: Ghost(Map::empty()),
        },
    );
    proof {
        assert forall|i: int| 0 <= i < tables.stores().len() implies (#[trigger] tables.stores()[i]).wf() by {
            if i != idx {
                assert(tables.stores()[i] == old(tables).stores()[i]);
            }
        }
    }
    true
}

/// `(%table-count t)`: the number of entries.
pub fn count(tables: &Tables, id: u64) -> (r: Result<i64, TableError>)
    requires
        tables.wf(),
    ensures
        tables.live(id) ==> r == Ok::<i64, TableError>(tables.contents(id).len() as i64),
        !tables.live(id) ==> r == Err::<i64, TableError>(Tables::missing(id)),
{
    let store = tables.lookup(id)?;
    Ok(store.store_count() as i64)
}

/// `(%table-put t k v)`: binds `k` to `v`, replacing any binding of `k`. Returns
/// the table handle.
pub fn put(tables: &mut Tables, id: u64, key: Value, val: Value) -> (r: Result<u64, TableError>)
    requires
        old(tables).wf(),
        old(tables).live(id) ==> old(tables).contents(id).len() + 1 < usize::MAX,
    ensures
        final(tables).wf(),
        old(tables).live(id) ==> r == Ok::<u64, TableError>(id) && old(tables).with_contents(
            final(tables),
            id,
            old(tables).contents(id).insert(ckey(key), val),
        ),
        !old(tables).live(id) ==> r == Err::<u64, TableError>(Tables::missing(id))
            && final(tables).stores() == old(tables).stores(),
{
    let idx = match tables.live_index(id) {
        Some(i) => i,
        None => {
            proof {
                if id != 0 {
                    assert(Tables::missing(id) == TableError::Dropped(id));
                }
            }
            return if id == 0 {
                Err(TableError::NoSuchTable(id))
            } else {
                Err(TableError::Dropped(id))
            };
        },
    };
    let mut st = stores_replace(&mut tables.stores, idx, Store::new());
    st.store_put(key, val);
    stores_replace(&mut tables.stores, idx, st);
    proof {
        assert forall|i: int| 0 <= i < tables.stores().len() implies (#[trigger] tables.stores()[i]).wf() by {
            if i != idx {
                assert(tables.stores()[i] == old(tables).stores()[i]);
            }
        }
    }
    Ok(id)
}

/// `(%table-get t k default)`: the value bound to `k`, or `default`.
pub fn get(tables: &Tables, id: u64, key: Value, default: Value) -> (r: Result<Value, TableError>)
    requires
        tables.wf(),
    ensures
        tables.live(id) ==> r == Ok::<Value, TableError>(
            match map_get(tables.contents(id), ckey(key)) {
                Some(v) => v,
                None => default,
            },
        ),
        !tables.live(id) ==> r == Err::<Value, TableError>(Tables::missing(id)),
{
    let store = tables.lookup(id)?;
    match store.store_get(key) {
        Some(v) => Ok(v),
        None => Ok(default),
    }
}

/// `(%table-has? t k)`: whether `k` is bound.
pub fn has(tables: &Tables, id: u64, key: Value) -> (r: Result<bool, TableError>)
    requires
        tables.wf(),
    ensures
        tables.live(id) ==> r == Ok::<bool, TableError>(tables.contents(id).contains_key(ckey(key))),
        !tables.live(id) ==> r == Err::<bool, TableError>(Tables::missing(id)),
{
    let store = tables.lookup(id)?;
    Ok(store.store_get(key).is_some())
}

/// `(%table-delete t k)`: unbinds `k` if it is bound. Returns the table handle.
pub fn delete(tables: &mut Tables, id: u64, key: Value) -> (r: Result<u64, TableError>)
    requires
        old(tables).wf(),
    ensures
        final(tables).wf(),
        old(tables).live(id) ==> r == Ok::<u64, TableError>(id) && old(tables).with_contents(
            final(tables),
            id,
            old(tables).contents(id).remove(ckey(key)),
        ),
        !old(tables).live(id) ==> r == Err::<u64, TableError>(Tables::missing(id))
            && final(tables).stores() == old(tables).stores(),
{
    let idx = match tables.live_index(id) {
        Some(i) => i,
        None => {
            return if id == 0 {
                Err(TableError::NoSuchTable(id))
            } else {
                Err(TableError::Dropped(id))
            };
        },
    };
    let mut st = stores_replace(&mut tables.stores, idx, Store::new());
    st.store_delete(key);
    stores_replace(&mut tables.stores, idx, st);
    proof {
        assert forall|i: int| 0 <= i < tables.stores().len() implies (#[trigger] tables.stores()[i]).wf() by {
            if i != idx {
                assert(tables.stores()[i] == old(tables).stores()[i]);
            }
        }
    }
    Ok(id)
}

/// `(%table-incr t k delta)`: adds `delta` to the integer under `k` (an absent key
/// counting as 0) and returns the new integer. Fails, changing nothing, when the
/// value is not an integer, is an integer outside the `i64` range, or the sum
/// would leave that range.
pub fn incr(tables: &mut Tables, id: u64, key: Value, delta: i64) -> (r: Result<i64, TableError>)
    requires
        old(tables).wf(),
        old(tables).live(id) ==> old(tables).contents(id).len() + 1 < usize::MAX,
    ensures
        final(tables).wf(),
        old(tables).live(id) ==> {
            &&& r == incr_outcome(map_get(old(tables).contents(id), ckey(key)), delta)
            &&& r matches Ok(n) ==> old(tables).with_contents(
                final(tables),
                id,
                old(tables).contents(id).insert(ckey(key), Value::Int(n)),
            )
            &&& r is Err ==> old(tables).with_contents(final(tables), id, old(tables).contents(id))
        },
        !old(tables).live(id) ==> r == Err::<i64, TableError>(Tables::missing(id))
            && final(tables).stores() == old(tables).stores(),
{
    let idx = match tables.live_index(id) {
        Some(i) => i,
        None => {
            return if id == 0 {
                Err(TableError::NoSuchTable(id))
            } else {
                Err(TableError::Dropped(id))
            };
        },
    };
    let mut st = stores_replace(&mut tables.stores, idx, Store::new());
    let r = st.store_incr(key, delta);
    stores_replace(&mut tables.stores, idx, st);
    proof {
        assert forall|i: int| 0 <= i < tables.stores().len() implies (#[trigger] tables.stores()[i]).wf() by {
            if i != idx {
                assert(tables.stores()[i] == old(tables).stores()[i]);
            }
        }
    }
    r
}

/// `(%table-snapshot t)`: a copy of the whole table as an immutable map, built in
/// `heap`; later changes to the table do not reach it.
pub fn snapshot(heap: &mut Heap, tables: &Tables, id: u64) -> (r: Result<Value, TableError>)
    requires
        old(heap).maps.wf(),
        tables.wf(),
        tables.live(id) ==> old(heap).maps.nodes@.len() + 37 * (tables.contents(id).len() + 2)
            < 0xFFFF_0000,
        tables.live(id) ==> tables.contents(id).len() + 1 < 0x1_0000_0000,
    ensures
        *final(heap) == (Heap { maps: final(heap).maps, ..*old(heap) }),
        final(heap).maps.wf(),
        final(heap).maps.grows_from(&old(heap).maps),
        tables.live(id) ==> {
            &&& r is Ok
            &&& map_handle(r->Ok_0) is Some
            &&& final(heap).maps.is_root(map_handle(r->Ok_0)->0)
            &&& final(heap).maps.view_of(map_handle(r->Ok_0)->0) == tables.contents(id)
        },
        !tables.live(id) ==> r == Err::<Value, TableError>(Tables::missing(id)),
{
    let store = match tables.lookup(id) {
        Ok(s) => s,
        Err(e) => {
            proof {
                assert(heap.maps.grows_from(&old(heap).maps));
            }
            return Err(e);
        },
    };
    let pairs = store.store_entries();
    proof {
        crate::champ_view::lemma_entries(pairs@);
    }
    let v = heap.map_from_pairs(pairs);
    Ok(v)
}

/// Refuses a key that could never be found again: a closure, macro or builtin
/// (compared by identity, which a stored copy cannot keep) or NaN (never equal to
/// itself). Only the key itself is checked, not values nested inside it.
pub fn check_key(key: Value) -> (r: Result<(), TableError>)
    ensures
        r == (match key {
            Value::Fn(_) | Value::Macro(_) | Value::Native(_) => Err(TableError::IdentityKey(spec_tag(key))),
            Value::Float(bits) => if is_nan_bits(bits) {
                Err(TableError::NanKey)
            } else {
                Ok(())
            },
            _ => Ok(()),
        }),
{
    match key {
        Value::Fn(_) | Value::Macro(_) | Value::Native(_) => Err(TableError::IdentityKey(tag(key))),
        Value::Float(bits) => {
            if (bits >> 52u64) & 0x7FFu64 == 0x7FFu64 && bits & 0x000F_FFFF_FFFF_FFFFu64 != 0 {
                Err(TableError::NanKey)
            } else {
                Ok(())
            }
        },
        _ => Ok(()),
    }
}

/// The IEEE-754 bit pattern of a NaN: every exponent bit set and a non-zero
/// fraction.
pub open spec fn is_nan_bits(bits: u64) -> bool {
    (bits >> 52u64) & 0x7FFu64 == 0x7FFu64 && bits & 0x000F_FFFF_FFFF_FFFFu64 != 0
}


/// A table read gives back what the last write wrote.
pub proof fn law_table_get_after_put(c: Map<Value, Value>, key: Value, val: Value)
    ensures
        map_get(c.insert(ckey(key), val), ckey(key)) == Some(val),
{
}

/// After a delete the key is gone; every other key is untouched.
pub proof fn law_table_delete_then_has(c: Map<Value, Value>, key: Value, other: Value)
    ensures
        !c.remove(ckey(key)).contains_key(ckey(key)),
        ckey(other) != ckey(key) ==> map_get(c.remove(ckey(key)), ckey(other)) == map_get(
            c,
            ckey(other),
        ),
{
}

/// Increments compose: incrementing by `d1` and then by `d2` ends where one
/// increment by `d1 + d2` does, whenever both steps succeed.
pub proof fn law_incr_composes(c: Map<Value, Value>, key: Value, d1: i64, d2: i64)
    requires
        incr_outcome(map_get(c, ckey(key)), d1) is Ok,
        incr_outcome(
            Some(Value::Int(incr_outcome(map_get(c, ckey(key)), d1)->Ok_0)),
            d2,
        ) is Ok,
        i64::MIN <= d1 + d2 <= i64::MAX,
    ensures
        incr_outcome(map_get(c, ckey(key)), (d1 + d2) as i64) == incr_outcome(
            Some(Value::Int(incr_outcome(map_get(c, ckey(key)), d1)->Ok_0)),
            d2,
        ),
{
}

} // verus!
