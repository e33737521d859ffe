//! A per-process map that costs what it holds: its first few entries live in an
//! exact-capacity vector, and it turns into a hash map only past [`SPILL`]
//! entries. One entry costs one entry; the vector grows 1, 2, 4, 8 by
//! `reserve_exact`.

use vstd::prelude::*;
use std::collections::HashMap;
use vstd::std_specs::iter::IteratorSpec;

verus! {

broadcast use vstd::std_specs::hash::group_hash_axioms;

/// Entries beyond this many live in the hash map.
pub const SPILL: usize = 8;

/// A small map keyed by `u64`.
pub enum SmallMap<V> {
    /// Up to [`SPILL`] entries, unordered, keys unique.
    Inline(Vec<(u64, V)>),
    /// Past the spill point.
    Hashed(HashMap<u64, V>),
}

/// Do the entries have distinct keys?
pub open spec fn keys_unique<V>(s: Seq<(u64, V)>) -> bool {
    forall|i: int, j: int| 0 <= i < s.len() && 0 <= j < s.len() && i != j ==> s[i].0 != s[j].0
}

/// Does some entry have key `k`?
pub open spec fn has_key<V>(s: Seq<(u64, V)>, k: u64) -> bool {
    exists|i: int| 0 <= i < s.len() && s[i].0 == k
}

/// The map the entries describe.
pub open spec fn entries_map<V>(s: Seq<(u64, V)>) -> Map<u64, V> {
    Map::new(
        |k: u64| has_key(s, k),
        |k: u64| s[choose|i: int| 0 <= i < s.len() && s[i].0 == k].1,
    )
}

/// With distinct keys, the entry at `i` is what the map holds for its key.
pub proof fn lemma_entries_at<V>(s: Seq<(u64, V)>, i: int)
    requires
        keys_unique(s),
        0 <= i < s.len(),
    ensures
        entries_map(s).contains_key(s[i].0),
        entries_map(s)[s[i].0] == s[i].1,
{
    assert(has_key(s, s[i].0));
    let j = choose|j: int| 0 <= j < s.len() && s[j].0 == s[i].0;
}

/// Appending an entry with a new key inserts it into the map.
pub proof fn lemma_entries_push<V>(s: Seq<(u64, V)>, k: u64, v: V)
    requires
        keys_unique(s),
        !has_key(s, k),
    ensures
        keys_unique(s.push((k, v))),
        entries_map(s.push((k, v))) == entries_map(s).insert(k, v),
{
    let t = s.push((k, v));
    assert forall|x: u64| #[trigger] entries_map(t).contains_key(x) == entries_map(s).insert(k, v).contains_key(x) by {
        if has_key(s, x) {
            let i = choose|i: int| 0 <= i < s.len() && s[i].0 == x;
            assert(t[i].0 == x);
        }
        if x == k {
            assert(t[s.len() as int].0 == k);
        }
    }
    assert forall|x: u64| entries_map(t).contains_key(x) implies entries_map(t)[x] == entries_map(s).insert(k, v)[x] by {
        let j = choose|j: int| 0 <= j < t.len() && t[j].0 == x;
        if x == k {
            assert(j == s.len());
        } else {
            let i = choose|i: int| 0 <= i < s.len() && s[i].0 == x;
            assert(t[i].0 == x);
            assert(i == j);
        }
    }
    assert(entries_map(t) =~= entries_map(s).insert(k, v));
}

/// Overwriting the value of entry `i` overwrites its key in the map.
pub proof fn lemma_entries_update<V>(s: Seq<(u64, V)>, i: int, v: V)
    requires
        keys_unique(s),
        0 <= i < s.len(),
    ensures
        keys_unique(s.update(i, (s[i].0, v))),
        entries_map(s.update(i, (s[i].0, v))) == entries_map(s).insert(s[i].0, v),
{
    let k = s[i].0;
    let t = s.update(i, (k, v));
    assert forall|x: u64| #[trigger] entries_map(t).contains_key(x) == entries_map(s).insert(k, v).contains_key(x) by {
        if has_key(s, x) {
            let j = choose|j: int| 0 <= j < s.len() && s[j].0 == x;
            assert(t[j].0 == x);
        }
        if has_key(t, x) {
            let j = choose|j: int| 0 <= j < t.len() && t[j].0 == x;
            assert(s[j].0 == x);
        }
    }
    assert forall|x: u64| entries_map(t).contains_key(x) implies entries_map(t)[x] == entries_map(s).insert(k, v)[x] by {
        let j = choose|j: int| 0 <= j < t.len() && t[j].0 == x;
        if x == k {
            assert(j == i);
        } else {
            let jj = choose|jj: int| 0 <= jj < s.len() && s[jj].0 == x;
            assert(t[jj].0 == x);
            assert(jj == j);
        }
    }
    assert(entries_map(t) =~= entries_map(s).insert(k, v));
}

/// The capacity of a vector, read through `Vec::capacity`, which is never below
/// the vector's length.
#[verifier::external_body]
fn vec_capacity<V>(v: &Vec<(u64, V)>) -> (r: usize)
    ensures
        r >= v@.len(),
{
    v.capacity()
}

/// Reserve room through `Vec::reserve_exact`, which leaves the elements as they
/// are.
#[verifier::external_body]
fn vec_reserve_exact<V>(v: &mut Vec<(u64, V)>, additional: usize)
    ensures
        final(v)@ == old(v)@,
{
    v.reserve_exact(additional)
}

/// The capacity of a hash map, read through `HashMap::capacity`: at least as
/// many entries as it holds.
#[verifier::external_body]
fn map_capacity<V>(m: &HashMap<u64, V>) -> (r: usize)
    ensures
        r >= m@.len(),
{
    m.capacity()
}

/// Release spare room through `Vec::shrink_to_fit`, which leaves the elements
/// as they are.
#[verifier::external_body]
fn vec_shrink<V>(v: &mut Vec<(u64, V)>)
    ensures
        final(v)@ == old(v)@,
{
    v.shrink_to_fit()
}

/// Release spare room through `HashMap::shrink_to_fit`, which leaves the
/// entries as they are.
#[verifier::external_body]
fn map_shrink<V>(m: &mut HashMap<u64, V>)
    ensures
        final(m)@ == old(m)@,
{
    m.shrink_to_fit()
}

impl<V> SmallMap<V> {
    /// The entries, as a map.
    pub open spec fn view(&self) -> Map<u64, V> {
        match self {
            SmallMap::Inline(v) => entries_map(v@),
            SmallMap::Hashed(m) => m@,
        }
    }

    /// The invariant: inline entries have distinct keys and are at most
    /// [`SPILL`].
    pub open spec fn wf(&self) -> bool {
        match self {
            SmallMap::Inline(v) => keys_unique(v@) && v@.len() <= SPILL,
            SmallMap::Hashed(_) => true,
        }
    }

    /// Is the map still in its inline shape?
    pub open spec fn spec_is_inline(&self) -> bool {
        self is Inline
    }

    /// An empty map, holding no storage.
    pub fn new() -> (r: SmallMap<V>)
        ensures
            r.wf(),
            r@ == Map::<u64, V>::empty(),
            r.spec_is_inline(),
    {
        let r = SmallMap::Inline(Vec::new());
        proof {
            assert(entries_map(Seq::<(u64, V)>::empty()) =~= Map::<u64, V>::empty());
        }
        r
    }

    /// Is the map still in its inline shape?
    pub fn is_inline(&self) -> (r: bool)
        ensures
            r == self.spec_is_inline(),
    {
        match self {
            SmallMap::Inline(_) => true,
            SmallMap::Hashed(_) => false,
        }
    }

    /// The value for `k`.
    #[verifier::loop_isolation(false)]
    pub fn get(&self, k: &u64) -> (r: Option<&V>)
        requires
            self.wf(),
        ensures
            r is Some <==> self@.contains_key(*k),
            r matches Some(v) ==> *v == self@[*k],
    {
        match self {
            SmallMap::Inline(v) => {
                let mut i: usize = 0;
                while i < v.len()
                    invariant
                        i <= v@.len(),
                        keys_unique(v@),
                        forall|j: int| 0 <= j < i ==> v@[j].0 != *k,
                    decreases v@.len() - i,
                {
                    if v[i].0 == *k {
                        proof {
                            lemma_entries_at(v@, i as int);
                        }
                        return Some(&v[i].1);
                    }
                    i = i + 1;
                }
                None
            },
            SmallMap::Hashed(m) => m.get(k),
        }
    }

    /// Insert or overwrite, returning the previous value for `k`. The ninth
    /// distinct key moves the entries into a hash map.
    #[verifier::loop_isolation(false)]
    pub fn insert(&mut self, k: u64, val: V) -> (r: Option<V>)
        requires
            old(self).wf(),
        ensures
            final(self).wf(),
            final(self)@ == old(self)@.insert(k, val),
            r is Some <==> old(self)@.contains_key(k),
            r matches Some(p) ==> p == old(self)@[k],
            final(self).spec_is_inline() <==> (old(self).spec_is_inline() && (old(self)@.contains_key(k)
                || old(self)@.len() < SPILL)),
    {
        match self {
            SmallMap::Inline(v) => {
                let ghost v0 = v@;
                proof {
                    lemma_entries_len(v@);
                    assert(old(self)@ == entries_map(v0));
                }
                let mut i: usize = 0;
                while i < v.len()
                    invariant
                        i <= v@.len(),
                        v@ == v0,
                        keys_unique(v@),
                        v@.len() <= SPILL,
                        forall|j: int| 0 <= j < i ==> v@[j].0 != k,
                    decreases v@.len() - i,
                {
                    if v[i].0 == k {
                        let ghost before = v@;
                        let entry = v.remove(i);
                        let prev = entry.1;
                        v.insert(i, (k, val));
                        proof {
                            lemma_entries_at(before, i as int);
                            assert(v@ =~= before.update(i as int, (k, val)));
                            lemma_entries_update(before, i as int, val);
                        }
                        return Some(prev);
                    }
                    i = i + 1;
                }
                proof {
                    assert(!has_key(v@, k));
                    assert(!old(self)@.contains_key(k));
                }
                let ghost orig = v@;
                if v.len() < SPILL {
                    let cap = vec_capacity(v);
                    if v.len() == cap {
                        let want: usize = if cap == 0 {
                            1
                        } else {
                            cap * 2
                        };
                        let want = if want < SPILL {
                            want
                        } else {
                            SPILL
                        };
                        vec_reserve_exact(v, want - v.len());
                    }
                    let ghost before = v@;
                    proof {
                        assert(before == orig);
                    }
                    v.push((k, val));
                    proof {
                        lemma_entries_push(before, k, val);
                        lemma_entries_len(orig);
                    }
                    return None;
                }
                let mut m: HashMap<u64, V> = HashMap::with_capacity(SPILL * 2);
                let ghost all = v@;
                let mut rest: Vec<(u64, V)> = Vec::new();
                std::mem::swap(v, &mut rest);
                let mut taken: usize = 0;
                while rest.len() > 0
                    invariant
                        keys_unique(all),
                        all.len() <= SPILL,
                        !has_key(all, k),
                        taken + rest@.len() == all.len(),
                        rest@ == all.take(rest@.len() as int),
                        forall|x: u64| #[trigger] m@.contains_key(x) <==> exists|j: int|
                            rest@.len() <= j < all.len() && all[j].0 == x,
                        forall|j: int| rest@.len() <= j < all.len() ==> #[trigger] m@[all[j].0] == all[j].1,
                    decreases rest@.len(),
                {
                    let ghost n = rest@.len();
                    let (kk, vv) = rest.pop().unwrap();
                    proof {
                        assert(all[n - 1] == (kk, vv));
                        assert(rest@ =~= all.take(n - 1));
                    }
                    m.insert(kk, vv);
                    taken = taken + 1;
                    proof {
                        assert forall|x: u64| #[trigger] m@.contains_key(x) <==> exists|j: int|
                            rest@.len() <= j < all.len() && all[j].0 == x by {
                            if x == kk {
                                assert(all[n - 1].0 == x);
                            }
                        }
                        assert forall|j: int| rest@.len() <= j < all.len() implies #[trigger] m@[all[j].0] == all[j].1 by {
                            if j != n - 1 {
                                assert(all[j].0 != all[n - 1].0);
                            }
                        }
                    }
                }
                m.insert(k, val);
                proof {
                    assert forall|x: u64| #[trigger] m@.contains_key(x) == entries_map(all).insert(k, val).contains_key(x) by {
                        if has_key(all, x) {
                            let j = choose|j: int| 0 <= j < all.len() && all[j].0 == x;
                        }
                    }
                    assert forall|x: u64| m@.contains_key(x) implies m@[x] == entries_map(all).insert(k, val)[x] by {
                        if x != k {
                            let j = choose|j: int| 0 <= j < all.len() && all[j].0 == x;
                            lemma_entries_at(all, j);
                        }
                    }
                    assert(m@ =~= entries_map(all).insert(k, val));
                }
                *self = SmallMap::Hashed(m);
                None
            },
            SmallMap::Hashed(m) => m.insert(k, val),
        }
    }

    /// Keep only the entries `keep` accepts.
    pub fn retain<F: Fn(&u64, &V) -> bool>(&mut self, keep: F)
        requires
            old(self).wf(),
            forall|k: u64, v: V| keep.requires((&k, &v)),
        ensures
            final(self).wf(),
            final(self).spec_is_inline() == old(self).spec_is_inline(),
            forall|k: u64|
                #[trigger] final(self)@.contains_key(k) ==> old(self)@.contains_key(k) && final(self)@[k]
                    == old(self)@[k] && keep.ensures((&k, &old(self)@[k]), true),
            forall|k: u64|
                #[trigger] old(self)@.contains_key(k) && !final(self)@.contains_key(k) ==> keep.ensures(
                    (&k, &old(self)@[k]),
                    false,
                ),
    {
        match self {
            SmallMap::Inline(v) => {
                let ghost all = v@;
                proof {
                    assert(old(self)@ == entries_map(all));
                }
                let mut rest: Vec<(u64, V)> = Vec::new();
                std::mem::swap(v, &mut rest);
                let mut out: Vec<(u64, V)> = Vec::new();
                let mut i: usize = 0;
                while rest.len() > 0
                    invariant
                        keys_unique(all),
                        all.len() <= SPILL,
                        forall|k: u64, v: V| keep.requires((&k, &v)),
                        i + rest@.len() == all.len(),
                        rest@ == all.skip(i as int),
                        keys_unique(out@),
                        out@.len() <= i,
                        forall|j: int|
                            #![trigger out@[j]]
                            0 <= j < out@.len() ==> exists|a: int|
                                0 <= a < i && #[trigger] all[a] == out@[j] && keep.ensures((&all[a].0, &all[a].1), true),
                        forall|a: int|
                            0 <= a < i ==> has_key(out@, #[trigger] all[a].0) || keep.ensures(
                                (&all[a].0, &all[a].1),
                                false,
                            ),
                    decreases rest@.len(),
                {
                    let ghost r0 = rest@;
                    let (k, val) = rest.remove(0);
                    proof {
                        assert(all[i as int] == (k, val));
                        assert(rest@ =~= all.skip(i + 1));
                    }
                    let kept = keep(&k, &val);
                    if kept {
                        let ghost o0 = out@;
                        proof {
                            assert(!has_key(o0, k)) by {
                                if has_key(o0, k) {
                                    let j = choose|j: int| 0 <= j < o0.len() && o0[j].0 == k;
                                    let a = choose|a: int| 0 <= a < i && #[trigger] all[a] == o0[j] && keep.ensures((&all[a].0, &all[a].1), true);
                                    assert(all[a].0 == all[i as int].0);
                                }
                            }
                        }
                        out.push((k, val));
                        proof {
                            assert forall|j: int| #![trigger out@[j]] 0 <= j < out@.len() implies exists|a: int|
                                0 <= a < i + 1 && #[trigger] all[a] == out@[j] && keep.ensures((&all[a].0, &all[a].1), true) by {
                                if j < o0.len() {
                                    assert(out@[j] == o0[j]);
                                } else {
                                    assert(all[i as int] == out@[j]);
                                }
                            }
                            assert forall|a: int| 0 <= a < i + 1 implies has_key(out@, #[trigger] all[a].0) || keep.ensures(
                                (&all[a].0, &all[a].1),
                                false,
                            ) by {
                                if a < i {
                                    if has_key(o0, all[a].0) {
                                        let j = choose|j: int| 0 <= j < o0.len() && o0[j].0 == all[a].0;
                                        assert(out@[j] == o0[j]);
                                    }
                                } else {
                                    assert(out@[o0.len() as int].0 == k);
                                }
                            }
                            lemma_entries_push(o0, k, val);
                        }
                    } else {
                        proof {
                            assert forall|a: int| 0 <= a < i + 1 implies has_key(out@, #[trigger] all[a].0) || keep.ensures(
                                (&all[a].0, &all[a].1),
                                false,
                            ) by {
                            }
                        }
                    }
                    i = i + 1;
                }
                proof {
                    let m = entries_map(out@);
                    assert forall|k: u64| #[trigger] m.contains_key(k) implies entries_map(all).contains_key(k)
                        && m[k] == entries_map(all)[k] && keep.ensures((&k, &entries_map(all)[k]), true) by {
                        let j = choose|j: int| 0 <= j < out@.len() && out@[j].0 == k;
                        lemma_entries_at(out@, j);
                        let a = choose|a: int| 0 <= a < i && #[trigger] all[a] == out@[j] && keep.ensures((&all[a].0, &all[a].1), true);
                        lemma_entries_at(all, a);
                    }
                    assert forall|k: u64| #[trigger] entries_map(all).contains_key(k) && !m.contains_key(k) implies keep.ensures(
                        (&k, &entries_map(all)[k]),
                        false,
                    ) by {
                        let a = choose|a: int| 0 <= a < all.len() && all[a].0 == k;
                        lemma_entries_at(all, a);
                        assert(!has_key(out@, all[a].0));
                    }
                }
                *v = out;
            },
            SmallMap::Hashed(m) => {
                let ghost m0 = m@;
                let mut keys: Vec<u64> = Vec::new();
                let ghost full: Seq<u64> = m.keys().remaining().unref();
                for kk in it: m.keys()
                    invariant
                        full == m.keys().remaining().unref(),
                        full.to_set() == m@.dom(),
                        full.no_duplicates(),
                        it.seq().unref() == full,
                        keys@ == full.take(it.index() as int),
                {
                    proof {
                        assert(full.take(it.index() + 1) == full.take(it.index() as int).push(full[it.index() as int]));
                    }
                    keys.push(*kk);
                }
                proof {
                    assert(full.take(full.len() as int) == full);
                }
                let mut i: usize = 0;
                while i < keys.len()
                    invariant
                        forall|k: u64, v: V| keep.requires((&k, &v)),
                        keys@.to_set() == m0.dom(),
                        keys@.no_duplicates(),
                        i <= keys@.len(),
                        forall|k: u64| #[trigger] m@.contains_key(k) ==> m0.contains_key(k) && m@[k] == m0[k],
                        forall|k: u64|
                            m0.contains_key(k) && !keys@.take(i as int).contains(k) ==> #[trigger] m@.contains_key(k),
                        forall|k: u64|
                            #[trigger] m0.contains_key(k) && keys@.take(i as int).contains(k) ==> (if m@.contains_key(k) {
                                keep.ensures((&k, &m0[k]), true)
                            } else {
                                keep.ensures((&k, &m0[k]), false)
                            }),
                    decreases keys@.len() - i,
                {
                    let k = keys[i];
                    proof {
                        assert(keys@.to_set().contains(k));
                        assert(!keys@.take(i as int).contains(k)) by {
                            if keys@.take(i as int).contains(k) {
                                let j = choose|j: int| 0 <= j < i && keys@.take(i as int)[j] == k;
                                assert(keys@[j] == keys@[i as int]);
                            }
                        }
                        assert(keys@.take(i + 1) =~= keys@.take(i as int).push(k));
                    }
                    let ghost mb = m@;
                    let drop = match m.get(&k) {
                        Some(val) => !keep(&k, val),
                        None => false,
                    };
                    if drop {
                        m.remove(&k);
                    }
                    proof {
                        assert forall|k2: u64|
                            m0.contains_key(k2) && !keys@.take(i + 1).contains(k2) implies #[trigger] m@.contains_key(k2) by {
                            if keys@.take(i as int).contains(k2) {
                                let j = choose|j: int| 0 <= j < i && keys@.take(i as int)[j] == k2;
                                assert(keys@.take(i + 1)[j] == k2);
                            }
                            assert(mb.contains_key(k2));
                            assert(k2 != k) by {
                                assert(keys@.take(i + 1)[i as int] == k);
                            }
                        }
                    }
                    i = i + 1;
                }
                proof {
                    assert(keys@.take(keys@.len() as int) == keys@);
                    assert forall|k: u64| #[trigger] m0.contains_key(k) && !m@.contains_key(k) implies keep.ensures(
                        (&k, &m0[k]),
                        false,
                    ) by {
                        assert(keys@.to_set().contains(k));
                    }
                    assert forall|k: u64| #[trigger] m@.contains_key(k) implies keep.ensures((&k, &m0[k]), true) by {
                        assert(keys@.to_set().contains(k));
                    }
                }
            },
        }
    }

    /// Every value, once per entry.
    pub fn values(&self) -> (r: Vec<V>)
        where
            V: Copy,
        requires
            self.wf(),
        ensures
            r@.len() == self@.len(),
            r@.to_set() == self@.values(),
    {
        match self {
            SmallMap::Inline(v) => {
                let mut out: Vec<V> = Vec::new();
                let mut i: usize = 0;
                proof {
                    lemma_entries_len(v@);
                }
                while i < v.len()
                    invariant
                        i <= v@.len(),
                        keys_unique(v@),
                        out@ == v@.take(i as int).map_values(|e: (u64, V)| e.1),
                    decreases v@.len() - i,
                {
                    out.push(v[i].1);
                    proof {
                        assert(v@.take(i + 1).map_values(|e: (u64, V)| e.1) =~= v@.take(i as int).map_values(|e: (u64, V)| e.1).push(v@[i as int].1));
                    }
                    i = i + 1;
                }
                proof {
                    assert(v@.take(v@.len() as int) == v@);
                    let vals = v@.map_values(|e: (u64, V)| e.1);
                    assert forall|x: V| #[trigger] vals.to_set().contains(x) == entries_map(v@).values().contains(x) by {
                        if vals.contains(x) {
                            let j = choose|j: int| 0 <= j < vals.len() && vals[j] == x;
                            lemma_entries_at(v@, j);
                        }
                        if entries_map(v@).values().contains(x) {
                            let k = choose|k: u64| entries_map(v@).contains_key(k) && entries_map(v@)[k] == x;
                            let j = choose|j: int| 0 <= j < v@.len() && v@[j].0 == k;
                            lemma_entries_at(v@, j);
                            assert(vals[j] == x);
                        }
                    }
                    assert(vals.to_set() =~= entries_map(v@).values());
                }
                out
            },
            SmallMap::Hashed(m) => {
                let mut out: Vec<V> = Vec::new();
                let ghost full: Seq<V> = m.values().remaining().unref();
                for x in it: m.values()
                    invariant
                        full == m.values().remaining().unref(),
                        full.to_set() == m@.values(),
                        full.len() == m@.dom().len(),
                        it.seq().unref() == full,
                        out@ == full.take(it.index() as int),
                {
                    proof {
                        assert(full.take(it.index() + 1) == full.take(it.index() as int).push(full[it.index() as int]));
                    }
                    out.push(*x);
                }
                proof {
                    assert(full.take(full.len() as int) == full);
                }
                out
            },
        }
    }

    /// Drop every entry and release the storage.
    pub fn clear(&mut self)
        ensures
            final(self).wf(),
            final(self)@ == Map::<u64, V>::empty(),
            final(self).spec_is_inline(),
    {
        *self = SmallMap::new();
    }

    /// The number of entries.
    pub fn len(&self) -> (r: usize)
        requires
            self.wf(),
        ensures
            r == self@.len(),
    {
        match self {
            SmallMap::Inline(v) => {
                proof {
                    lemma_entries_len(v@);
                }
                v.len()
            },
            SmallMap::Hashed(m) => m.len(),
        }
    }

    /// The slots allocated: at least the number of entries.
    pub fn capacity(&self) -> (r: usize)
        requires
            self.wf(),
        ensures
            r >= self@.len(),
    {
        match self {
            SmallMap::Inline(v) => {
                proof {
                    lemma_entries_len(v@);
                }
                vec_capacity(v)
            },
            SmallMap::Hashed(m) => map_capacity(m),
        }
    }

    /// Release spare storage; the entries stay as they are.
    pub fn shrink_to_fit(&mut self)
        ensures
            final(self)@ == old(self)@,
            final(self).wf() == old(self).wf(),
            final(self).spec_is_inline() == old(self).spec_is_inline(),
    {
        match self {
            SmallMap::Inline(v) => vec_shrink(v),
            SmallMap::Hashed(m) => map_shrink(m),
        }
    }
}

/// Distinct keys make as many map entries as there are entries.
pub proof fn lemma_entries_len<V>(s: Seq<(u64, V)>)
    requires
        keys_unique(s),
    ensures
        entries_map(s).len() == s.len(),
        entries_map(s).dom().finite(),
    decreases s.len(),
{
    if s.len() == 0 {
        assert(entries_map(s).dom() =~= Set::<u64>::empty());
    } else {
        let t = s.drop_last();
        let last = s[s.len() - 1];
        assert(keys_unique(t));
        assert(!has_key(t, last.0)) by {
            if has_key(t, last.0) {
                let j = choose|j: int| 0 <= j < t.len() && t[j].0 == last.0;
                assert(s[j].0 == s[s.len() - 1].0);
            }
        }
        lemma_entries_len(t);
        lemma_entries_push(t, last.0, last.1);
        assert(t.push(last) =~= s);
    }
}

} // verus!
