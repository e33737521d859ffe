//! What a CHAMP trie in a node arena means: the map each node's subtree holds,
//! and the facts about those maps that the trie operations rest on.

use vstd::prelude::*;
use crate::value::{Value, spec_canonical};
use crate::champ::{
    spec_slot_at, bit_set, bits_below, popcount, lemma_bit_or, lemma_bit_xor,
    lemma_bits_below_mono, lemma_bits_below_injective, lemma_rank_lt_popcount,
    lemma_bits_below_insert, lemma_bits_below_remove, lemma_bit_zero,
};
use crate::champ_map::{MapNode, ckey, khash};

verus! {

/// The map a list of entries describes, by key identity; a later entry for the
/// same key wins.
pub open spec fn entries_view(s: Seq<(Value, Value)>) -> Map<Value, Value>
    decreases s.len(),
{
    if s.len() == 0 {
        Map::empty()
    } else {
        entries_view(s.drop_last()).insert(ckey(s.last().0), s.last().1)
    }
}

/// No two entries share a key identity.
pub open spec fn keys_distinct(s: Seq<(Value, Value)>) -> bool {
    forall|p: int, q: int|
        0 <= p < s.len() && 0 <= q < s.len() && p != q ==> ckey(#[trigger] s[p].0) != ckey(
            #[trigger] s[q].0,
        )
}

/// The entry a branch keeps inline at slot `s`.
pub open spec fn slot_entry(n: MapNode, s: int) -> (Value, Value) {
    n.entries()[bits_below(n.data_map, s) as int]
}

/// The arena index of the child a branch keeps at slot `s`.
pub open spec fn slot_child(n: MapNode, s: int) -> int {
    n.kids()[bits_below(n.node_map, s) as int].spec_index() as int
}

/// What slot `s` of node `i` holds, as a map.
pub open spec fn slot_view(a: Seq<MapNode>, i: int, s: int) -> Map<Value, Value>
    decreases i, s,
{
    if !(0 <= i < a.len()) || !(0 <= s < 16) {
        Map::empty()
    } else {
        let n = a[i];
        if bit_set(n.data_map, s) && bits_below(n.data_map, s) < n.entries().len() {
            let e = slot_entry(n, s);
            Map::empty().insert(ckey(e.0), e.1)
        } else if bit_set(n.node_map, s) && bits_below(n.node_map, s) < n.kids().len() {
            let c = slot_child(n, s);
            if 0 <= c < i {
                trie_view(a, c)
            } else {
                Map::empty()
            }
        } else {
            Map::empty()
        }
    }
}

/// What the slots below `s` of node `i` hold, together.
pub open spec fn prefix_view(a: Seq<MapNode>, i: int, s: int) -> Map<Value, Value>
    decreases i, s,
{
    if !(0 <= i < a.len()) || s <= 0 || s > 16 {
        Map::empty()
    } else {
        prefix_view(a, i, s - 1).union_prefer_right(slot_view(a, i, s - 1))
    }
}

/// The map the trie rooted at node `i` holds.
pub open spec fn trie_view(a: Seq<MapNode>, i: int) -> Map<Value, Value>
    decreases i, 17int,
{
    if !(0 <= i < a.len()) {
        Map::empty()
    } else if a[i].is_collision {
        entries_view(a[i].entries())
    } else {
        prefix_view(a, i, 16)
    }
}

/// The slot a key falls in at trie depth `d`.
pub open spec fn kslot(x: Value, d: nat) -> int {
    spec_slot_at(khash(x), d as u32) as int
}

/// Every key a slot of branch `i` holds belongs in that slot at depth `d`.
pub open spec fn slots_ok(a: Seq<MapNode>, i: int, d: nat) -> bool {
    forall|s: int, x: Value|
        0 <= s < 16 && #[trigger] slot_view(a, i, s).contains_key(x) ==> kslot(x, d) == s
}

/// `b` keeps every node of `a` in place.
pub open spec fn extends(b: Seq<MapNode>, a: Seq<MapNode>) -> bool {
    a.len() <= b.len() && forall|j: int| 0 <= j < a.len() ==> b[j] == a[j]
}

/// The well-formedness of node `i`, which sits at depth `d[i]` of every trie
/// that reaches it.
pub open spec fn node_ok(a: Seq<MapNode>, d: Seq<nat>, i: int) -> bool {
    let n = a[i];
    &&& n.size == trie_view(a, i).len()
    &&& if n.is_collision {
        keys_distinct(n.entries())
    } else {
        &&& d[i] < 16
        &&& n.data_map & n.node_map == 0
        &&& n.entries().len() == popcount(n.data_map)
        &&& n.kids().len() == popcount(n.node_map)
        &&& slots_ok(a, i, d[i])
        &&& forall|s: int|
            #![trigger bit_set(n.node_map, s)]
            0 <= s < 16 && bit_set(n.node_map, s) ==> {
                let c = slot_child(n, s);
                0 <= c < i && d[c] == d[i] + 1
            }
    }
}

/// Every node of the arena is well formed.
pub open spec fn arena_ok(a: Seq<MapNode>, d: Seq<nat>) -> bool {
    &&& a.len() == d.len()
    &&& forall|i: int| 0 <= i < a.len() ==> #[trigger] node_ok(a, d, i)
}

proof fn lemma_canon_idem(b: u64)
    ensures
        spec_canonical(spec_canonical(b)) == spec_canonical(b),
{
    assert(((b & !0x1FFF_FFFF_0000_0000u64) & !0x1FFF_FFFF_0000_0000u64) == (b
        & !0x1FFF_FFFF_0000_0000u64)) by (bit_vector);
}

/// A key identity is its own identity, so it hashes as the key does.
pub proof fn lemma_ckey_idem(k: Value)
    ensures
        ckey(ckey(k)) == ckey(k),
        khash(ckey(k)) == khash(k),
{
    match k {
        Value::BigInt(h) => lemma_canon_idem(h.0),
        Value::Str(h) => lemma_canon_idem(h.0),
        Value::Rope(h) => lemma_canon_idem(h.0),
        Value::Pair(h) => lemma_canon_idem(h.0),
        Value::Vector(h) => lemma_canon_idem(h.0),
        Value::Mapping(h) => lemma_canon_idem(h.0),
        Value::Fn(h) => lemma_canon_idem(h.0),
        Value::Macro(h) => lemma_canon_idem(h.0),
        Value::Native(h) => lemma_canon_idem(h.0),
        Value::Transient(h) => lemma_canon_idem(h.0),
        _ => {},
    }
}

/// A slot is one of sixteen.
pub proof fn lemma_kslot_range(x: Value, d: nat)
    ensures
        0 <= kslot(x, d) < 16,
{
    let h = khash(x);
    let sh = ((d as u32) * 4) as u64;
    assert((h >> sh) & 0xFu64 <= 0xFu64) by (bit_vector);
}

/// The shape of an entry list's map: finite, keyed by the entries' identities,
/// and, when no key repeats, one key per entry with that entry's value.
pub proof fn lemma_entries(s: Seq<(Value, Value)>)
    ensures
        entries_view(s).dom().finite(),
        entries_view(s).len() <= s.len(),
        forall|x: Value| #[trigger]
            entries_view(s).contains_key(x) ==> exists|p: int|
                0 <= p < s.len() && ckey(s[p].0) == x,
        forall|p: int| 0 <= p < s.len() ==> entries_view(s).contains_key(ckey(#[trigger] s[p].0)),
        keys_distinct(s) ==> entries_view(s).len() == s.len(),
        keys_distinct(s) ==> forall|p: int|
            0 <= p < s.len() ==> entries_view(s)[ckey(#[trigger] s[p].0)] == s[p].1,
    decreases s.len(),
{
    if s.len() > 0 {
        let t = s.drop_last();
        let last = s.last();
        lemma_entries(t);
        assert forall|p: int| 0 <= p < s.len() implies entries_view(s).contains_key(
            ckey(#[trigger] s[p].0),
        ) by {
            if p < s.len() - 1 {
                assert(t[p] == s[p]);
            }
        }
        assert forall|x: Value| #[trigger] entries_view(s).contains_key(x) implies exists|p: int|
            0 <= p < s.len() && ckey(s[p].0) == x by {
            if x == ckey(last.0) {
                assert(ckey(s[s.len() - 1].0) == x);
            } else {
                assert(entries_view(t).contains_key(x));
                let p = choose|p: int| 0 <= p < t.len() && ckey(t[p].0) == x;
                assert(t[p] == s[p]);
            }
        }
        if keys_distinct(s) {
            assert(keys_distinct(t)) by {
                assert forall|p: int, q: int|
                    0 <= p < t.len() && 0 <= q < t.len() && p != q implies ckey(
                    #[trigger] t[p].0,
                ) != ckey(#[trigger] t[q].0) by {
                    assert(t[p] == s[p]);
                    assert(t[q] == s[q]);
                }
            }
            assert(!entries_view(t).contains_key(ckey(last.0))) by {
                if entries_view(t).contains_key(ckey(last.0)) {
                    let p = choose|p: int| 0 <= p < t.len() && ckey(t[p].0) == ckey(last.0);
                    assert(t[p] == s[p]);
                    assert(s[s.len() - 1] == last);
                }
            }
            assert forall|p: int| 0 <= p < s.len() implies entries_view(s)[ckey(
                #[trigger] s[p].0,
            )] == s[p].1 by {
                if p < s.len() - 1 {
                    assert(t[p] == s[p]);
                    assert(ckey(s[p].0) != ckey(s[s.len() - 1].0));
                }
            }
        }
    }
}

/// Appending an entry binds its key.
pub proof fn lemma_entries_push(s: Seq<(Value, Value)>, e: (Value, Value))
    ensures
        entries_view(s.push(e)) == entries_view(s).insert(ckey(e.0), e.1),
        keys_distinct(s) && !entries_view(s).contains_key(ckey(e.0)) ==> keys_distinct(s.push(e)),
{
    assert(s.push(e).drop_last() =~= s);
    if keys_distinct(s) && !entries_view(s).contains_key(ckey(e.0)) {
        lemma_entries(s);
        let s2 = s.push(e);
        assert forall|p: int, q: int|
            0 <= p < s2.len() && 0 <= q < s2.len() && p != q implies ckey(#[trigger] s2[p].0)
            != ckey(#[trigger] s2[q].0) by {
            if p < s.len() && q < s.len() {
                assert(s2[p] == s[p]);
                assert(s2[q] == s[q]);
            } else if p < s.len() {
                assert(s2[p] == s[p]);
                assert(entries_view(s).contains_key(ckey(s[p].0)));
            } else {
                assert(s2[q] == s[q]);
                assert(entries_view(s).contains_key(ckey(s[q].0)));
            }
        }
    }
}

/// Rebinding the value of the entry at `p` rebinds its key.
pub proof fn lemma_entries_update(s: Seq<(Value, Value)>, p: int, v: Value)
    requires
        keys_distinct(s),
        0 <= p < s.len(),
    ensures
        keys_distinct(s.update(p, (s[p].0, v))),
        entries_view(s.update(p, (s[p].0, v))) == entries_view(s).insert(ckey(s[p].0), v),
{
    let s2 = s.update(p, (s[p].0, v));
    assert forall|q: int| 0 <= q < s.len() implies ckey(#[trigger] s2[q].0) == ckey(s[q].0) by {}
    assert(keys_distinct(s2)) by {
        assert forall|q: int, r: int|
            0 <= q < s2.len() && 0 <= r < s2.len() && q != r implies ckey(#[trigger] s2[q].0)
            != ckey(#[trigger] s2[r].0) by {
            assert(ckey(s2[q].0) == ckey(s[q].0));
            assert(ckey(s2[r].0) == ckey(s[r].0));
        }
    }
    lemma_entries(s);
    lemma_entries(s2);
    let m1 = entries_view(s2);
    let m2 = entries_view(s).insert(ckey(s[p].0), v);
    assert forall|x: Value| m1.contains_key(x) <==> m2.contains_key(x) by {
        if m1.contains_key(x) {
            let q = choose|q: int| 0 <= q < s2.len() && ckey(s2[q].0) == x;
            assert(ckey(s2[q].0) == ckey(s[q].0));
        }
        if entries_view(s).contains_key(x) {
            let q = choose|q: int| 0 <= q < s.len() && ckey(s[q].0) == x;
            assert(ckey(s2[q].0) == ckey(s[q].0));
            assert(m1.contains_key(ckey(s2[q].0)));
        }
        if x == ckey(s[p].0) {
            assert(ckey(s2[p].0) == ckey(s[p].0));
            assert(m1.contains_key(ckey(s2[p].0)));
        }
    }
    assert forall|x: Value| m1.contains_key(x) implies m1[x] == m2[x] by {
        let q = choose|q: int| 0 <= q < s2.len() && ckey(s2[q].0) == x;
        assert(ckey(s2[q].0) == ckey(s[q].0));
        assert(m1[ckey(s2[q].0)] == s2[q].1);
        if q != p {
            assert(entries_view(s)[ckey(s[q].0)] == s[q].1);
        }
    }
    assert(m1 =~= m2);
}

/// Taking out the entry at `p` unbinds its key.
pub proof fn lemma_entries_remove(s: Seq<(Value, Value)>, p: int)
    requires
        keys_distinct(s),
        0 <= p < s.len(),
    ensures
        keys_distinct(s.remove(p)),
        entries_view(s.remove(p)) == entries_view(s).remove(ckey(s[p].0)),
{
    let s2 = s.remove(p);
    s.remove_ensures(p);
    assert forall|q: int| 0 <= q < s2.len() implies #[trigger] s2[q] == s[if q < p {
        q
    } else {
        q + 1
    }] by {}
    assert(keys_distinct(s2)) by {
        assert forall|q: int, r: int|
            0 <= q < s2.len() && 0 <= r < s2.len() && q != r implies ckey(#[trigger] s2[q].0)
            != ckey(#[trigger] s2[r].0) by {
            assert(s2[q] == s[if q < p {
                q
            } else {
                q + 1
            }]);
            assert(s2[r] == s[if r < p {
                r
            } else {
                r + 1
            }]);
        }
    }
    lemma_entries(s);
    lemma_entries(s2);
    let m1 = entries_view(s2);
    let m2 = entries_view(s).remove(ckey(s[p].0));
    assert forall|x: Value| m1.contains_key(x) <==> m2.contains_key(x) by {
        if m1.contains_key(x) {
            let q = choose|q: int| 0 <= q < s2.len() && ckey(s2[q].0) == x;
            let q0 = if q < p {
                q
            } else {
                q + 1
            };
            assert(s2[q] == s[q0]);
            assert(entries_view(s).contains_key(ckey(s[q0].0)));
        }
        if m2.contains_key(x) {
            let q = choose|q: int| 0 <= q < s.len() && ckey(s[q].0) == x;
            assert(q != p);
            let q2 = if q < p {
                q
            } else {
                q - 1
            };
            assert(s2[q2] == s[q]);
            assert(m1.contains_key(ckey(s2[q2].0)));
        }
    }
    assert forall|x: Value| m1.contains_key(x) implies m1[x] == m2[x] by {
        let q = choose|q: int| 0 <= q < s2.len() && ckey(s2[q].0) == x;
        let q0 = if q < p {
            q
        } else {
            q + 1
        };
        assert(s2[q] == s[q0]);
        assert(m1[ckey(s2[q].0)] == s2[q].1);
        assert(entries_view(s)[ckey(s[q0].0)] == s[q0].1);
    }
    assert(m1 =~= m2);
}

/// The union of a branch's slots below `t`: a key is there exactly when its own
/// slot is below `t` and holds it.
pub proof fn lemma_prefix(a: Seq<MapNode>, i: int, d: nat, t: int)
    requires
        0 <= i < a.len(),
        0 <= t <= 16,
        slots_ok(a, i, d),
    ensures
        forall|x: Value| #[trigger]
            prefix_view(a, i, t).contains_key(x) <==> (kslot(x, d) < t && slot_view(
                a,
                i,
                kslot(x, d),
            ).contains_key(x)),
        forall|x: Value|
            prefix_view(a, i, t).contains_key(x) ==> #[trigger] prefix_view(a, i, t)[x]
                == slot_view(a, i, kslot(x, d))[x],
    decreases t,
{
    if t > 0 {
        lemma_prefix(a, i, d, t - 1);
        let p0 = prefix_view(a, i, t - 1);
        let sl = slot_view(a, i, t - 1);
        assert(prefix_view(a, i, t) == p0.union_prefer_right(sl));
        assert forall|x: Value| #[trigger]
            prefix_view(a, i, t).contains_key(x) <==> (kslot(x, d) < t && slot_view(
                a,
                i,
                kslot(x, d),
            ).contains_key(x)) by {
            lemma_kslot_range(x, d);
            if sl.contains_key(x) {
                assert(kslot(x, d) == t - 1);
            }
            if kslot(x, d) == t - 1 {
                assert(slot_view(a, i, kslot(x, d)) == sl);
            }
        }
        assert forall|x: Value| prefix_view(a, i, t).contains_key(x) implies #[trigger] prefix_view(
            a,
            i,
            t,
        )[x] == slot_view(a, i, kslot(x, d))[x] by {
            lemma_kslot_range(x, d);
            if sl.contains_key(x) {
                assert(kslot(x, d) == t - 1);
            } else {
                assert(p0.contains_key(x));
            }
        }
    }
}

/// A branch holds a key exactly when the key's own slot holds it, with that
/// slot's value.
pub proof fn lemma_branch(a: Seq<MapNode>, i: int, d: nat)
    requires
        0 <= i < a.len(),
        !a[i].is_collision,
        slots_ok(a, i, d),
    ensures
        forall|x: Value| #[trigger]
            trie_view(a, i).contains_key(x) <==> slot_view(a, i, kslot(x, d)).contains_key(x),
        forall|x: Value|
            trie_view(a, i).contains_key(x) ==> #[trigger] trie_view(a, i)[x] == slot_view(
                a,
                i,
                kslot(x, d),
            )[x],
{
    lemma_prefix(a, i, d, 16);
    assert(trie_view(a, i) == prefix_view(a, i, 16));
    assert forall|x: Value| #[trigger]
        trie_view(a, i).contains_key(x) <==> slot_view(a, i, kslot(x, d)).contains_key(x) by {
        lemma_kslot_range(x, d);
    }
}

/// Every trie holds finitely many keys.
pub proof fn lemma_trie_finite(a: Seq<MapNode>, i: int)
    ensures
        trie_view(a, i).dom().finite(),
    decreases i, 17int,
{
    if 0 <= i < a.len() {
        if a[i].is_collision {
            lemma_entries(a[i].entries());
        } else {
            lemma_prefix_finite(a, i, 16);
        }
    }
}

proof fn lemma_prefix_finite(a: Seq<MapNode>, i: int, t: int)
    requires
        0 <= i < a.len(),
        0 <= t <= 16,
    ensures
        prefix_view(a, i, t).dom().finite(),
    decreases i, t,
{
    if t > 0 {
        lemma_prefix_finite(a, i, t - 1);
        lemma_slot_finite(a, i, t - 1);
        assert(prefix_view(a, i, t).dom() =~= prefix_view(a, i, t - 1).dom().union(
            slot_view(a, i, t - 1).dom(),
        ));
    }
}

proof fn lemma_slot_finite(a: Seq<MapNode>, i: int, s: int)
    requires
        0 <= i < a.len(),
        0 <= s < 16,
    ensures
        slot_view(a, i, s).dom().finite(),
    decreases i, s,
{
    let n = a[i];
    if bit_set(n.data_map, s) && bits_below(n.data_map, s) < n.entries().len() {
        let e = slot_entry(n, s);
        assert(Map::<Value, Value>::empty().insert(ckey(e.0), e.1).dom() =~= Set::<
            Value,
        >::empty().insert(ckey(e.0)));
    } else if bit_set(n.node_map, s) && bits_below(n.node_map, s) < n.kids().len() {
        let c = slot_child(n, s);
        if 0 <= c < i {
            lemma_trie_finite(a, c);
        } else {
            assert(Map::<Value, Value>::empty().dom() =~= Set::<Value>::empty());
        }
    } else {
        assert(Map::<Value, Value>::empty().dom() =~= Set::<Value>::empty());
    }
}

/// Adding nodes to an arena changes no map it already held.
pub proof fn lemma_trie_ext(a: Seq<MapNode>, b: Seq<MapNode>, i: int)
    requires
        extends(b, a),
        0 <= i < a.len(),
    ensures
        trie_view(b, i) == trie_view(a, i),
    decreases i, 17int,
{
    assert(b[i] == a[i]);
    if !a[i].is_collision {
        lemma_prefix_ext(a, b, i, 16);
    }
}

proof fn lemma_prefix_ext(a: Seq<MapNode>, b: Seq<MapNode>, i: int, t: int)
    requires
        extends(b, a),
        0 <= i < a.len(),
        0 <= t <= 16,
    ensures
        prefix_view(b, i, t) == prefix_view(a, i, t),
    decreases i, t,
{
    if t > 0 {
        lemma_prefix_ext(a, b, i, t - 1);
        lemma_slot_ext(a, b, i, t - 1);
    }
}

/// Adding nodes to an arena changes no slot it already held.
pub proof fn lemma_slot_ext(a: Seq<MapNode>, b: Seq<MapNode>, i: int, s: int)
    requires
        extends(b, a),
        0 <= i < a.len(),
        0 <= s < 16,
    ensures
        slot_view(b, i, s) == slot_view(a, i, s),
    decreases i, s,
{
    let n = a[i];
    assert(b[i] == n);
    if bit_set(n.data_map, s) && bits_below(n.data_map, s) < n.entries().len() {
    } else if bit_set(n.node_map, s) && bits_below(n.node_map, s) < n.kids().len() {
        let c = slot_child(n, s);
        if 0 <= c < i {
            lemma_trie_ext(a, b, c);
        }
    }
}

/// A well-formed node stays well formed as the arena grows.
pub proof fn lemma_node_ok_ext(a: Seq<MapNode>, d: Seq<nat>, b: Seq<MapNode>, db: Seq<nat>, i: int)
    requires
        extends(b, a),
        d.len() == a.len(),
        db.len() == b.len(),
        forall|j: int| 0 <= j < d.len() ==> db[j] == d[j],
        0 <= i < a.len(),
        node_ok(a, d, i),
    ensures
        node_ok(b, db, i),
{
    let n = a[i];
    assert(b[i] == n);
    lemma_trie_ext(a, b, i);
    if !n.is_collision {
        assert forall|s: int, x: Value|
            0 <= s < 16 && #[trigger] slot_view(b, i, s).contains_key(x) implies kslot(x, db[i])
            == s by {
            lemma_slot_ext(a, b, i, s);
        }
        assert forall|s: int| #![trigger bit_set(n.node_map, s)] 0 <= s < 16 && bit_set(n.node_map, s) implies {
            let c = slot_child(n, s);
            0 <= c < i && db[c] == db[i] + 1
        } by {
            let c = slot_child(n, s);
            assert(0 <= c < i && d[c] == d[i] + 1);
        }
    }
}

/// Appending a well-formed node keeps the arena well formed.
pub proof fn lemma_arena_push(a: Seq<MapNode>, d: Seq<nat>, n: MapNode, dn: nat)
    requires
        arena_ok(a, d),
        node_ok(a.push(n), d.push(dn), a.len() as int),
    ensures
        arena_ok(a.push(n), d.push(dn)),
        extends(a.push(n), a),
{
    let b = a.push(n);
    let db = d.push(dn);
    assert(extends(b, a));
    assert forall|i: int| 0 <= i < b.len() implies #[trigger] node_ok(b, db, i) by {
        if i < a.len() {
            lemma_node_ok_ext(a, d, b, db, i);
        }
    }
}

/// Two branches that agree on every slot but `s`, where the second binds one
/// more key than the first: the second's map is the first's with that binding.
pub proof fn lemma_swap_insert(a: Seq<MapNode>, i: int, j: int, s: int, d: nat, x: Value, v: Value)
    requires
        0 <= i < a.len(),
        0 <= j < a.len(),
        !a[i].is_collision,
        !a[j].is_collision,
        slots_ok(a, i, d),
        0 <= s < 16,
        kslot(x, d) == s,
        forall|t: int| 0 <= t < 16 && t != s ==> slot_view(a, j, t) == slot_view(a, i, t),
        slot_view(a, j, s) == slot_view(a, i, s).insert(x, v),
    ensures
        slots_ok(a, j, d),
        trie_view(a, j) == trie_view(a, i).insert(x, v),
{
    assert forall|t: int, y: Value|
        0 <= t < 16 && #[trigger] slot_view(a, j, t).contains_key(y) implies kslot(y, d) == t by {
        if t != s {
            assert(slot_view(a, j, t) == slot_view(a, i, t));
        } else if y != x {
            assert(slot_view(a, i, s).contains_key(y));
        }
    }
    lemma_branch(a, i, d);
    lemma_branch(a, j, d);
    let m1 = trie_view(a, j);
    let m2 = trie_view(a, i).insert(x, v);
    assert forall|y: Value| m1.contains_key(y) <==> m2.contains_key(y) by {
        lemma_kslot_range(y, d);
        if kslot(y, d) != s {
            assert(slot_view(a, j, kslot(y, d)) == slot_view(a, i, kslot(y, d)));
        }
    }
    assert forall|y: Value| m1.contains_key(y) implies m1[y] == m2[y] by {
        lemma_kslot_range(y, d);
        if kslot(y, d) != s {
            assert(slot_view(a, j, kslot(y, d)) == slot_view(a, i, kslot(y, d)));
        }
    }
    assert(m1 =~= m2);
}

/// Two branches that agree on every slot but `s`, where the second drops one
/// key of the first: the second's map is the first's without it.
pub proof fn lemma_swap_remove(a: Seq<MapNode>, i: int, j: int, s: int, d: nat, x: Value)
    requires
        0 <= i < a.len(),
        0 <= j < a.len(),
        !a[i].is_collision,
        !a[j].is_collision,
        slots_ok(a, i, d),
        0 <= s < 16,
        kslot(x, d) == s,
        forall|t: int| 0 <= t < 16 && t != s ==> slot_view(a, j, t) == slot_view(a, i, t),
        slot_view(a, j, s) == slot_view(a, i, s).remove(x),
    ensures
        slots_ok(a, j, d),
        trie_view(a, j) == trie_view(a, i).remove(x),
{
    assert forall|t: int, y: Value|
        0 <= t < 16 && #[trigger] slot_view(a, j, t).contains_key(y) implies kslot(y, d) == t by {
        if t != s {
            assert(slot_view(a, j, t) == slot_view(a, i, t));
        } else {
            assert(slot_view(a, i, s).contains_key(y));
        }
    }
    lemma_branch(a, i, d);
    lemma_branch(a, j, d);
    let m1 = trie_view(a, j);
    let m2 = trie_view(a, i).remove(x);
    assert forall|y: Value| m1.contains_key(y) <==> m2.contains_key(y) by {
        lemma_kslot_range(y, d);
        if kslot(y, d) != s {
            assert(slot_view(a, j, kslot(y, d)) == slot_view(a, i, kslot(y, d)));
        }
    }
    assert forall|y: Value| m1.contains_key(y) implies m1[y] == m2[y] by {
        lemma_kslot_range(y, d);
        if kslot(y, d) != s {
            assert(slot_view(a, j, kslot(y, d)) == slot_view(a, i, kslot(y, d)));
        }
    }
    assert(m1 =~= m2);
}

/// Away from slot `s`, the packed array `sq2` under bitmap `bm2` holds what
/// `sq` holds under `bm`, slot for slot.
pub open spec fn same_off<T>(bm: u16, sq: Seq<T>, bm2: u16, sq2: Seq<T>, s: int) -> bool {
    forall|t: int|
        0 <= t < 16 && t != s ==> (#[trigger] bit_set(bm2, t) == bit_set(bm, t)) && (bit_set(
            bm,
            t,
        ) ==> bits_below(bm2, t) < sq2.len() && sq2[bits_below(bm2, t) as int] == sq[bits_below(
            bm,
            t,
        ) as int])
}

/// An untouched packed array agrees with itself off any slot.
pub proof fn lemma_edit_none<T>(bm: u16, sq: Seq<T>, s: int)
    requires
        sq.len() == popcount(bm),
    ensures
        same_off(bm, sq, bm, sq, s),
{
    assert forall|t: int| 0 <= t < 16 && t != s && bit_set(bm, t) implies bits_below(bm, t)
        < sq.len() by {
        lemma_rank_lt_popcount(bm, t);
    }
}

/// Overwriting the element of slot `s` leaves the other slots alone.
pub proof fn lemma_edit_update<T>(bm: u16, sq: Seq<T>, s: int, e: T)
    requires
        sq.len() == popcount(bm),
        bit_set(bm, s),
    ensures
        bits_below(bm, s) < sq.len(),
        same_off(bm, sq, bm, sq.update(bits_below(bm, s) as int, e), s),
{
    lemma_rank_lt_popcount(bm, s);
    assert forall|t: int| 0 <= t < 16 && t != s && bit_set(bm, t) implies bits_below(bm, t)
        < sq.len() && sq.update(bits_below(bm, s) as int, e)[bits_below(bm, t) as int]
        == sq[bits_below(bm, t) as int] by {
        lemma_rank_lt_popcount(bm, t);
        if bits_below(bm, t) == bits_below(bm, s) {
            lemma_bits_below_injective(bm, t, s);
        }
    }
}

/// Setting the clear bit `s` and inserting its element at its rank leaves the
/// other slots alone.
pub proof fn lemma_edit_insert<T>(bm: u16, sq: Seq<T>, s: int, e: T)
    requires
        sq.len() == popcount(bm),
        0 <= s < 16,
        !bit_set(bm, s),
    ensures
        bit_set(bm | (1u16 << (s as u16)), s),
        bits_below(bm | (1u16 << (s as u16)), s) == bits_below(bm, s),
        sq.insert(bits_below(bm, s) as int, e).len() == popcount(bm | (1u16 << (s as u16))),
        same_off(bm, sq, bm | (1u16 << (s as u16)), sq.insert(bits_below(bm, s) as int, e), s),
{
    let bm2 = bm | (1u16 << (s as u16));
    let r = bits_below(bm, s);
    let sq2 = sq.insert(r as int, e);
    lemma_bits_below_mono(bm, s, 16);
    sq.insert_ensures(r as int, e);
    lemma_bits_below_insert(bm, s, s);
    lemma_bits_below_insert(bm, s, 16);
    lemma_bit_or(bm, s, s);
    assert forall|t: int| 0 <= t < 16 && t != s implies (#[trigger] bit_set(bm2, t) == bit_set(
        bm,
        t,
    )) && (bit_set(bm, t) ==> bits_below(bm2, t) < sq2.len() && sq2[bits_below(bm2, t) as int]
        == sq[bits_below(bm, t) as int]) by {
        lemma_bit_or(bm, s, t);
        lemma_bits_below_insert(bm, s, t);
        if bit_set(bm, t) {
            lemma_rank_lt_popcount(bm, t);
            if t < s {
                lemma_bits_below_mono(bm, t, s);
            } else {
                lemma_bits_below_mono(bm, s, t);
            }
        }
    }
}

/// Clearing the set bit `s` and removing its element leaves the other slots
/// alone.
pub proof fn lemma_edit_remove<T>(bm: u16, sq: Seq<T>, s: int)
    requires
        sq.len() == popcount(bm),
        bit_set(bm, s),
    ensures
        !bit_set(bm ^ (1u16 << (s as u16)), s),
        bits_below(bm, s) < sq.len(),
        sq.remove(bits_below(bm, s) as int).len() == popcount(bm ^ (1u16 << (s as u16))),
        same_off(bm, sq, bm ^ (1u16 << (s as u16)), sq.remove(bits_below(bm, s) as int), s),
{
    let bm2 = bm ^ (1u16 << (s as u16));
    let r = bits_below(bm, s);
    let sq2 = sq.remove(r as int);
    lemma_rank_lt_popcount(bm, s);
    sq.remove_ensures(r as int);
    lemma_bits_below_remove(bm, s, 16);
    lemma_bit_xor(bm, s, s);
    assert forall|t: int| 0 <= t < 16 && t != s implies (#[trigger] bit_set(bm2, t) == bit_set(
        bm,
        t,
    )) && (bit_set(bm, t) ==> bits_below(bm2, t) < sq2.len() && sq2[bits_below(bm2, t) as int]
        == sq[bits_below(bm, t) as int]) by {
        lemma_bit_xor(bm, s, t);
        lemma_bits_below_remove(bm, s, t);
        if bit_set(bm, t) {
            lemma_rank_lt_popcount(bm, t);
            if t < s {
                lemma_bits_below_mono(bm, t, s);
            } else {
                lemma_bits_below_mono(bm, s, t);
            }
        }
    }
}

/// Two branches whose packed arrays agree off slot `s` hold the same maps in
/// every other slot.
pub proof fn lemma_other_slots(a: Seq<MapNode>, i: int, j: int, s: int)
    requires
        0 <= i < j < a.len(),
        !a[i].is_collision,
        !a[j].is_collision,
        a[i].entries().len() == popcount(a[i].data_map),
        a[i].kids().len() == popcount(a[i].node_map),
        forall|t: int|
            #![trigger bit_set(a[i].node_map, t)]
            0 <= t < 16 && bit_set(a[i].node_map, t) ==> 0 <= slot_child(a[i], t) < i,
        same_off(a[i].data_map, a[i].entries(), a[j].data_map, a[j].entries(), s),
        same_off(a[i].node_map, a[i].kids(), a[j].node_map, a[j].kids(), s),
    ensures
        forall|t: int| 0 <= t < 16 && t != s ==> slot_view(a, j, t) == slot_view(a, i, t),
{
    let ni = a[i];
    let nj = a[j];
    assert forall|t: int| 0 <= t < 16 && t != s implies slot_view(a, j, t) == slot_view(a, i, t) by {
        assert(bit_set(nj.data_map, t) == bit_set(ni.data_map, t));
        assert(bit_set(nj.node_map, t) == bit_set(ni.node_map, t));
        if bit_set(ni.data_map, t) {
            lemma_rank_lt_popcount(ni.data_map, t);
            assert(slot_entry(nj, t) == slot_entry(ni, t));
        } else if bit_set(ni.node_map, t) {
            lemma_rank_lt_popcount(ni.node_map, t);
            assert(slot_child(nj, t) == slot_child(ni, t));
            assert(0 <= slot_child(ni, t) < i);
        }
    }
}

/// The empty bitmap has no set bits.
pub proof fn lemma_popcount_zero(t: int)
    requires
        0 <= t <= 16,
    ensures
        bits_below(0u16, t) == 0,
    decreases t,
{
    if t > 0 {
        lemma_popcount_zero(t - 1);
        lemma_bit_zero(t - 1);
    }
}

/// A branch built from branch `i` by changing only slot `s`, where slot `s`
/// gains the binding `x -> v` (`ins`) or loses the key `x` (`!ins`), is well
/// formed and holds `i`'s map with that change.
pub proof fn lemma_new_branch(
    a2: Seq<MapNode>,
    d2: Seq<nat>,
    i: int,
    s: int,
    x: Value,
    v: Value,
    ins: bool,
)
    requires
        a2.len() >= 1,
        d2.len() == a2.len(),
        arena_ok(a2.drop_last(), d2.drop_last()),
        0 <= i < a2.len() - 1,
        !a2[i].is_collision,
        !a2[a2.len() - 1].is_collision,
        d2[a2.len() - 1] == d2[i],
        0 <= s < 16,
        kslot(x, d2[i]) == s,
        a2[a2.len() - 1].data_map & a2[a2.len() - 1].node_map == 0,
        a2[a2.len() - 1].entries().len() == popcount(a2[a2.len() - 1].data_map),
        a2[a2.len() - 1].kids().len() == popcount(a2[a2.len() - 1].node_map),
        same_off(
            a2[i].data_map,
            a2[i].entries(),
            a2[a2.len() - 1].data_map,
            a2[a2.len() - 1].entries(),
            s,
        ),
        same_off(a2[i].node_map, a2[i].kids(), a2[a2.len() - 1].node_map, a2[a2.len() - 1].kids(), s),
        bit_set(a2[a2.len() - 1].node_map, s) ==> {
            let c = slot_child(a2[a2.len() - 1], s);
            0 <= c < a2.len() - 1 && d2[c] == d2[i] + 1
        },
        ins ==> slot_view(a2, a2.len() - 1, s) == slot_view(a2, i, s).insert(x, v),
        !ins ==> slot_view(a2, a2.len() - 1, s) == slot_view(a2, i, s).remove(x),
        ins ==> a2[a2.len() - 1].size == trie_view(a2, i).insert(x, v).len(),
        !ins ==> a2[a2.len() - 1].size == trie_view(a2, i).remove(x).len(),
    ensures
        arena_ok(a2, d2),
        ins ==> trie_view(a2, a2.len() - 1) == trie_view(a2, i).insert(x, v),
        !ins ==> trie_view(a2, a2.len() - 1) == trie_view(a2, i).remove(x),
{
    let j = a2.len() - 1;
    let a1 = a2.drop_last();
    let d1 = d2.drop_last();
    assert(extends(a2, a1));
    assert(a1[i] == a2[i]);
    assert(node_ok(a1, d1, i));
    lemma_node_ok_ext(a1, d1, a2, d2, i);
    let ni = a2[i];
    let nj = a2[j];
    lemma_other_slots(a2, i, j, s);
    if ins {
        lemma_swap_insert(a2, i, j, s, d2[i], x, v);
    } else {
        lemma_swap_remove(a2, i, j, s, d2[i], x);
    }
    assert forall|t: int|
        #![trigger bit_set(nj.node_map, t)]
        0 <= t < 16 && bit_set(nj.node_map, t) implies {
        let c = slot_child(nj, t);
        0 <= c < j && d2[c] == d2[j] + 1
    } by {
        if t != s {
            assert(bit_set(ni.node_map, t));
            assert(slot_child(nj, t) == slot_child(ni, t));
        }
    }
    assert(node_ok(a2, d2, j));
    assert forall|k: int| 0 <= k < a2.len() implies #[trigger] node_ok(a2, d2, k) by {
        if k < j {
            assert(node_ok(a1, d1, k));
            lemma_node_ok_ext(a1, d1, a2, d2, k);
        }
    }
}

} // verus!
