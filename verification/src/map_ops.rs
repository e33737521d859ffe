//! Map operations on the CHAMP node arena. Every operation returns a fresh
//! root and path-copies only the nodes from the root to the touched slot; no
//! node already in the arena is ever changed, so every map value stays what it
//! was when it was built.

use vstd::prelude::*;
use crate::value::{Value, Handle, same_value};
use crate::heap::Heap;
use crate::champ::{
    slot_at, slot_mask, rank, bit_set, bits_below, popcount, lemma_bit_and_mask,
    lemma_rank_lt_popcount, lemma_bit_zero, lemma_bits_below_insert, MAX_DEPTH,
};
use crate::champ_map::{
    MapNode, EntryVec, ChildVec, ckey, khash, hash_value, entries_new, entries_len, entries_get,
    entries_set, entries_push, entries_insert, entries_remove, entries_clone, children_new,
    children_len, children_get, children_set, children_push, children_insert, children_remove,
    children_clone,
};
use crate::champ_view::{
    trie_view, slot_view, slot_entry, slot_child, entries_view, keys_distinct, kslot, slots_ok,
    extends, node_ok, arena_ok, lemma_ckey_idem, lemma_kslot_range, lemma_entries,
    lemma_entries_push, lemma_entries_update, lemma_entries_remove, lemma_branch,
    lemma_trie_finite, lemma_trie_ext, lemma_arena_push, lemma_edit_none, lemma_edit_update,
    lemma_edit_insert, lemma_edit_remove, lemma_popcount_zero, lemma_new_branch,
    lemma_node_ok_ext, same_off, prefix_view, lemma_prefix,
};
use crate::champ::{lemma_bit_disjoint, lemma_bit_or, lemma_bit_xor};

verus! {

/// The arena of map trie nodes a heap owns, with the depth each node sits at.
pub struct MapArena {
    pub nodes: Vec<MapNode>,
    /// Whether each node is the root of a map (sits at depth 0).
    pub top: Vec<bool>,
    /// The generation stamp put on the handles this arena hands out.
    pub epoch: u32,
    pub depths: Ghost<Seq<nat>>,
}

impl MapArena {
    /// Every node is well formed, and every index fits a handle.
    pub open spec fn wf(&self) -> bool {
        &&& arena_ok(self.nodes@, self.depths@)
        &&& self.nodes@.len() < 0xFFFF_0000
        &&& self.top@.len() == self.nodes@.len()
        &&& forall|i: int| 0 <= i < self.top@.len() ==> #[trigger] self.top@[i] == (self.depths@[i] == 0)
    }

    /// `id` names the root of a map in this arena.
    pub open spec fn is_root(&self, id: Handle) -> bool {
        &&& id.spec_index() < self.nodes@.len()
        &&& self.depths@[id.spec_index() as int] == 0
    }

    /// The map the trie at `id` holds.
    pub open spec fn view_of(&self, id: Handle) -> Map<Value, Value> {
        trie_view(self.nodes@, id.spec_index() as int)
    }

    /// `self` is `old` with nodes appended.
    pub open spec fn grows_from(&self, old: &MapArena) -> bool {
        &&& extends(self.nodes@, old.nodes@)
        &&& self.depths@.len() == self.nodes@.len()
        &&& old.depths@.len() == old.nodes@.len()
        &&& forall|j: int| 0 <= j < old.depths@.len() ==> self.depths@[j] == old.depths@[j]
        &&& self.epoch == old.epoch
    }

    /// An empty arena whose handles carry `epoch`.
    pub fn new(epoch: u32) -> (r: MapArena)
        ensures
            r.wf(),
            r.nodes@.len() == 0,
            r.epoch == epoch,
    {
        MapArena { nodes: Vec::new(), top: Vec::new(), epoch, depths: Ghost(Seq::empty()) }
    }

    /// Whether `id` names the root of a map in this arena.
    pub fn is_root_map(&self, id: Handle) -> (r: bool)
        requires
            self.wf(),
        ensures
            r == self.is_root(id),
    {
        let i = id.index();
        i < self.top.len() && self.top[i]
    }

    /// Appends a node, the one step every path copy ends with.
    fn alloc_map_node(&mut self, n: MapNode, top: bool, Ghost(dn): Ghost<nat>) -> (r: Handle)
        requires
            old(self).wf(),
            top == (dn == 0),
            old(self).nodes@.len() + 1 < 0xFFFF_0000,
            node_ok(old(self).nodes@.push(n), old(self).depths@.push(dn), old(self).nodes@.len() as int),
        ensures
            final(self).wf(),
            final(self).nodes@ == old(self).nodes@.push(n),
            final(self).depths@ == old(self).depths@.push(dn),
            final(self).epoch == old(self).epoch,
            r.spec_index() == old(self).nodes@.len(),
    {
        let idx = self.nodes.len();
        proof {
            lemma_arena_push(self.nodes@, self.depths@, n, dn);
        }
        self.nodes.push(n);
        self.top.push(top);
        self.depths = Ghost(self.depths@.push(dn));
        Handle::local_gen(idx, self.epoch)
    }

    /// Looks `key` up in the trie at `id`, which sits at `depth`.
    fn champ_get(&self, id: Handle, key: Value, hash: u64, depth: u32) -> (r: Option<Value>)
        requires
            self.wf(),
            id.spec_index() < self.nodes@.len(),
            self.depths@[id.spec_index() as int] == depth,
            hash == khash(key),
        ensures
            r == (if self.view_of(id).contains_key(ckey(key)) {
                Some(self.view_of(id)[ckey(key)])
            } else {
                None
            }),
        decreases id.spec_index(),
    {
        let ghost a = self.nodes@;
        let ghost i = id.spec_index() as int;
        let ghost x = ckey(key);
        let node = &self.nodes[id.index()];
        assert(node_ok(a, self.depths@, i));
        if node.is_collision {
            assert(self.view_of(id) == entries_view(node.entries()));
            let n = entries_len(&node.data);
            let mut p: usize = 0;
            while p < n
                invariant
                    p <= n,
                    n == node.entries().len(),
                    x == ckey(key),
                    keys_distinct(node.entries()),
                    self.view_of(id) == entries_view(node.entries()),
                    forall|q: int| 0 <= q < p ==> ckey(#[trigger] node.entries()[q].0) != x,
                decreases n - p,
            {
                let e = entries_get(&node.data, p);
                if same_value(e.0, key) {
                    proof {
                        lemma_entries(node.entries());
                    }
                    return Some(e.1);
                }
                p += 1;
            }
            proof {
                lemma_entries(node.entries());
            }
            return None;
        }
        let slot = slot_at(hash, depth);
        let bit = slot_mask(slot);
        proof {
            lemma_branch(a, i, depth as nat);
            lemma_ckey_idem(key);
            lemma_bit_and_mask(node.data_map, slot as int);
            lemma_bit_and_mask(node.node_map, slot as int);
            assert(kslot(x, depth as nat) == slot);
        }
        if node.data_map & bit != 0 {
            let r = rank(node.data_map, slot);
            proof {
                lemma_rank_lt_popcount(node.data_map, slot as int);
            }
            let e = entries_get(&node.data, r);
            if same_value(e.0, key) {
                Some(e.1)
            } else {
                None
            }
        } else if node.node_map & bit != 0 {
            let j = rank(node.node_map, slot);
            proof {
                lemma_rank_lt_popcount(node.node_map, slot as int);
            }
            let c = children_get(&node.children, j);
            assert(bit_set(node.node_map, slot as int));
            self.champ_get(c, key, hash, depth + 1)
        } else {
            None
        }
    }

    /// The value `key` is bound to in the map at `id`, by key identity.
    pub fn map_get(&self, id: Handle, key: Value) -> (r: Option<Value>)
        requires
            self.wf(),
            self.is_root(id),
        ensures
            r == (if self.view_of(id).contains_key(ckey(key)) {
                Some(self.view_of(id)[ckey(key)])
            } else {
                None
            }),
    {
        let hash = hash_value(key);
        self.champ_get(id, key, hash, 0)
    }

    /// Number of entries in the map at `id`: the root's subtree size.
    pub fn map_size(&self, id: Handle) -> (r: usize)
        requires
            self.wf(),
            id.spec_index() < self.nodes@.len(),
        ensures
            r == self.view_of(id).len(),
    {
        assert(node_ok(self.nodes@, self.depths@, id.spec_index() as int));
        self.nodes[id.index()].size as usize
    }

    /// A fresh empty map: one root node with no entries.
    pub fn alloc_empty_map(&mut self) -> (r: Handle)
        requires
            old(self).wf(),
            old(self).nodes@.len() + 1 < 0xFFFF_0000,
        ensures
            final(self).wf(),
            final(self).grows_from(old(self)),
            final(self).nodes@.len() == old(self).nodes@.len() + 1,
            final(self).is_root(r),
            final(self).view_of(r) == Map::<Value, Value>::empty(),
    {
        let n = MapNode::empty();
        let ghost a2 = self.nodes@.push(n);
        let ghost d2 = self.depths@.push(0);
        let ghost j = self.nodes@.len() as int;
        proof {
            lemma_popcount_zero(16);
            lemma_branch(a2, j, 0);
            assert(slots_ok(a2, j, 0)) by {
                assert forall|s: int, x: Value|
                    0 <= s < 16 && #[trigger] slot_view(a2, j, s).contains_key(x) implies kslot(x, 0)
                    == s by {
                    crate::champ::lemma_bit_zero(s);
                }
            }
            lemma_branch(a2, j, 0);
            assert forall|x: Value| !trie_view(a2, j).contains_key(x) by {
                lemma_kslot_range(x, 0);
                crate::champ::lemma_bit_zero(kslot(x, 0));
            }
            assert(trie_view(a2, j) =~= Map::<Value, Value>::empty());
            assert forall|s: int| #![trigger bit_set(n.node_map, s)] 0 <= s < 16 implies !bit_set(n.node_map, s) by {
                crate::champ::lemma_bit_zero(s);
            }
            assert(0u16 & 0u16 == 0u16) by (bit_vector);
            assert(node_ok(a2, d2, j));
        }
        self.alloc_map_node(n, true, Ghost(0))
    }
    /// A fresh subtree at `depth` holding two entries with different keys:
    /// nested single-child branches while the keys' hash slices agree, then a
    /// branch with both entries inline, or a collision leaf once the hash is
    /// used up.
    fn champ_split(
        &mut self,
        k1: Value,
        v1: Value,
        h1: u64,
        k2: Value,
        v2: Value,
        h2: u64,
        depth: u32,
    ) -> (r: Handle)
        requires
            old(self).wf(),
            old(self).nodes@.len() + 17 - depth < 0xFFFF_0000,
            1 <= depth <= 16,
            h1 == khash(k1),
            h2 == khash(k2),
            ckey(k1) != ckey(k2),
        ensures
            final(self).wf(),
            final(self).grows_from(old(self)),
            final(self).nodes@.len() <= old(self).nodes@.len() + 17 - depth,
            old(self).nodes@.len() <= r.spec_index() < final(self).nodes@.len(),
            final(self).depths@[r.spec_index() as int] == depth,
            final(self).view_of(r) == pair_map(k1, v1, k2, v2),
        decreases 16 - depth,
    {
        if depth >= MAX_DEPTH {
            let mut data = entries_new();
            entries_push(&mut data, (k1, v1));
            entries_push(&mut data, (k2, v2));
            let n = MapNode {
                size: 2,
                data_map: 0,
                node_map: 0,
                is_collision: true,
                data,
                children: children_new(),
            };
            proof {
                lemma_split_collision(self.nodes@, self.depths@, n, k1, v1, k2, v2, depth as nat);
            }
            return self.alloc_map_node(n, depth == 0, Ghost(depth as nat));
        }
        let s1 = slot_at(h1, depth);
        let s2 = slot_at(h2, depth);
        if s1 == s2 {
            let child = self.champ_split(k1, v1, h1, k2, v2, h2, depth + 1);
            let bit = slot_mask(s1);
            let mut children = children_new();
            children_push(&mut children, child);
            let n = MapNode {
                size: 2,
                data_map: 0,
                node_map: bit,
                is_collision: false,
                data: entries_new(),
                children,
            };
            proof {
                lemma_ckey_idem(k1);
                lemma_ckey_idem(k2);
                lemma_split_deeper(self.nodes@, self.depths@, n, child, s1 as int, k1, v1, k2, v2, depth as nat);
            }
            return self.alloc_map_node(n, depth == 0, Ghost(depth as nat));
        }
        let (lo_slot, lo_kv, hi_slot, hi_kv) = if s1 < s2 {
            (s1, (k1, v1), s2, (k2, v2))
        } else {
            (s2, (k2, v2), s1, (k1, v1))
        };
        let data_map = slot_mask(lo_slot) | slot_mask(hi_slot);
        let mut data = entries_new();
        entries_push(&mut data, lo_kv);
        entries_push(&mut data, hi_kv);
        let n = MapNode {
            size: 2,
            data_map,
            node_map: 0,
            is_collision: false,
            data,
            children: children_new(),
        };
        proof {
            lemma_ckey_idem(k1);
            lemma_ckey_idem(k2);
            assert(pair_map(k1, v1, k2, v2) =~= pair_map(k2, v2, k1, v1));
            lemma_split_two(self.nodes@, self.depths@, n, lo_slot as int, hi_slot as int, lo_kv, hi_kv, depth as nat);
        }
        self.alloc_map_node(n, depth == 0, Ghost(depth as nat))
    }
    /// The position of `key` among the entries of the collision leaf at
    /// `idx`, by key identity.
    fn collision_find(&self, idx: usize, key: Value) -> (r: Option<usize>)
        requires
            idx < self.nodes@.len(),
        ensures
            match r {
                Some(p) => p < self.nodes@[idx as int].entries().len() && ckey(
                    self.nodes@[idx as int].entries()[p as int].0,
                ) == ckey(key),
                None => forall|q: int|
                    0 <= q < self.nodes@[idx as int].entries().len() ==> ckey(
                        #[trigger] self.nodes@[idx as int].entries()[q].0,
                    ) != ckey(key),
            },
    {
        let node = &self.nodes[idx];
        let n = entries_len(&node.data);
        let mut p: usize = 0;
        while p < n
            invariant
                p <= n,
                n == node.entries().len(),
                node == self.nodes@[idx as int],
                forall|q: int| 0 <= q < p ==> ckey(#[trigger] node.entries()[q].0) != ckey(key),
            decreases n - p,
        {
            let e = entries_get(&node.data, p);
            if same_value(e.0, key) {
                return Some(p);
            }
            p += 1;
        }
        None
    }

    /// Binds `key` to `val` in the trie at `id`, which sits at `depth`: a new
    /// trie sharing every untouched subtree with the old one.
    fn champ_assoc(&mut self, id: Handle, key: Value, val: Value, hash: u64, depth: u32) -> (r: Handle)
        requires
            old(self).wf(),
            id.spec_index() < old(self).nodes@.len(),
            old(self).depths@[id.spec_index() as int] == depth,
            depth <= 16,
            hash == khash(key),
            old(self).nodes@.len() + 2 * (18 - depth) < 0xFFFF_0000,
            old(self).view_of(id).len() + 1 < 0x1_0000_0000,
        ensures
            final(self).wf(),
            final(self).grows_from(old(self)),
            final(self).nodes@.len() <= old(self).nodes@.len() + 2 * (18 - depth),
            old(self).nodes@.len() <= r.spec_index() < final(self).nodes@.len(),
            final(self).depths@[r.spec_index() as int] == depth,
            final(self).view_of(r) == old(self).view_of(id).insert(ckey(key), val),
        decreases id.spec_index(),
    {
        let ghost a = self.nodes@;
        let ghost d = self.depths@;
        let ghost i = id.spec_index() as int;
        let ghost x = ckey(key);
        proof {
            assert(node_ok(a, d, i));
            lemma_ckey_idem(key);
        }
        let idx = id.index();
        if self.nodes[idx].is_collision {
            let pos = self.collision_find(idx, key);
            match pos {
                Some(p) => {
                    let node = &self.nodes[idx];
                    let mut new_data = entries_clone(&node.data);
                    let e = entries_get(&node.data, p);
                    entries_set(&mut new_data, p, (e.0, val));
                    let n = MapNode {
                        size: node.size,
                        data_map: 0,
                        node_map: 0,
                        is_collision: true,
                        data: new_data,
                        children: children_new(),
                    };
                    proof {
                        lemma_assoc_coll_found(a, d, i, n, p as int, key, val, depth as nat);
                        assert(node_ok(a.push(n), d.push(depth as nat), a.len() as int));
                    }
                    return self.alloc_map_node(n, depth == 0, Ghost(depth as nat));
                },
                None => {
                    let node = &self.nodes[idx];
                    let mut new_data = entries_clone(&node.data);
                    entries_push(&mut new_data, (key, val));
                    let n = MapNode {
                        size: node.size + 1,
                        data_map: 0,
                        node_map: 0,
                        is_collision: true,
                        data: new_data,
                        children: children_new(),
                    };
                    proof {
                        lemma_assoc_coll_new(a, d, i, n, key, val, depth as nat);
                        assert(node_ok(a.push(n), d.push(depth as nat), a.len() as int));
                    }
                    return self.alloc_map_node(n, depth == 0, Ghost(depth as nat));
                },
            }
        }
        let slot = slot_at(hash, depth);
        let bit = slot_mask(slot);
        let data_map = self.nodes[idx].data_map;
        let node_map = self.nodes[idx].node_map;
        proof {
            lemma_bit_and_mask(data_map, slot as int);
            lemma_bit_and_mask(node_map, slot as int);
            assert(kslot(x, depth as nat) == slot);
        }
        if data_map & bit != 0 {
            let r = rank(data_map, slot);
            proof {
                lemma_rank_lt_popcount(data_map, slot as int);
            }
            let e = entries_get(&self.nodes[idx].data, r);
            if same_value(e.0, key) {
                let node = &self.nodes[idx];
                let mut new_data = entries_clone(&node.data);
                entries_set(&mut new_data, r, (e.0, val));
                let n = MapNode {
                    size: node.size,
                    data_map,
                    node_map,
                    is_collision: false,
                    data: new_data,
                    children: children_clone(&node.children),
                };
                proof {
                    lemma_assoc_replace(a, d, i, n, slot as int, key, val);
                    assert(node_ok(a.push(n), d.push(depth as nat), a.len() as int));
                }
                return self.alloc_map_node(n, depth == 0, Ghost(depth as nat));
            }
            let other_hash = hash_value(e.0);
            let child = self.champ_split(e.0, e.1, other_hash, key, val, hash, depth + 1);
            let ghost a1 = self.nodes@;
            let ghost d1 = self.depths@;
            let new_data_map = data_map ^ bit;
            let new_node_map = node_map | bit;
            proof {
                assert(a1[i] == a[i]);
                lemma_bit_disjoint(data_map, node_map, slot as int);
                lemma_edit_insert(node_map, a[i].kids(), slot as int, child);
                crate::champ::lemma_bits_below_mono(node_map, slot as int, 16);
            }
            let child_pos = rank(new_node_map, slot);
            let node = &self.nodes[idx];
            let mut new_data = entries_clone(&node.data);
            entries_remove(&mut new_data, r);
            let mut new_children = children_clone(&node.children);
            children_insert(&mut new_children, child_pos, child);
            let n = MapNode {
                size: node.size + 1,
                data_map: new_data_map,
                node_map: new_node_map,
                is_collision: false,
                data: new_data,
                children: new_children,
            };
            proof {
                lemma_trie_ext(a, a1, i);
                lemma_assoc_split(a1, d1, i, n, slot as int, child, key, val);
                assert(node_ok(a1.push(n), d1.push(depth as nat), a1.len() as int));
            }
            return self.alloc_map_node(n, depth == 0, Ghost(depth as nat));
        }
        if node_map & bit != 0 {
            let j = rank(node_map, slot);
            proof {
                lemma_rank_lt_popcount(node_map, slot as int);
                lemma_child_le(a, d, i, slot as int);
            }
            let old_child = children_get(&self.nodes[idx].children, j);
            let old_child_size = self.nodes[old_child.index()].size;
            proof {
                assert(node_ok(a, d, old_child.spec_index() as int));
            }
            let new_child = self.champ_assoc(old_child, key, val, hash, depth + 1);
            let ghost a1 = self.nodes@;
            let ghost d1 = self.depths@;
            proof {
                assert(a1[i] == a[i]);
                assert(node_ok(a1, d1, new_child.spec_index() as int));
                lemma_trie_ext(a, a1, i);
                lemma_trie_ext(a, a1, old_child.spec_index() as int);
                lemma_child_insert_sizes(a1, d1, i, slot as int, new_child.spec_index() as int, x, val);
            }
            let new_child_size = self.nodes[new_child.index()].size;
            let node = &self.nodes[idx];
            let mut new_children = children_clone(&node.children);
            children_set(&mut new_children, j, new_child);
            let n = MapNode {
                size: node.size - old_child_size + new_child_size,
                data_map,
                node_map,
                is_collision: false,
                data: entries_clone(&node.data),
                children: new_children,
            };
            proof {
                lemma_assoc_child(a1, d1, i, n, slot as int, new_child, x, val);
                assert(node_ok(a1.push(n), d1.push(depth as nat), a1.len() as int));
            }
            return self.alloc_map_node(n, depth == 0, Ghost(depth as nat));
        }
        let new_data_map = data_map | bit;
        proof {
            lemma_edit_insert(data_map, a[i].entries(), slot as int, (key, val));
            crate::champ::lemma_bits_below_mono(data_map, slot as int, 16);
        }
        let new_data_pos = rank(new_data_map, slot);
        let node = &self.nodes[idx];
        let mut new_data = entries_clone(&node.data);
        entries_insert(&mut new_data, new_data_pos, (key, val));
        let n = MapNode {
            size: node.size + 1,
            data_map: new_data_map,
            node_map,
            is_collision: false,
            data: new_data,
            children: children_clone(&node.children),
        };
        proof {
            lemma_assoc_empty(a, d, i, n, slot as int, key, val);
            assert(node_ok(a.push(n), d.push(depth as nat), a.len() as int));
        }
        self.alloc_map_node(n, depth == 0, Ghost(depth as nat))
    }

    /// Adds `delta` to the integer `key` is bound to in the trie at `id`
    /// (binding `delta` itself where `key` is absent), in one walk down the
    /// trie.
    fn champ_int_add(&mut self, id: Handle, key: Value, delta: i64, hash: u64, depth: u32) -> (r: Handle)
        requires
            old(self).wf(),
            id.spec_index() < old(self).nodes@.len(),
            old(self).depths@[id.spec_index() as int] == depth,
            depth <= 16,
            hash == khash(key),
            old(self).nodes@.len() + 2 * (18 - depth) < 0xFFFF_0000,
            old(self).view_of(id).len() + 1 < 0x1_0000_0000,
            add_fits(old(self).view_of(id), ckey(key), delta),
        ensures
            final(self).wf(),
            final(self).grows_from(old(self)),
            final(self).nodes@.len() <= old(self).nodes@.len() + 2 * (18 - depth),
            old(self).nodes@.len() <= r.spec_index() < final(self).nodes@.len(),
            final(self).depths@[r.spec_index() as int] == depth,
            final(self).view_of(r) == old(self).view_of(id).insert(ckey(key), added(old(self).view_of(id), ckey(key), delta)),
        decreases id.spec_index(),
    {
        let ghost a = self.nodes@;
        let ghost d = self.depths@;
        let ghost i = id.spec_index() as int;
        let ghost x = ckey(key);
        proof {
            assert(node_ok(a, d, i));
            lemma_ckey_idem(key);
        }
        let idx = id.index();
        if self.nodes[idx].is_collision {
            let pos = self.collision_find(idx, key);
            match pos {
                Some(p) => {
                    let node = &self.nodes[idx];
                    let mut new_data = entries_clone(&node.data);
                    let e = entries_get(&node.data, p);
                    proof {
                        lemma_entries(a[i].entries());
                    }
                    let val = Value::Int(int_or_zero(e.1) + delta);
                    entries_set(&mut new_data, p, (e.0, val));
                    let n = MapNode {
                        size: node.size,
                        data_map: 0,
                        node_map: 0,
                        is_collision: true,
                        data: new_data,
                        children: children_new(),
                    };
                    proof {
                        lemma_assoc_coll_found(a, d, i, n, p as int, key, val, depth as nat);
                        assert(node_ok(a.push(n), d.push(depth as nat), a.len() as int));
                    }
                    return self.alloc_map_node(n, depth == 0, Ghost(depth as nat));
                },
                None => {
                    let val = Value::Int(delta);
                    let node = &self.nodes[idx];
                    let mut new_data = entries_clone(&node.data);
                    entries_push(&mut new_data, (key, val));
                    let n = MapNode {
                        size: node.size + 1,
                        data_map: 0,
                        node_map: 0,
                        is_collision: true,
                        data: new_data,
                        children: children_new(),
                    };
                    proof {
                        lemma_assoc_coll_new(a, d, i, n, key, val, depth as nat);
                        assert(val == added(trie_view(a, i), x, delta));
                        assert(node_ok(a.push(n), d.push(depth as nat), a.len() as int));
                    }
                    return self.alloc_map_node(n, depth == 0, Ghost(depth as nat));
                },
            }
        }
        let slot = slot_at(hash, depth);
        let bit = slot_mask(slot);
        let data_map = self.nodes[idx].data_map;
        let node_map = self.nodes[idx].node_map;
        proof {
            lemma_bit_and_mask(data_map, slot as int);
            lemma_bit_and_mask(node_map, slot as int);
            assert(kslot(x, depth as nat) == slot);
        }
        if data_map & bit != 0 {
            let r = rank(data_map, slot);
            proof {
                lemma_rank_lt_popcount(data_map, slot as int);
            }
            let e = entries_get(&self.nodes[idx].data, r);
            if same_value(e.0, key) {
                proof {
                    lemma_branch(a, i, depth as nat);
                    assert(slot_view(a, i, slot as int).contains_key(x));
                }
                let val = Value::Int(int_or_zero(e.1) + delta);
                let node = &self.nodes[idx];
                let mut new_data = entries_clone(&node.data);
                entries_set(&mut new_data, r, (e.0, val));
                let n = MapNode {
                    size: node.size,
                    data_map,
                    node_map,
                    is_collision: false,
                    data: new_data,
                    children: children_clone(&node.children),
                };
                proof {
                    lemma_assoc_replace(a, d, i, n, slot as int, key, val);
                    assert(node_ok(a.push(n), d.push(depth as nat), a.len() as int));
                }
                return self.alloc_map_node(n, depth == 0, Ghost(depth as nat));
            }
            proof {
                lemma_branch(a, i, depth as nat);
                assert(!slot_view(a, i, slot as int).contains_key(x));
            }
            let val = Value::Int(delta);
            let other_hash = hash_value(e.0);
            let child = self.champ_split(e.0, e.1, other_hash, key, val, hash, depth + 1);
            let ghost a1 = self.nodes@;
            let ghost d1 = self.depths@;
            let new_data_map = data_map ^ bit;
            let new_node_map = node_map | bit;
            proof {
                assert(a1[i] == a[i]);
                lemma_bit_disjoint(data_map, node_map, slot as int);
                lemma_edit_insert(node_map, a[i].kids(), slot as int, child);
                crate::champ::lemma_bits_below_mono(node_map, slot as int, 16);
            }
            let child_pos = rank(new_node_map, slot);
            let node = &self.nodes[idx];
            let mut new_data = entries_clone(&node.data);
            entries_remove(&mut new_data, r);
            let mut new_children = children_clone(&node.children);
            children_insert(&mut new_children, child_pos, child);
            let n = MapNode {
                size: node.size + 1,
                data_map: new_data_map,
                node_map: new_node_map,
                is_collision: false,
                data: new_data,
                children: new_children,
            };
            proof {
                lemma_trie_ext(a, a1, i);
                lemma_assoc_split(a1, d1, i, n, slot as int, child, key, val);
                assert(node_ok(a1.push(n), d1.push(depth as nat), a1.len() as int));
            }
            return self.alloc_map_node(n, depth == 0, Ghost(depth as nat));
        }
        if node_map & bit != 0 {
            let j = rank(node_map, slot);
            proof {
                lemma_rank_lt_popcount(node_map, slot as int);
                lemma_child_le(a, d, i, slot as int);
            }
            let old_child = children_get(&self.nodes[idx].children, j);
            let old_child_size = self.nodes[old_child.index()].size;
            proof {
                assert(node_ok(a, d, old_child.spec_index() as int));
            }
            proof {
                assert(added(trie_view(a, old_child.spec_index() as int), x, delta) == added(trie_view(a, i), x, delta));
            }
            let new_child = self.champ_int_add(old_child, key, delta, hash, depth + 1);
            let ghost val = added(trie_view(a, i), x, delta);
            let ghost a1 = self.nodes@;
            let ghost d1 = self.depths@;
            proof {
                assert(a1[i] == a[i]);
                assert(node_ok(a1, d1, new_child.spec_index() as int));
                lemma_trie_ext(a, a1, i);
                lemma_trie_ext(a, a1, old_child.spec_index() as int);
                lemma_child_insert_sizes(a1, d1, i, slot as int, new_child.spec_index() as int, x, val);
            }
            let new_child_size = self.nodes[new_child.index()].size;
            let node = &self.nodes[idx];
            let mut new_children = children_clone(&node.children);
            children_set(&mut new_children, j, new_child);
            let n = MapNode {
                size: node.size - old_child_size + new_child_size,
                data_map,
                node_map,
                is_collision: false,
                data: entries_clone(&node.data),
                children: new_children,
            };
            proof {
                lemma_assoc_child(a1, d1, i, n, slot as int, new_child, x, val);
                assert(node_ok(a1.push(n), d1.push(depth as nat), a1.len() as int));
            }
            return self.alloc_map_node(n, depth == 0, Ghost(depth as nat));
        }
        proof {
            lemma_branch(a, i, depth as nat);
            lemma_bit_disjoint(data_map, node_map, slot as int);
            assert(slot_view(a, i, slot as int) =~= Map::<Value, Value>::empty());
        }
        let val = Value::Int(delta);
        let new_data_map = data_map | bit;
        proof {
            lemma_edit_insert(data_map, a[i].entries(), slot as int, (key, val));
            crate::champ::lemma_bits_below_mono(data_map, slot as int, 16);
        }
        let new_data_pos = rank(new_data_map, slot);
        let node = &self.nodes[idx];
        let mut new_data = entries_clone(&node.data);
        entries_insert(&mut new_data, new_data_pos, (key, val));
        let n = MapNode {
            size: node.size + 1,
            data_map: new_data_map,
            node_map,
            is_collision: false,
            data: new_data,
            children: children_clone(&node.children),
        };
        proof {
            lemma_assoc_empty(a, d, i, n, slot as int, key, val);
            assert(node_ok(a.push(n), d.push(depth as nat), a.len() as int));
        }
        self.alloc_map_node(n, depth == 0, Ghost(depth as nat))
    }

    /// A fresh map: the map at `id` with `key` bound to `val`.
    pub fn map_assoc(&mut self, id: Handle, key: Value, val: Value) -> (r: Handle)
        requires
            old(self).wf(),
            old(self).is_root(id),
            old(self).nodes@.len() + 36 < 0xFFFF_0000,
            old(self).view_of(id).len() + 1 < 0x1_0000_0000,
        ensures
            final(self).wf(),
            final(self).grows_from(old(self)),
            final(self).nodes@.len() <= old(self).nodes@.len() + 36,
            final(self).is_root(r),
            final(self).view_of(r) == old(self).view_of(id).insert(ckey(key), val),
    {
        let hash = hash_value(key);
        self.champ_assoc(id, key, val, hash, 0)
    }
    /// A fresh map: the map at `id` with the integer bound to `key` raised by
    /// `delta`, or `key` bound to `delta` where it was absent.
    pub fn map_int_add(&mut self, id: Handle, key: Value, delta: i64) -> (r: Handle)
        requires
            old(self).wf(),
            old(self).is_root(id),
            old(self).nodes@.len() + 36 < 0xFFFF_0000,
            old(self).view_of(id).len() + 1 < 0x1_0000_0000,
            add_fits(old(self).view_of(id), ckey(key), delta),
        ensures
            final(self).wf(),
            final(self).grows_from(old(self)),
            final(self).nodes@.len() <= old(self).nodes@.len() + 36,
            final(self).is_root(r),
            final(self).view_of(r) == old(self).view_of(id).insert(
                ckey(key),
                added(old(self).view_of(id), ckey(key), delta),
            ),
    {
        let hash = hash_value(key);
        self.champ_int_add(id, key, delta, hash, 0)
    }
    /// A fresh root holding the same node as `id`: same entries, same child
    /// handles.
    fn clone_map_node(&mut self, id: Handle) -> (r: Handle)
        requires
            old(self).wf(),
            id.spec_index() < old(self).nodes@.len(),
            old(self).nodes@.len() + 1 < 0xFFFF_0000,
        ensures
            final(self).wf(),
            final(self).grows_from(old(self)),
            final(self).nodes@.len() == old(self).nodes@.len() + 1,
            r.spec_index() == old(self).nodes@.len(),
            final(self).depths@[r.spec_index() as int] == old(self).depths@[id.spec_index() as int],
            final(self).view_of(r) == old(self).view_of(id),
    {
        let node = &self.nodes[id.index()];
        let n = node.copy();
        let top = self.top[id.index()];
        proof {
            lemma_clone_node(self.nodes@, self.depths@, id.spec_index() as int, n);
            assert(node_ok(
                self.nodes@.push(n),
                self.depths@.push(self.depths@[id.spec_index() as int]),
                self.nodes@.len() as int,
            ));
        }
        self.alloc_map_node(n, top, Ghost(self.depths@[id.spec_index() as int]))
    }

    /// Unbinds `key` in the trie at `id`, which sits at `depth`: a new trie
    /// sharing every untouched subtree with the old one, with a child left
    /// holding one entry pulled up inline and an emptied child dropped.
    fn champ_dissoc(&mut self, id: Handle, key: Value, hash: u64, depth: u32) -> (r: Handle)
        requires
            old(self).wf(),
            id.spec_index() < old(self).nodes@.len(),
            old(self).depths@[id.spec_index() as int] == depth,
            depth <= 16,
            hash == khash(key),
            old(self).nodes@.len() + 2 * (18 - depth) < 0xFFFF_0000,
        ensures
            final(self).wf(),
            final(self).grows_from(old(self)),
            final(self).nodes@.len() <= old(self).nodes@.len() + 2 * (18 - depth),
            old(self).nodes@.len() <= r.spec_index() < final(self).nodes@.len(),
            final(self).depths@[r.spec_index() as int] == depth,
            final(self).view_of(r) == old(self).view_of(id).remove(ckey(key)),
        decreases id.spec_index(),
    {
        let ghost a = self.nodes@;
        let ghost d = self.depths@;
        let ghost i = id.spec_index() as int;
        let ghost x = ckey(key);
        proof {
            assert(node_ok(a, d, i));
            lemma_ckey_idem(key);
        }
        let idx = id.index();
        if self.nodes[idx].is_collision {
            let pos = self.collision_find(idx, key);
            match pos {
                None => {
                    proof {
                        lemma_entries(a[i].entries());
                        assert(!trie_view(a, i).contains_key(x));
                        assert(trie_view(a, i).remove(x) =~= trie_view(a, i));
                    }
                    return self.clone_map_node(id);
                },
                Some(p) => {
                    let node = &self.nodes[idx];
                    let mut new_data = entries_clone(&node.data);
                    entries_remove(&mut new_data, p);
                    proof {
                        lemma_entries(a[i].entries());
                    }
                    let n = MapNode {
                        size: node.size - 1,
                        data_map: 0,
                        node_map: 0,
                        is_collision: true,
                        data: new_data,
                        children: children_new(),
                    };
                    proof {
                        lemma_dissoc_coll(a, d, i, n, p as int, key, depth as nat);
                        assert(node_ok(a.push(n), d.push(depth as nat), a.len() as int));
                    }
                    return self.alloc_map_node(n, depth == 0, Ghost(depth as nat));
                },
            }
        }
        let slot = slot_at(hash, depth);
        let bit = slot_mask(slot);
        let data_map = self.nodes[idx].data_map;
        let node_map = self.nodes[idx].node_map;
        proof {
            lemma_bit_and_mask(data_map, slot as int);
            lemma_bit_and_mask(node_map, slot as int);
            assert(kslot(x, depth as nat) == slot);
            lemma_branch(a, i, depth as nat);
        }
        if data_map & bit != 0 {
            let r = rank(data_map, slot);
            proof {
                lemma_rank_lt_popcount(data_map, slot as int);
            }
            let e = entries_get(&self.nodes[idx].data, r);
            if !same_value(e.0, key) {
                proof {
                    assert(!slot_view(a, i, slot as int).contains_key(x));
                    assert(trie_view(a, i).remove(x) =~= trie_view(a, i));
                }
                return self.clone_map_node(id);
            }
            let new_data_map = data_map ^ bit;
            let node = &self.nodes[idx];
            let mut new_data = entries_clone(&node.data);
            entries_remove(&mut new_data, r);
            proof {
                assert(slot_view(a, i, slot as int).contains_key(x));
                lemma_trie_finite(a, i);
                vstd::set::axiom_set_remove_len(trie_view(a, i).dom(), x);
                assert(trie_view(a, i).len() > 0);
            }
            let n = MapNode {
                size: node.size - 1,
                data_map: new_data_map,
                node_map,
                is_collision: false,
                data: new_data,
                children: children_clone(&node.children),
            };
            proof {
                lemma_dissoc_inline(a, d, i, n, slot as int, key);
                assert(node_ok(a.push(n), d.push(depth as nat), a.len() as int));
            }
            return self.alloc_map_node(n, depth == 0, Ghost(depth as nat));
        }
        if node_map & bit != 0 {
            let j = rank(node_map, slot);
            proof {
                lemma_rank_lt_popcount(node_map, slot as int);
                lemma_child_le(a, d, i, slot as int);
            }
            let old_child = children_get(&self.nodes[idx].children, j);
            let old_child_size = self.nodes[old_child.index()].size;
            proof {
                assert(node_ok(a, d, old_child.spec_index() as int));
            }
            let new_child = self.champ_dissoc(old_child, key, hash, depth + 1);
            let ghost a1 = self.nodes@;
            let ghost d1 = self.depths@;
            let ghost nc = new_child.spec_index() as int;
            proof {
                assert(a1[i] == a[i]);
                assert(node_ok(a1, d1, nc));
                lemma_trie_ext(a, a1, i);
                lemma_trie_ext(a, a1, old_child.spec_index() as int);
                lemma_child_remove_sizes(a1, d1, i, slot as int, nc, x);
            }
            let new_child_size = self.nodes[new_child.index()].size;
            if new_child_size == old_child_size {
                return self.clone_map_node(id);
            }
            if self.nodes[new_child.index()].is_singleton() {
                let kv = entries_get(&self.nodes[new_child.index()].data, 0);
                let new_node_map = node_map ^ bit;
                let new_data_map = data_map | bit;
                proof {
                    lemma_bit_disjoint(data_map, node_map, slot as int);
                    lemma_edit_insert(data_map, a[i].entries(), slot as int, kv);
                    crate::champ::lemma_bits_below_mono(data_map, slot as int, 16);
                    lemma_trie_finite(a1, i);
                }
                let node = &self.nodes[idx];
                let mut new_children = children_clone(&node.children);
                children_remove(&mut new_children, j);
                let new_data_pos = rank(new_data_map, slot);
                let mut new_data = entries_clone(&node.data);
                entries_insert(&mut new_data, new_data_pos, kv);
                let n = MapNode {
                    size: node.size - 1,
                    data_map: new_data_map,
                    node_map: new_node_map,
                    is_collision: false,
                    data: new_data,
                    children: new_children,
                };
                proof {
                    lemma_dissoc_promote(a1, d1, i, n, slot as int, nc, x);
                    assert(node_ok(a1.push(n), d1.push(depth as nat), a1.len() as int));
                }
                return self.alloc_map_node(n, depth == 0, Ghost(depth as nat));
            }
            if self.nodes[new_child.index()].is_empty() {
                let new_node_map = node_map ^ bit;
                proof {
                    lemma_trie_finite(a1, i);
                }
                let node = &self.nodes[idx];
                let mut new_children = children_clone(&node.children);
                children_remove(&mut new_children, j);
                let n = MapNode {
                    size: node.size - 1,
                    data_map,
                    node_map: new_node_map,
                    is_collision: false,
                    data: entries_clone(&node.data),
                    children: new_children,
                };
                proof {
                    lemma_dissoc_drop(a1, d1, i, n, slot as int, nc, x);
                    assert(node_ok(a1.push(n), d1.push(depth as nat), a1.len() as int));
                }
                return self.alloc_map_node(n, depth == 0, Ghost(depth as nat));
            }
            let node = &self.nodes[idx];
            let mut new_children = children_clone(&node.children);
            children_set(&mut new_children, j, new_child);
            let n = MapNode {
                size: node.size - old_child_size + new_child_size,
                data_map,
                node_map,
                is_collision: false,
                data: entries_clone(&node.data),
                children: new_children,
            };
            proof {
                lemma_dissoc_swap(a1, d1, i, n, slot as int, new_child, x);
                assert(node_ok(a1.push(n), d1.push(depth as nat), a1.len() as int));
            }
            return self.alloc_map_node(n, depth == 0, Ghost(depth as nat));
        }
        proof {
            lemma_bit_disjoint(data_map, node_map, slot as int);
            assert(slot_view(a, i, slot as int) =~= Map::<Value, Value>::empty());
            assert(trie_view(a, i).remove(x) =~= trie_view(a, i));
        }
        self.clone_map_node(id)
    }

    /// A fresh map: the map at `id` without `key`; a copy of its root where
    /// `key` was absent.
    pub fn map_dissoc(&mut self, id: Handle, key: Value) -> (r: Handle)
        requires
            old(self).wf(),
            old(self).is_root(id),
            old(self).nodes@.len() + 36 < 0xFFFF_0000,
        ensures
            final(self).wf(),
            final(self).grows_from(old(self)),
            final(self).nodes@.len() <= old(self).nodes@.len() + 36,
            final(self).is_root(r),
            final(self).view_of(r) == old(self).view_of(id).remove(ckey(key)),
    {
        let hash = hash_value(key);
        self.champ_dissoc(id, key, hash, 0)
    }
}


/// Growing is transitive.
pub proof fn lemma_grows_trans(c: &MapArena, b: &MapArena, a: &MapArena)
    requires
        c.grows_from(b),
        b.grows_from(a),
    ensures
        c.grows_from(a),
{
    assert forall|j: int| 0 <= j < a.nodes@.len() implies c.nodes@[j] == a.nodes@[j] by {
        assert(b.nodes@[j] == a.nodes@[j]);
    }
    assert forall|j: int| 0 <= j < a.depths@.len() implies c.depths@[j] == a.depths@[j] by {
        assert(b.depths@[j] == a.depths@[j]);
    }
}

/// Maps are values: once built, a map keeps its contents while the arena
/// grows, whatever is built after it.
pub proof fn lemma_maps_persist(a: &MapArena, b: &MapArena, id: Handle)
    requires
        b.grows_from(a),
        a.is_root(id),
    ensures
        b.is_root(id),
        b.view_of(id) == a.view_of(id),
{
    lemma_trie_ext(a.nodes@, b.nodes@, id.spec_index() as int);
}

/// The map handle a value carries, if it is a map.
pub open spec fn map_handle(v: Value) -> Option<Handle> {
    match v {
        Value::Mapping(h) => Some(h),
        _ => None,
    }
}

impl Heap {
    /// A fresh empty map.
    pub fn alloc_empty_map(&mut self) -> (r: Value)
        requires
            old(self).maps.wf(),
            old(self).maps.nodes@.len() + 1 < 0xFFFF_0000,
        ensures
            *final(self) == (Heap { maps: final(self).maps, ..*old(self) }),
            final(self).maps.wf(),
            final(self).maps.grows_from(&old(self).maps),
            final(self).maps.nodes@.len() == old(self).maps.nodes@.len() + 1,
            map_handle(r) is Some,
            final(self).maps.is_root(map_handle(r)->0),
            final(self).maps.view_of(map_handle(r)->0) == Map::<Value, Value>::empty(),
    {
        Value::Mapping(self.maps.alloc_empty_map())
    }

    /// The value `key` maps to in the map at `id`, by key identity.
    pub fn map_get(&self, id: Handle, key: Value) -> (r: Option<Value>)
        requires
            self.maps.wf(),
            self.maps.is_root(id),
        ensures
            r == (if self.maps.view_of(id).contains_key(ckey(key)) {
                Some(self.maps.view_of(id)[ckey(key)])
            } else {
                None
            }),
    {
        self.maps.map_get(id, key)
    }

    /// A fresh map with `key` bound to `val`.
    pub fn map_assoc(&mut self, id: Handle, key: Value, val: Value) -> (r: Value)
        requires
            old(self).maps.wf(),
            old(self).maps.is_root(id),
            old(self).maps.nodes@.len() + 36 < 0xFFFF_0000,
            old(self).maps.view_of(id).len() + 1 < 0x1_0000_0000,
        ensures
            *final(self) == (Heap { maps: final(self).maps, ..*old(self) }),
            final(self).maps.wf(),
            final(self).maps.grows_from(&old(self).maps),
            final(self).maps.nodes@.len() <= old(self).maps.nodes@.len() + 36,
            map_handle(r) is Some,
            final(self).maps.is_root(map_handle(r)->0),
            final(self).maps.view_of(map_handle(r)->0) == old(self).maps.view_of(id).insert(
                ckey(key),
                val,
            ),
    {
        Value::Mapping(self.maps.map_assoc(id, key, val))
    }

    /// A fresh map with the integer under `key` raised by `delta` (`delta`
    /// itself where `key` was absent), in one walk.
    pub fn map_int_add(&mut self, id: Handle, key: Value, delta: i64) -> (r: Value)
        requires
            old(self).maps.wf(),
            old(self).maps.is_root(id),
            old(self).maps.nodes@.len() + 36 < 0xFFFF_0000,
            old(self).maps.view_of(id).len() + 1 < 0x1_0000_0000,
            add_fits(old(self).maps.view_of(id), ckey(key), delta),
        ensures
            *final(self) == (Heap { maps: final(self).maps, ..*old(self) }),
            final(self).maps.wf(),
            final(self).maps.grows_from(&old(self).maps),
            final(self).maps.nodes@.len() <= old(self).maps.nodes@.len() + 36,
            map_handle(r) is Some,
            final(self).maps.is_root(map_handle(r)->0),
            final(self).maps.view_of(map_handle(r)->0) == old(self).maps.view_of(id).insert(
                ckey(key),
                added(old(self).maps.view_of(id), ckey(key), delta),
            ),
    {
        Value::Mapping(self.maps.map_int_add(id, key, delta))
    }

    /// A fresh map with `key` removed.
    pub fn map_dissoc(&mut self, id: Handle, key: Value) -> (r: Value)
        requires
            old(self).maps.wf(),
            old(self).maps.is_root(id),
            old(self).maps.nodes@.len() + 36 < 0xFFFF_0000,
        ensures
            *final(self) == (Heap { maps: final(self).maps, ..*old(self) }),
            final(self).maps.wf(),
            final(self).maps.grows_from(&old(self).maps),
            final(self).maps.nodes@.len() <= old(self).maps.nodes@.len() + 36,
            map_handle(r) is Some,
            final(self).maps.is_root(map_handle(r)->0),
            final(self).maps.view_of(map_handle(r)->0) == old(self).maps.view_of(id).remove(
                ckey(key),
            ),
    {
        Value::Mapping(self.maps.map_dissoc(id, key))
    }

    /// Number of entries in the map at `id`.
    pub fn map_size(&self, id: Handle) -> (r: usize)
        requires
            self.maps.wf(),
            self.maps.is_root(id),
        ensures
            r == self.maps.view_of(id).len(),
    {
        self.maps.map_size(id)
    }

    /// Pours `pairs` into the map at `into`, one binding after another, so a
    /// later pair for a key wins.
    fn assoc_all(&mut self, into: Handle, pairs: &Vec<(Value, Value)>) -> (r: Handle)
        requires
            old(self).maps.wf(),
            old(self).maps.is_root(into),
            old(self).maps.nodes@.len() + 37 * (pairs@.len() + 1) < 0xFFFF_0000,
            old(self).maps.view_of(into).len() + pairs@.len() + 1 < 0x1_0000_0000,
        ensures
            *final(self) == (Heap { maps: final(self).maps, ..*old(self) }),
            final(self).maps.wf(),
            final(self).maps.grows_from(&old(self).maps),
            final(self).maps.is_root(r),
            final(self).maps.view_of(r) == old(self).maps.view_of(into).union_prefer_right(
                entries_view(pairs@),
            ),
    {
        let ghost m0 = self.maps.view_of(into);
        let mut current = into;
        let mut k: usize = 0;
        while k < pairs.len()
            invariant
                k <= pairs@.len(),
                *self == (Heap { maps: self.maps, ..*old(self) }),
                self.maps.wf(),
                self.maps.grows_from(&old(self).maps),
                self.maps.is_root(current),
                self.maps.view_of(current) == m0.union_prefer_right(entries_view(pairs@.take(k as int))),
                self.maps.nodes@.len() + 37 * (pairs@.len() - k + 1) < 0xFFFF_0000,
                m0.len() + pairs@.len() + 1 < 0x1_0000_0000,
                m0 == old(self).maps.view_of(into),
                old(self).maps.wf(),
            decreases pairs@.len() - k,
        {
            let (kk, vv) = pairs[k];
            let ghost before = self.maps;
            let ghost t = pairs@.take(k as int);
            proof {
                lemma_entries(t);
                lemma_trie_finite(old(self).maps.nodes@, into.spec_index() as int);
                assert(m0.union_prefer_right(entries_view(t)).dom() =~= m0.dom().union(
                    entries_view(t).dom(),
                ));
                vstd::set_lib::lemma_len_union(m0.dom(), entries_view(t).dom());
            }
            current = self.maps.map_assoc(current, kk, vv);
            proof {
                lemma_grows_trans(&self.maps, &before, &old(self).maps);
                let t2 = pairs@.take(k + 1);
                assert(t2.drop_last() =~= t);
                assert(t2.last() == (kk, vv));
                assert(entries_view(t2) == entries_view(t).insert(ckey(kk), vv));
                assert(m0.union_prefer_right(entries_view(t2)) =~= m0.union_prefer_right(
                    entries_view(t),
                ).insert(ckey(kk), vv));
            }
            k += 1;
        }
        proof {
            assert(pairs@.take(pairs@.len() as int) =~= pairs@);
        }
        current
    }

    /// A fresh map built from `pairs`; a later pair for a key wins.
    pub fn map_from_pairs(&mut self, pairs: Vec<(Value, Value)>) -> (r: Value)
        requires
            old(self).maps.wf(),
            old(self).maps.nodes@.len() + 37 * (pairs@.len() + 2) < 0xFFFF_0000,
            pairs@.len() + 1 < 0x1_0000_0000,
        ensures
            *final(self) == (Heap { maps: final(self).maps, ..*old(self) }),
            final(self).maps.wf(),
            final(self).maps.grows_from(&old(self).maps),
            map_handle(r) is Some,
            final(self).maps.is_root(map_handle(r)->0),
            final(self).maps.view_of(map_handle(r)->0) == entries_view(pairs@),
    {
        let root = self.maps.alloc_empty_map();
        let ghost mid = self.maps;
        let current = self.assoc_all(root, &pairs);
        proof {
            lemma_grows_trans(&self.maps, &mid, &old(self).maps);
            assert(Map::<Value, Value>::empty().union_prefer_right(entries_view(pairs@)) =~= entries_view(
                pairs@,
            ));
        }
        Value::Mapping(current)
    }
    /// Pours `pairs` into the map at `into`: a fresh map where a later pair for
    /// a key wins over an earlier one and over `into`'s own binding.
    pub fn map_from_pairs_into(&mut self, into: Handle, pairs: Vec<(Value, Value)>) -> (r: Value)
        requires
            old(self).maps.wf(),
            old(self).maps.is_root(into),
            old(self).maps.nodes@.len() + 37 * (pairs@.len() + 1) < 0xFFFF_0000,
            old(self).maps.view_of(into).len() + pairs@.len() + 1 < 0x1_0000_0000,
        ensures
            *final(self) == (Heap { maps: final(self).maps, ..*old(self) }),
            final(self).maps.wf(),
            final(self).maps.grows_from(&old(self).maps),
            map_handle(r) is Some,
            final(self).maps.is_root(map_handle(r)->0),
            final(self).maps.view_of(map_handle(r)->0) == old(self).maps.view_of(
                into,
            ).union_prefer_right(entries_view(pairs@)),
    {
        Value::Mapping(self.assoc_all(into, &pairs))
    }

    /// A set of `elems` as a map binding each element's identity to `true`.
    pub fn set_from_elems(&mut self, elems: Vec<Value>) -> (r: Value)
        requires
            old(self).maps.wf(),
            old(self).maps.nodes@.len() + 37 * (elems@.len() + 2) < 0xFFFF_0000,
            elems@.len() + 1 < 0x1_0000_0000,
        ensures
            *final(self) == (Heap { maps: final(self).maps, ..*old(self) }),
            final(self).maps.wf(),
            final(self).maps.grows_from(&old(self).maps),
            map_handle(r) is Some,
            final(self).maps.is_root(map_handle(r)->0),
            final(self).maps.view_of(map_handle(r)->0) == entries_view(set_pairs(elems@)),
    {
        let mut pairs: Vec<(Value, Value)> = Vec::new();
        let mut k: usize = 0;
        while k < elems.len()
            invariant
                k <= elems@.len(),
                pairs@ == set_pairs(elems@.take(k as int)),
            decreases elems@.len() - k,
        {
            pairs.push((elems[k], Value::Bool(true)));
            proof {
                assert(set_pairs(elems@.take(k + 1)) =~= set_pairs(elems@.take(k as int)).push(
                    (elems@[k as int], Value::Bool(true)),
                ));
            }
            k += 1;
        }
        proof {
            assert(elems@.take(elems@.len() as int) =~= elems@);
        }
        self.map_from_pairs(pairs)
    }
}

/// Each element paired with `true`: the entries of a set's map.
pub open spec fn set_pairs(s: Seq<Value>) -> Seq<(Value, Value)> {
    s.map_values(|e: Value| (e, Value::Bool(true)))
}

/// The integer a value holds, or zero for a value that is no integer.
pub open spec fn spec_int_or_zero(v: Value) -> int {
    match v {
        Value::Int(i) => i as int,
        _ => 0,
    }
}

/// The integer a value holds, or zero for a value that is no integer.
pub fn int_or_zero(v: Value) -> (r: i64)
    ensures
        r == spec_int_or_zero(v),
{
    match v {
        Value::Int(i) => i,
        _ => 0,
    }
}

/// Adding `delta` to what `m` binds `x` to stays in the integer range.
pub open spec fn add_fits(m: Map<Value, Value>, x: Value, delta: i64) -> bool {
    m.contains_key(x) ==> i64::MIN <= spec_int_or_zero(m[x]) + delta <= i64::MAX
}

/// What an integer add binds `x` to: the old integer (zero for a non-integer)
/// plus `delta`, or `delta` where `x` was absent.
pub open spec fn added(m: Map<Value, Value>, x: Value, delta: i64) -> Value {
    if m.contains_key(x) {
        Value::Int((spec_int_or_zero(m[x]) + delta) as i64)
    } else {
        Value::Int(delta)
    }
}

/// The map binding just two keys.
pub open spec fn pair_map(k1: Value, v1: Value, k2: Value, v2: Value) -> Map<Value, Value> {
    Map::<Value, Value>::empty().insert(ckey(k1), v1).insert(ckey(k2), v2)
}

proof fn lemma_split_collision(
    a1: Seq<MapNode>,
    d1: Seq<nat>,
    n: MapNode,
    k1: Value,
    v1: Value,
    k2: Value,
    v2: Value,
    depth: nat,
)
    requires
        a1.len() == d1.len(),
        n.is_collision,
        n.size == 2,
        n.entries() == Seq::<(Value, Value)>::empty().push((k1, v1)).push((k2, v2)),
        ckey(k1) != ckey(k2),
    ensures
        node_ok(a1.push(n), d1.push(depth), a1.len() as int),
        trie_view(a1.push(n), a1.len() as int) == pair_map(k1, v1, k2, v2),
{
    let a2 = a1.push(n);
    let j = a1.len() as int;
    let e0 = Seq::<(Value, Value)>::empty();
    let e1 = e0.push((k1, v1));
    lemma_entries_push(e0, (k1, v1));
    assert(keys_distinct(e0));
    assert(entries_view(e0) == Map::<Value, Value>::empty());
    lemma_entries_push(e1, (k2, v2));
    lemma_entries(n.entries());
    assert(a2[j] == n);
    assert(trie_view(a2, j) == entries_view(n.entries()));
}

proof fn lemma_split_deeper(
    a1: Seq<MapNode>,
    d1: Seq<nat>,
    n: MapNode,
    child: Handle,
    ss: int,
    k1: Value,
    v1: Value,
    k2: Value,
    v2: Value,
    depth: nat,
)
    requires
        a1.len() == d1.len(),
        0 <= ss < 16,
        depth < 16,
        !n.is_collision,
        n.size == 2,
        n.data_map == 0,
        n.node_map == 1u16 << (ss as u16),
        n.entries() == Seq::<(Value, Value)>::empty(),
        n.kids() == Seq::<Handle>::empty().push(child),
        child.spec_index() < a1.len(),
        d1[child.spec_index() as int] == depth + 1,
        trie_view(a1, child.spec_index() as int) == pair_map(k1, v1, k2, v2),
        ckey(k1) != ckey(k2),
        kslot(ckey(k1), depth) == ss,
        kslot(ckey(k2), depth) == ss,
    ensures
        node_ok(a1.push(n), d1.push(depth), a1.len() as int),
        trie_view(a1.push(n), a1.len() as int) == pair_map(k1, v1, k2, v2),
{
    let a2 = a1.push(n);
    let d2 = d1.push(depth);
    let j = a1.len() as int;
    let c = child.spec_index() as int;
    let want = pair_map(k1, v1, k2, v2);
    assert(a2[j] == n);
    lemma_popcount_zero(16);
    lemma_popcount_zero(ss);
    lemma_bit_zero(ss);
    lemma_edit_insert(0u16, Seq::<Handle>::empty(), ss, child);
    let b = 1u16 << (ss as u16);
    assert(0u16 | b == b) by (bit_vector);
    assert(n.kids() =~= Seq::<Handle>::empty().insert(0, child));
    assert(0u16 & b == 0u16) by (bit_vector);
    assert(extends(a2, a1));
    lemma_trie_ext(a1, a2, c);
    assert(slot_child(n, ss) == c);
    assert(slot_view(a2, j, ss) == want);
    assert forall|t: int| 0 <= t < 16 && t != ss implies slot_view(a2, j, t) =~= Map::<
        Value,
        Value,
    >::empty() by {
        lemma_bit_zero(t);
    }
    assert(slots_ok(a2, j, depth)) by {
        assert forall|t: int, x: Value|
            0 <= t < 16 && #[trigger] slot_view(a2, j, t).contains_key(x) implies kslot(x, depth)
            == t by {
            if t != ss {
                assert(slot_view(a2, j, t) =~= Map::<Value, Value>::empty());
            }
        }
    }
    lemma_branch(a2, j, depth);
    assert forall|x: Value| trie_view(a2, j).contains_key(x) <==> want.contains_key(x) by {
        lemma_kslot_range(x, depth);
        if kslot(x, depth) != ss {
            assert(slot_view(a2, j, kslot(x, depth)) =~= Map::<Value, Value>::empty());
        }
    }
    assert(trie_view(a2, j) =~= want);
    assert forall|t: int|
        #![trigger bit_set(n.node_map, t)]
        0 <= t < 16 && bit_set(n.node_map, t) implies {
        let c = slot_child(n, t);
        0 <= c < j && d2[c] == d2[j] + 1
    } by {
        if t != ss {
            lemma_bit_zero(t);
        }
    }
    assert(node_ok(a2, d2, j));
}

proof fn lemma_split_two(
    a1: Seq<MapNode>,
    d1: Seq<nat>,
    n: MapNode,
    lo: int,
    hi: int,
    lo_kv: (Value, Value),
    hi_kv: (Value, Value),
    depth: nat,
)
    requires
        a1.len() == d1.len(),
        0 <= lo < hi < 16,
        depth < 16,
        !n.is_collision,
        n.size == 2,
        n.data_map == (1u16 << (lo as u16)) | (1u16 << (hi as u16)),
        n.node_map == 0,
        n.entries() == Seq::<(Value, Value)>::empty().push(lo_kv).push(hi_kv),
        n.kids() == Seq::<Handle>::empty(),
        ckey(lo_kv.0) != ckey(hi_kv.0),
        kslot(ckey(lo_kv.0), depth) == lo,
        kslot(ckey(hi_kv.0), depth) == hi,
    ensures
        node_ok(a1.push(n), d1.push(depth), a1.len() as int),
        trie_view(a1.push(n), a1.len() as int) == pair_map(lo_kv.0, lo_kv.1, hi_kv.0, hi_kv.1),
{
    let a2 = a1.push(n);
    let d2 = d1.push(depth);
    let j = a1.len() as int;
    let want = pair_map(lo_kv.0, lo_kv.1, hi_kv.0, hi_kv.1);
    assert(a2[j] == n);
    let blo = 1u16 << (lo as u16);
    let sq1 = Seq::<(Value, Value)>::empty().insert(0, lo_kv);
    lemma_popcount_zero(16);
    lemma_popcount_zero(lo);
    lemma_popcount_zero(hi);
    lemma_bit_zero(lo);
    lemma_edit_insert(0u16, Seq::<(Value, Value)>::empty(), lo, lo_kv);
    assert(0u16 | blo == blo) by (bit_vector);
    lemma_bits_below_insert(0u16, lo, hi);
    assert(!bit_set(blo, hi)) by {
        lemma_bit_zero(hi);
    }
    lemma_edit_insert(blo, sq1, hi, hi_kv);
    assert(n.entries() =~= sq1.insert(1, hi_kv));
    let dm = n.data_map;
    assert(dm & 0u16 == 0u16) by (bit_vector);
    assert(bit_set(blo, lo));
    assert(bits_below(blo, lo) == 0);
    assert(bit_set(dm, lo));
    assert(bits_below(dm, lo) < n.entries().len());
    assert(n.entries()[bits_below(dm, lo) as int] == sq1[0]);
    assert(slot_entry(n, lo) == lo_kv);
    assert(slot_view(a2, j, lo) == Map::<Value, Value>::empty().insert(ckey(lo_kv.0), lo_kv.1));
    assert(slot_view(a2, j, hi) == Map::<Value, Value>::empty().insert(ckey(hi_kv.0), hi_kv.1));
    assert forall|t: int| 0 <= t < 16 && t != lo && t != hi implies slot_view(a2, j, t) =~= Map::<
        Value,
        Value,
    >::empty() by {
        lemma_bit_zero(t);
    }
    assert(slots_ok(a2, j, depth)) by {
        assert forall|t: int, x: Value|
            0 <= t < 16 && #[trigger] slot_view(a2, j, t).contains_key(x) implies kslot(x, depth)
            == t by {
            if t != lo && t != hi {
                assert(slot_view(a2, j, t) =~= Map::<Value, Value>::empty());
            }
        }
    }
    lemma_branch(a2, j, depth);
    assert forall|x: Value| trie_view(a2, j).contains_key(x) <==> want.contains_key(x) by {
        lemma_kslot_range(x, depth);
        if kslot(x, depth) != lo && kslot(x, depth) != hi {
            assert(slot_view(a2, j, kslot(x, depth)) =~= Map::<Value, Value>::empty());
        }
    }
    assert(trie_view(a2, j) =~= want);
    assert forall|t: int|
        #![trigger bit_set(n.node_map, t)]
        0 <= t < 16 implies !bit_set(n.node_map, t) by {
        lemma_bit_zero(t);
    }
    assert(node_ok(a2, d2, j));
}

/// The branch `i` of a well-formed arena, moved into an arena that grew by one
/// node: still well formed, and every old node keeps its map.
proof fn lemma_pushed(a: Seq<MapNode>, d: Seq<nat>, n: MapNode, dn: nat, i: int)
    requires
        arena_ok(a, d),
        0 <= i < a.len(),
    ensures
        extends(a.push(n), a),
        a.push(n).drop_last() == a,
        d.push(dn).drop_last() == d,
        node_ok(a.push(n), d.push(dn), i),
        trie_view(a.push(n), i) == trie_view(a, i),
        a.push(n)[i] == a[i],
{
    assert(extends(a.push(n), a));
    assert(a.push(n).drop_last() =~= a);
    assert(d.push(dn).drop_last() =~= d);
    assert(node_ok(a, d, i));
    lemma_node_ok_ext(a, d, a.push(n), d.push(dn), i);
    lemma_trie_ext(a, a.push(n), i);
}

/// A copy of branch `i` whose slot `s` entry (the key `key`'s) now holds `val`.
proof fn lemma_assoc_replace(a: Seq<MapNode>, d: Seq<nat>, i: int, n2: MapNode, s: int, key: Value, val: Value)
    requires
        arena_ok(a, d),
        0 <= i < a.len(),
        !a[i].is_collision,
        0 <= s < 16,
        bit_set(a[i].data_map, s),
        kslot(ckey(key), d[i]) == s,
        ckey(slot_entry(a[i], s).0) == ckey(key),
        !n2.is_collision,
        n2.data_map == a[i].data_map,
        n2.node_map == a[i].node_map,
        n2.entries() == a[i].entries().update(
            bits_below(a[i].data_map, s) as int,
            (slot_entry(a[i], s).0, val),
        ),
        n2.kids() == a[i].kids(),
        n2.size == a[i].size,
    ensures
        arena_ok(a.push(n2), d.push(d[i])),
        trie_view(a.push(n2), a.len() as int) == trie_view(a, i).insert(ckey(key), val),
{
    let a2 = a.push(n2);
    let d2 = d.push(d[i]);
    let j = a.len() as int;
    let ni = a[i];
    let x = ckey(key);
    lemma_pushed(a, d, n2, d[i], i);
    lemma_edit_update(ni.data_map, ni.entries(), s, (slot_entry(ni, s).0, val));
    lemma_edit_none(ni.node_map, ni.kids(), s);
    lemma_bit_disjoint(ni.data_map, ni.node_map, s);
    assert(a2[j] == n2);
    assert(slot_view(a2, j, s) =~= slot_view(a2, i, s).insert(x, val));
    lemma_branch(a2, i, d[i]);
    lemma_trie_finite(a2, i);
    assert(trie_view(a2, i).contains_key(x));
    assert(trie_view(a2, i).insert(x, val).dom() =~= trie_view(a2, i).dom());
    lemma_new_branch(a2, d2, i, s, x, val, true);
}

/// A copy of branch `i` whose empty slot `s` now holds `key -> val` inline.
proof fn lemma_assoc_empty(a: Seq<MapNode>, d: Seq<nat>, i: int, n2: MapNode, s: int, key: Value, val: Value)
    requires
        arena_ok(a, d),
        0 <= i < a.len(),
        !a[i].is_collision,
        0 <= s < 16,
        !bit_set(a[i].data_map, s),
        !bit_set(a[i].node_map, s),
        kslot(ckey(key), d[i]) == s,
        !n2.is_collision,
        n2.data_map == a[i].data_map | (1u16 << (s as u16)),
        n2.node_map == a[i].node_map,
        n2.entries() == a[i].entries().insert(bits_below(a[i].data_map, s) as int, (key, val)),
        n2.kids() == a[i].kids(),
        n2.size == a[i].size + 1,
    ensures
        arena_ok(a.push(n2), d.push(d[i])),
        trie_view(a.push(n2), a.len() as int) == trie_view(a, i).insert(ckey(key), val),
{
    let a2 = a.push(n2);
    let d2 = d.push(d[i]);
    let j = a.len() as int;
    let ni = a[i];
    let x = ckey(key);
    lemma_pushed(a, d, n2, d[i], i);
    assert(node_ok(a, d, i));
    crate::champ::lemma_bits_below_mono(ni.data_map, s, 16);
    lemma_edit_insert(ni.data_map, ni.entries(), s, (key, val));
    lemma_edit_none(ni.node_map, ni.kids(), s);
    assert(a2[j] == n2);
    ni.entries().insert_ensures(bits_below(ni.data_map, s) as int, (key, val));
    assert(slot_view(a2, i, s) =~= Map::<Value, Value>::empty());
    assert(slot_view(a2, j, s) =~= slot_view(a2, i, s).insert(x, val));
    let dm = ni.data_map;
    let nm = ni.node_map;
    let ss = s as u16;
    assert((dm | (1u16 << ss)) & nm == 0) by (bit_vector)
        requires
            dm & nm == 0,
            (nm >> ss) & 1u16 != 1u16,
            ss < 16,
    ;
    lemma_branch(a2, i, d[i]);
    lemma_trie_finite(a2, i);
    assert(!trie_view(a2, i).contains_key(x));
    assert(trie_view(a2, i).insert(x, val).dom() =~= trie_view(a2, i).dom().insert(x));
    lemma_new_branch(a2, d2, i, s, x, val, true);
}

/// A copy of branch `i` whose slot `s` entry moved down into `child`, a new
/// subtree holding it together with `key -> val`.
proof fn lemma_assoc_split(
    a: Seq<MapNode>,
    d: Seq<nat>,
    i: int,
    n2: MapNode,
    s: int,
    child: Handle,
    key: Value,
    val: Value,
)
    requires
        arena_ok(a, d),
        0 <= i < a.len(),
        !a[i].is_collision,
        0 <= s < 16,
        bit_set(a[i].data_map, s),
        kslot(ckey(key), d[i]) == s,
        ckey(slot_entry(a[i], s).0) != ckey(key),
        0 <= child.spec_index() < a.len(),
        d[child.spec_index() as int] == d[i] + 1,
        trie_view(a, child.spec_index() as int) == pair_map(
            slot_entry(a[i], s).0,
            slot_entry(a[i], s).1,
            key,
            val,
        ),
        !n2.is_collision,
        n2.data_map == a[i].data_map ^ (1u16 << (s as u16)),
        n2.node_map == a[i].node_map | (1u16 << (s as u16)),
        n2.entries() == a[i].entries().remove(bits_below(a[i].data_map, s) as int),
        n2.kids() == a[i].kids().insert(bits_below(a[i].node_map, s) as int, child),
        n2.size == a[i].size + 1,
    ensures
        arena_ok(a.push(n2), d.push(d[i])),
        trie_view(a.push(n2), a.len() as int) == trie_view(a, i).insert(ckey(key), val),
{
    let a2 = a.push(n2);
    let d2 = d.push(d[i]);
    let j = a.len() as int;
    let ni = a[i];
    let x = ckey(key);
    let c = child.spec_index() as int;
    lemma_pushed(a, d, n2, d[i], i);
    assert(node_ok(a, d, i));
    crate::champ::lemma_bits_below_mono(ni.node_map, s, 16);
    lemma_bit_disjoint(ni.data_map, ni.node_map, s);
    lemma_edit_remove(ni.data_map, ni.entries(), s);
    lemma_edit_insert(ni.node_map, ni.kids(), s, child);
    ni.kids().insert_ensures(bits_below(ni.node_map, s) as int, child);
    assert(a2[j] == n2);
    lemma_trie_ext(a, a2, c);
    assert(slot_child(n2, s) == c);
    assert(slot_view(a2, j, s) == trie_view(a, c));
    let e = slot_entry(ni, s);
    assert(slot_view(a2, i, s) == Map::<Value, Value>::empty().insert(ckey(e.0), e.1));
    assert(slot_view(a2, j, s) =~= slot_view(a2, i, s).insert(x, val));
    let dm = ni.data_map;
    let nm = ni.node_map;
    let ss = s as u16;
    assert((dm ^ (1u16 << ss)) & (nm | (1u16 << ss)) == 0) by (bit_vector)
        requires
            dm & nm == 0,
            (dm >> ss) & 1u16 == 1u16,
            ss < 16,
    ;
    lemma_branch(a2, i, d[i]);
    lemma_trie_finite(a2, i);
    assert(!trie_view(a2, i).contains_key(x));
    assert(trie_view(a2, i).insert(x, val).dom() =~= trie_view(a2, i).dom().insert(x));
    lemma_new_branch(a2, d2, i, s, x, val, true);
}

/// A copy of collision leaf `i` whose entry `p` (the key `key`'s) holds `val`.
proof fn lemma_assoc_coll_found(a: Seq<MapNode>, d: Seq<nat>, i: int, n2: MapNode, p: int, key: Value, val: Value, dn: nat)
    requires
        arena_ok(a, d),
        0 <= i < a.len(),
        a[i].is_collision,
        0 <= p < a[i].entries().len(),
        ckey(a[i].entries()[p].0) == ckey(key),
        n2.is_collision,
        n2.entries() == a[i].entries().update(p, (a[i].entries()[p].0, val)),
        n2.size == a[i].size,
    ensures
        arena_ok(a.push(n2), d.push(dn)),
        trie_view(a.push(n2), a.len() as int) == trie_view(a, i).insert(ckey(key), val),
{
    let a2 = a.push(n2);
    let j = a.len() as int;
    let es = a[i].entries();
    assert(node_ok(a, d, i));
    lemma_entries_update(es, p, val);
    lemma_entries(es);
    lemma_entries(n2.entries());
    assert(a2[j] == n2);
    assert(trie_view(a2, j) == entries_view(n2.entries()));
    assert(node_ok(a2, d.push(dn), j));
    lemma_arena_push(a, d, n2, dn);
}

/// A copy of collision leaf `i`, which lacks `key`, with `key -> val` appended.
proof fn lemma_assoc_coll_new(a: Seq<MapNode>, d: Seq<nat>, i: int, n2: MapNode, key: Value, val: Value, dn: nat)
    requires
        arena_ok(a, d),
        0 <= i < a.len(),
        a[i].is_collision,
        forall|q: int| 0 <= q < a[i].entries().len() ==> ckey(#[trigger] a[i].entries()[q].0) != ckey(key),
        n2.is_collision,
        n2.entries() == a[i].entries().push((key, val)),
        n2.size == a[i].size + 1,
    ensures
        arena_ok(a.push(n2), d.push(dn)),
        trie_view(a.push(n2), a.len() as int) == trie_view(a, i).insert(ckey(key), val),
        !trie_view(a, i).contains_key(ckey(key)),
{
    let a2 = a.push(n2);
    let j = a.len() as int;
    let es = a[i].entries();
    assert(node_ok(a, d, i));
    lemma_entries(es);
    assert(!entries_view(es).contains_key(ckey(key)));
    lemma_entries_push(es, (key, val));
    lemma_entries(n2.entries());
    assert(a2[j] == n2);
    assert(trie_view(a2, j) == entries_view(n2.entries()));
    assert(node_ok(a2, d.push(dn), j));
    lemma_arena_push(a, d, n2, dn);
}

/// A child's map is part of its parent's.
proof fn lemma_child_le(a: Seq<MapNode>, d: Seq<nat>, i: int, s: int)
    requires
        arena_ok(a, d),
        0 <= i < a.len(),
        !a[i].is_collision,
        0 <= s < 16,
        bit_set(a[i].node_map, s),
    ensures
        0 <= slot_child(a[i], s) < i,
        d[slot_child(a[i], s)] == d[i] + 1,
        trie_view(a, slot_child(a[i], s)).len() <= a[i].size,
        forall|y: Value| #[trigger] trie_view(a, slot_child(a[i], s)).contains_key(y) ==> kslot(y, d[i]) == s,
        forall|y: Value| kslot(y, d[i]) == s ==> (#[trigger] trie_view(a, i).contains_key(y) == trie_view(a, slot_child(a[i], s)).contains_key(y)),
        forall|y: Value| kslot(y, d[i]) == s && trie_view(a, i).contains_key(y) ==> #[trigger] trie_view(a, i)[y] == trie_view(a, slot_child(a[i], s))[y],
{
    let ni = a[i];
    let c = slot_child(ni, s);
    assert(node_ok(a, d, i));
    lemma_bit_disjoint(ni.data_map, ni.node_map, s);
    lemma_rank_lt_popcount(ni.node_map, s);
    assert(slot_view(a, i, s) == trie_view(a, c));
    lemma_branch(a, i, d[i]);
    lemma_trie_finite(a, i);
    lemma_trie_finite(a, c);
    assert(trie_view(a, c).dom().subset_of(trie_view(a, i).dom())) by {
        assert forall|y: Value| trie_view(a, c).contains_key(y) implies trie_view(a, i).contains_key(
            y,
        ) by {
            assert(slot_view(a, i, s).contains_key(y));
        }
    }
    vstd::set_lib::lemma_len_subset(trie_view(a, c).dom(), trie_view(a, i).dom());
    assert forall|y: Value| #[trigger] trie_view(a, c).contains_key(y) implies kslot(y, d[i]) == s by {
        assert(slot_view(a, i, s).contains_key(y));
    }
}

/// An exact copy of node `i`, appended, holds `i`'s map.
proof fn lemma_clone_node(a: Seq<MapNode>, d: Seq<nat>, i: int, n2: MapNode)
    requires
        arena_ok(a, d),
        0 <= i < a.len(),
        n2.size == a[i].size,
        n2.data_map == a[i].data_map,
        n2.node_map == a[i].node_map,
        n2.is_collision == a[i].is_collision,
        n2.entries() == a[i].entries(),
        n2.kids() == a[i].kids(),
    ensures
        arena_ok(a.push(n2), d.push(d[i])),
        trie_view(a.push(n2), a.len() as int) == trie_view(a, i),
{
    let a2 = a.push(n2);
    let d2 = d.push(d[i]);
    let j = a.len() as int;
    let ni = a[i];
    lemma_pushed(a, d, n2, d[i], i);
    assert(a2[j] == n2);
    if ni.is_collision {
        assert(node_ok(a2, d2, j));
        lemma_arena_push(a, d, n2, d[i]);
    } else {
        lemma_edit_none(ni.data_map, ni.entries(), -1);
        lemma_edit_none(ni.node_map, ni.kids(), -1);
        crate::champ_view::lemma_other_slots(a2, i, j, -1);
        assert forall|t: int, y: Value|
            0 <= t < 16 && #[trigger] slot_view(a2, j, t).contains_key(y) implies kslot(y, d2[j]) == t by {
            assert(slot_view(a2, j, t) == slot_view(a2, i, t));
        }
        lemma_branch(a2, i, d[i]);
        lemma_branch(a2, j, d[i]);
        assert forall|y: Value| trie_view(a2, j).contains_key(y) == trie_view(a2, i).contains_key(y) by {
            lemma_kslot_range(y, d[i]);
            assert(slot_view(a2, j, kslot(y, d[i])) == slot_view(a2, i, kslot(y, d[i])));
        }
        assert forall|y: Value| trie_view(a2, j).contains_key(y) implies trie_view(a2, j)[y] == trie_view(a2, i)[y] by {
            lemma_kslot_range(y, d[i]);
            assert(slot_view(a2, j, kslot(y, d[i])) == slot_view(a2, i, kslot(y, d[i])));
        }
        assert(trie_view(a2, j) =~= trie_view(a2, i));
        assert forall|t: int|
            #![trigger bit_set(n2.node_map, t)]
            0 <= t < 16 && bit_set(n2.node_map, t) implies {
            let c = slot_child(n2, t);
            0 <= c < j && d2[c] == d2[j] + 1
        } by {
            assert(slot_child(n2, t) == slot_child(ni, t));
        }
        assert(node_ok(a2, d2, j));
        lemma_arena_push(a, d, n2, d[i]);
    }
}

/// A bitmap with no set bits below 16 sets none.
proof fn lemma_popcount_none(bm: u16)
    requires
        popcount(bm) == 0,
    ensures
        forall|t: int| 0 <= t < 16 ==> !#[trigger] bit_set(bm, t),
{
    assert forall|t: int| 0 <= t < 16 implies !#[trigger] bit_set(bm, t) by {
        if bit_set(bm, t) {
            lemma_rank_lt_popcount(bm, t);
        }
    }
}

/// A node with no entries and no children holds the empty map.
proof fn lemma_empty_view(a: Seq<MapNode>, d: Seq<nat>, k: int)
    requires
        arena_ok(a, d),
        0 <= k < a.len(),
        a[k].entries().len() == 0,
        a[k].kids().len() == 0,
    ensures
        trie_view(a, k) == Map::<Value, Value>::empty(),
{
    let n = a[k];
    assert(node_ok(a, d, k));
    if n.is_collision {
        assert(trie_view(a, k) == entries_view(n.entries()));
        assert(trie_view(a, k) =~= Map::<Value, Value>::empty());
    } else {
        lemma_popcount_none(n.data_map);
        lemma_popcount_none(n.node_map);
        lemma_branch(a, k, d[k]);
        assert forall|y: Value| !trie_view(a, k).contains_key(y) by {
            lemma_kslot_range(y, d[k]);
        }
        assert(trie_view(a, k) =~= Map::<Value, Value>::empty());
    }
}

/// A node with one entry and no children holds just that entry.
proof fn lemma_singleton_view(a: Seq<MapNode>, d: Seq<nat>, k: int)
    requires
        arena_ok(a, d),
        0 <= k < a.len(),
        a[k].entries().len() == 1,
        a[k].kids().len() == 0,
    ensures
        trie_view(a, k) == Map::<Value, Value>::empty().insert(
            ckey(a[k].entries()[0].0),
            a[k].entries()[0].1,
        ),
{
    let n = a[k];
    let e = n.entries()[0];
    let want = Map::<Value, Value>::empty().insert(ckey(e.0), e.1);
    assert(node_ok(a, d, k));
    if n.is_collision {
        assert(n.entries().drop_last() =~= Seq::<(Value, Value)>::empty());
        assert(entries_view(n.entries().drop_last()) == Map::<Value, Value>::empty());
        assert(n.entries().last() == e);
        assert(trie_view(a, k) == entries_view(n.entries()));
        assert(trie_view(a, k) =~= want);
    } else {
        lemma_popcount_none(n.node_map);
        let t0 = crate::champ::lemma_rank_surjective(n.data_map, 0);
        assert forall|t: int| 0 <= t < 16 && t != t0 implies !bit_set(n.data_map, t) by {
            if bit_set(n.data_map, t) {
                lemma_rank_lt_popcount(n.data_map, t);
                if t < t0 {
                    crate::champ::lemma_bits_below_mono(n.data_map, t, t0);
                } else {
                    crate::champ::lemma_bits_below_mono(n.data_map, t0, t);
                }
            }
        }
        assert(slot_view(a, k, t0) == want);
        assert(want.contains_key(ckey(e.0)));
        assert(slot_view(a, k, t0).contains_key(ckey(e.0)));
        lemma_branch(a, k, d[k]);
        assert(kslot(ckey(e.0), d[k]) == t0);
        assert forall|y: Value| trie_view(a, k).contains_key(y) == want.contains_key(y) by {
            lemma_kslot_range(y, d[k]);
            if kslot(y, d[k]) != t0 {
                assert(slot_view(a, k, kslot(y, d[k])) =~= Map::<Value, Value>::empty());
            }
        }
        assert(trie_view(a, k) =~= want);
    }
}

/// A copy of collision leaf `i` without its entry `p` (the key `key`'s).
proof fn lemma_dissoc_coll(a: Seq<MapNode>, d: Seq<nat>, i: int, n2: MapNode, p: int, key: Value, dn: nat)
    requires
        arena_ok(a, d),
        0 <= i < a.len(),
        a[i].is_collision,
        0 <= p < a[i].entries().len(),
        ckey(a[i].entries()[p].0) == ckey(key),
        n2.is_collision,
        n2.entries() == a[i].entries().remove(p),
        n2.size == a[i].size - 1,
    ensures
        arena_ok(a.push(n2), d.push(dn)),
        trie_view(a.push(n2), a.len() as int) == trie_view(a, i).remove(ckey(key)),
{
    let a2 = a.push(n2);
    let j = a.len() as int;
    let es = a[i].entries();
    assert(node_ok(a, d, i));
    lemma_entries_remove(es, p);
    lemma_entries(es);
    lemma_entries(n2.entries());
    es.remove_ensures(p);
    assert(a2[j] == n2);
    assert(trie_view(a2, j) == entries_view(n2.entries()));
    assert(node_ok(a2, d.push(dn), j));
    lemma_arena_push(a, d, n2, dn);
}

/// A copy of branch `i` without its slot `s` inline entry (the key `key`'s).
proof fn lemma_dissoc_inline(a: Seq<MapNode>, d: Seq<nat>, i: int, n2: MapNode, s: int, key: Value)
    requires
        arena_ok(a, d),
        0 <= i < a.len(),
        !a[i].is_collision,
        0 <= s < 16,
        bit_set(a[i].data_map, s),
        kslot(ckey(key), d[i]) == s,
        ckey(slot_entry(a[i], s).0) == ckey(key),
        !n2.is_collision,
        n2.data_map == a[i].data_map ^ (1u16 << (s as u16)),
        n2.node_map == a[i].node_map,
        n2.entries() == a[i].entries().remove(bits_below(a[i].data_map, s) as int),
        n2.kids() == a[i].kids(),
        n2.size == a[i].size - 1,
    ensures
        arena_ok(a.push(n2), d.push(d[i])),
        trie_view(a.push(n2), a.len() as int) == trie_view(a, i).remove(ckey(key)),
{
    let a2 = a.push(n2);
    let d2 = d.push(d[i]);
    let j = a.len() as int;
    let ni = a[i];
    let x = ckey(key);
    lemma_pushed(a, d, n2, d[i], i);
    assert(node_ok(a, d, i));
    lemma_bit_disjoint(ni.data_map, ni.node_map, s);
    lemma_edit_remove(ni.data_map, ni.entries(), s);
    lemma_edit_none(ni.node_map, ni.kids(), s);
    assert(a2[j] == n2);
    assert(slot_view(a2, j, s) =~= Map::<Value, Value>::empty());
    assert(slot_view(a2, j, s) =~= slot_view(a2, i, s).remove(x));
    let dm = ni.data_map;
    let nm = ni.node_map;
    let ss = s as u16;
    assert((dm ^ (1u16 << ss)) & nm == 0) by (bit_vector)
        requires
            dm & nm == 0,
            (dm >> ss) & 1u16 == 1u16,
            ss < 16,
    ;
    lemma_branch(a2, i, d[i]);
    lemma_trie_finite(a2, i);
    assert(trie_view(a2, i).contains_key(x));
    assert(trie_view(a2, i).remove(x).dom() =~= trie_view(a2, i).dom().remove(x));
    lemma_new_branch(a2, d2, i, s, x, x, false);
}

/// Slot `s` of branch `i` collapses: its child, now holding one entry, moves
/// inline.
proof fn lemma_dissoc_promote(a: Seq<MapNode>, d: Seq<nat>, i: int, n2: MapNode, s: int, newc: int, x: Value)
    requires
        arena_ok(a, d),
        0 <= i < a.len(),
        !a[i].is_collision,
        0 <= s < 16,
        bit_set(a[i].node_map, s),
        kslot(x, d[i]) == s,
        0 <= newc < a.len(),
        d[newc] == d[i] + 1,
        trie_view(a, newc) == trie_view(a, slot_child(a[i], s)).remove(x),
        trie_view(a, i).contains_key(x),
        a[newc].entries().len() == 1,
        a[newc].kids().len() == 0,
        !n2.is_collision,
        n2.data_map == a[i].data_map | (1u16 << (s as u16)),
        n2.node_map == a[i].node_map ^ (1u16 << (s as u16)),
        n2.entries() == a[i].entries().insert(bits_below(a[i].data_map, s) as int, a[newc].entries()[0]),
        n2.kids() == a[i].kids().remove(bits_below(a[i].node_map, s) as int),
        n2.size == a[i].size - 1,
    ensures
        arena_ok(a.push(n2), d.push(d[i])),
        trie_view(a.push(n2), a.len() as int) == trie_view(a, i).remove(x),
{
    let ni = a[i];
    let e = a[newc].entries()[0];
    assert(node_ok(a, d, i));
    lemma_bit_disjoint(ni.data_map, ni.node_map, s);
    crate::champ::lemma_bits_below_mono(ni.data_map, s, 16);
    lemma_edit_insert(ni.data_map, ni.entries(), s, e);
    lemma_edit_remove(ni.node_map, ni.kids(), s);
    ni.entries().insert_ensures(bits_below(ni.data_map, s) as int, e);
    lemma_singleton_view(a, d, newc);
    let a2 = a.push(n2);
    assert(a2[a.len() as int] == n2);
    assert(slot_view(a2, a.len() as int, s) == trie_view(a, newc));
    let dm = ni.data_map;
    let nm = ni.node_map;
    let ss = s as u16;
    assert((dm | (1u16 << ss)) & (nm ^ (1u16 << ss)) == 0) by (bit_vector)
        requires
            dm & nm == 0,
            (nm >> ss) & 1u16 == 1u16,
            ss < 16,
    ;
    lemma_child_remove_sizes(a, d, i, s, newc, x);
    lemma_dissoc_child(a, d, i, n2, s, newc, x);
}

/// Slot `s` of branch `i` empties: its child holds nothing any more.
proof fn lemma_dissoc_drop(a: Seq<MapNode>, d: Seq<nat>, i: int, n2: MapNode, s: int, newc: int, x: Value)
    requires
        arena_ok(a, d),
        0 <= i < a.len(),
        !a[i].is_collision,
        0 <= s < 16,
        bit_set(a[i].node_map, s),
        kslot(x, d[i]) == s,
        0 <= newc < a.len(),
        d[newc] == d[i] + 1,
        trie_view(a, newc) == trie_view(a, slot_child(a[i], s)).remove(x),
        trie_view(a, i).contains_key(x),
        a[newc].entries().len() == 0,
        a[newc].kids().len() == 0,
        !n2.is_collision,
        n2.data_map == a[i].data_map,
        n2.node_map == a[i].node_map ^ (1u16 << (s as u16)),
        n2.entries() == a[i].entries(),
        n2.kids() == a[i].kids().remove(bits_below(a[i].node_map, s) as int),
        n2.size == a[i].size - 1,
    ensures
        arena_ok(a.push(n2), d.push(d[i])),
        trie_view(a.push(n2), a.len() as int) == trie_view(a, i).remove(x),
{
    let ni = a[i];
    assert(node_ok(a, d, i));
    lemma_bit_disjoint(ni.data_map, ni.node_map, s);
    lemma_edit_none(ni.data_map, ni.entries(), s);
    lemma_edit_remove(ni.node_map, ni.kids(), s);
    lemma_empty_view(a, d, newc);
    let a2 = a.push(n2);
    assert(a2[a.len() as int] == n2);
    assert(slot_view(a2, a.len() as int, s) =~= trie_view(a, newc));
    let dm = ni.data_map;
    let nm = ni.node_map;
    let ss = s as u16;
    assert(dm & (nm ^ (1u16 << ss)) == 0) by (bit_vector)
        requires
            dm & nm == 0,
            (nm >> ss) & 1u16 == 1u16,
            ss < 16,
    ;
    lemma_child_remove_sizes(a, d, i, s, newc, x);
    lemma_dissoc_child(a, d, i, n2, s, newc, x);
}

/// Slot `s` of branch `i` now points at the shrunk child `newc`.
proof fn lemma_dissoc_swap(a: Seq<MapNode>, d: Seq<nat>, i: int, n2: MapNode, s: int, newc: Handle, x: Value)
    requires
        arena_ok(a, d),
        0 <= i < a.len(),
        !a[i].is_collision,
        0 <= s < 16,
        bit_set(a[i].node_map, s),
        kslot(x, d[i]) == s,
        0 <= newc.spec_index() < a.len(),
        d[newc.spec_index() as int] == d[i] + 1,
        trie_view(a, newc.spec_index() as int) == trie_view(a, slot_child(a[i], s)).remove(x),
        trie_view(a, i).contains_key(x),
        !n2.is_collision,
        n2.data_map == a[i].data_map,
        n2.node_map == a[i].node_map,
        n2.entries() == a[i].entries(),
        n2.kids() == a[i].kids().update(bits_below(a[i].node_map, s) as int, newc),
        n2.size == trie_view(a, i).remove(x).len(),
    ensures
        arena_ok(a.push(n2), d.push(d[i])),
        trie_view(a.push(n2), a.len() as int) == trie_view(a, i).remove(x),
{
    let ni = a[i];
    let nc = newc.spec_index() as int;
    assert(node_ok(a, d, i));
    lemma_bit_disjoint(ni.data_map, ni.node_map, s);
    lemma_edit_none(ni.data_map, ni.entries(), s);
    lemma_edit_update(ni.node_map, ni.kids(), s, newc);
    let a2 = a.push(n2);
    assert(a2[a.len() as int] == n2);
    assert(slot_child(n2, s) == nc);
    lemma_trie_ext(a, a2, nc);
    assert(slot_view(a2, a.len() as int, s) == trie_view(a, nc));
    lemma_dissoc_child(a, d, i, n2, s, nc, x);
}

/// The size of branch `i` after its slot `s` child's map loses `x`.
proof fn lemma_child_remove_sizes(a: Seq<MapNode>, d: Seq<nat>, i: int, s: int, newc: int, x: Value)
    requires
        arena_ok(a, d),
        0 <= i < a.len(),
        !a[i].is_collision,
        0 <= s < 16,
        bit_set(a[i].node_map, s),
        kslot(x, d[i]) == s,
        trie_view(a, newc) == trie_view(a, slot_child(a[i], s)).remove(x),
    ensures
        trie_view(a, newc).len() <= trie_view(a, slot_child(a[i], s)).len() <= a[i].size,
        a[i].size - trie_view(a, slot_child(a[i], s)).len() + trie_view(a, newc).len() == trie_view(
            a,
            i,
        ).remove(x).len(),
        (trie_view(a, newc).len() == trie_view(a, slot_child(a[i], s)).len()) == !trie_view(
            a,
            i,
        ).contains_key(x),
        !trie_view(a, i).contains_key(x) ==> trie_view(a, i).remove(x) == trie_view(a, i),
        trie_view(a, i).contains_key(x) ==> trie_view(a, i).remove(x).len() + 1 == a[i].size,
{
    let c = slot_child(a[i], s);
    lemma_child_le(a, d, i, s);
    lemma_trie_finite(a, i);
    lemma_trie_finite(a, c);
    assert(trie_view(a, newc).dom() =~= trie_view(a, c).dom().remove(x));
    assert(trie_view(a, i).remove(x).dom() =~= trie_view(a, i).dom().remove(x));
    assert(trie_view(a, i).contains_key(x) == trie_view(a, c).contains_key(x));
    assert(node_ok(a, d, i));
    vstd::set::axiom_set_remove_len(trie_view(a, c).dom(), x);
    vstd::set::axiom_set_remove_len(trie_view(a, i).dom(), x);
    if !trie_view(a, i).contains_key(x) {
        assert(trie_view(a, i).remove(x) =~= trie_view(a, i));
    }
}

/// A copy of branch `i` whose slot `s` changed from a child to `new_slot`'s
/// content: the child `newc` (`keep`), the child's last entry inline
/// (`promote`), or nothing; in each case the old child's map without `x`.
proof fn lemma_dissoc_child(
    a: Seq<MapNode>,
    d: Seq<nat>,
    i: int,
    n2: MapNode,
    s: int,
    newc: int,
    x: Value,
)
    requires
        arena_ok(a, d),
        0 <= i < a.len(),
        !a[i].is_collision,
        0 <= s < 16,
        bit_set(a[i].node_map, s),
        kslot(x, d[i]) == s,
        0 <= newc < a.len(),
        d[newc] == d[i] + 1,
        trie_view(a, newc) == trie_view(a, slot_child(a[i], s)).remove(x),
        trie_view(a, i).contains_key(x),
        !n2.is_collision,
        n2.data_map & n2.node_map == 0,
        n2.entries().len() == popcount(n2.data_map),
        n2.kids().len() == popcount(n2.node_map),
        same_off(a[i].data_map, a[i].entries(), n2.data_map, n2.entries(), s),
        same_off(a[i].node_map, a[i].kids(), n2.node_map, n2.kids(), s),
        bit_set(n2.node_map, s) ==> slot_child(n2, s) == newc,
        slot_view(a.push(n2), a.len() as int, s) == trie_view(a, newc),
        n2.size == trie_view(a, i).remove(x).len(),
    ensures
        arena_ok(a.push(n2), d.push(d[i])),
        trie_view(a.push(n2), a.len() as int) == trie_view(a, i).remove(x),
{
    let a2 = a.push(n2);
    let d2 = d.push(d[i]);
    let j = a.len() as int;
    let ni = a[i];
    let c = slot_child(ni, s);
    lemma_pushed(a, d, n2, d[i], i);
    lemma_child_le(a, d, i, s);
    lemma_bit_disjoint(ni.data_map, ni.node_map, s);
    lemma_rank_lt_popcount(ni.node_map, s);
    assert(a2[j] == n2);
    lemma_trie_ext(a, a2, c);
    assert(slot_view(a2, i, s) == trie_view(a, c));
    lemma_new_branch(a2, d2, i, s, x, x, false);
}

/// The size of branch `i` after its slot `s` child's map gains `x -> v`.
proof fn lemma_child_insert_sizes(a: Seq<MapNode>, d: Seq<nat>, i: int, s: int, newc: int, x: Value, v: Value)
    requires
        arena_ok(a, d),
        0 <= i < a.len(),
        !a[i].is_collision,
        0 <= s < 16,
        bit_set(a[i].node_map, s),
        kslot(x, d[i]) == s,
        trie_view(a, newc) == trie_view(a, slot_child(a[i], s)).insert(x, v),
    ensures
        trie_view(a, slot_child(a[i], s)).len() <= a[i].size,
        a[i].size + 1 < 0x1_0000_0000 ==> trie_view(a, slot_child(a[i], s)).len() + 1 < 0x1_0000_0000,
        a[i].size - trie_view(a, slot_child(a[i], s)).len() + trie_view(a, newc).len() == trie_view(
            a,
            i,
        ).insert(x, v).len(),
        trie_view(a, i).insert(x, v).len() <= a[i].size + 1,
{
    let ni = a[i];
    let c = slot_child(ni, s);
    assert(node_ok(a, d, i));
    lemma_bit_disjoint(ni.data_map, ni.node_map, s);
    lemma_rank_lt_popcount(ni.node_map, s);
    assert(slot_view(a, i, s) == trie_view(a, c));
    lemma_branch(a, i, d[i]);
    lemma_trie_finite(a, i);
    lemma_trie_finite(a, c);
    assert(trie_view(a, c).dom().subset_of(trie_view(a, i).dom())) by {
        assert forall|y: Value| trie_view(a, c).contains_key(y) implies trie_view(a, i).contains_key(
            y,
        ) by {
            assert(slot_view(a, i, s).contains_key(y));
        }
    }
    vstd::set_lib::lemma_len_subset(trie_view(a, c).dom(), trie_view(a, i).dom());
    assert(trie_view(a, newc).dom() =~= trie_view(a, c).dom().insert(x));
    assert(trie_view(a, i).insert(x, v).dom() =~= trie_view(a, i).dom().insert(x));
    assert(trie_view(a, c).contains_key(x) == trie_view(a, i).contains_key(x));
}

/// A copy of branch `i` whose slot `s` child is replaced by `newc`, whose map
/// is the old child's with `x -> v`.
proof fn lemma_assoc_child(a: Seq<MapNode>, d: Seq<nat>, i: int, n2: MapNode, s: int, newc: Handle, x: Value, v: Value)
    requires
        arena_ok(a, d),
        0 <= i < a.len(),
        !a[i].is_collision,
        0 <= s < 16,
        bit_set(a[i].node_map, s),
        kslot(x, d[i]) == s,
        0 <= newc.spec_index() < a.len(),
        d[newc.spec_index() as int] == d[i] + 1,
        trie_view(a, newc.spec_index() as int) == trie_view(a, slot_child(a[i], s)).insert(x, v),
        !n2.is_collision,
        n2.data_map == a[i].data_map,
        n2.node_map == a[i].node_map,
        n2.entries() == a[i].entries(),
        n2.kids() == a[i].kids().update(bits_below(a[i].node_map, s) as int, newc),
        n2.size == trie_view(a, i).insert(x, v).len(),
    ensures
        arena_ok(a.push(n2), d.push(d[i])),
        trie_view(a.push(n2), a.len() as int) == trie_view(a, i).insert(x, v),
{
    let a2 = a.push(n2);
    let d2 = d.push(d[i]);
    let j = a.len() as int;
    let ni = a[i];
    let c = slot_child(ni, s);
    let nc = newc.spec_index() as int;
    lemma_pushed(a, d, n2, d[i], i);
    lemma_bit_disjoint(ni.data_map, ni.node_map, s);
    lemma_edit_none(ni.data_map, ni.entries(), s);
    lemma_edit_update(ni.node_map, ni.kids(), s, newc);
    assert(a2[j] == n2);
    assert(node_ok(a, d, i));
    lemma_trie_ext(a, a2, nc);
    lemma_trie_ext(a, a2, c);
    assert(slot_child(n2, s) == nc);
    assert(slot_view(a2, j, s) == trie_view(a, nc));
    assert(slot_view(a2, i, s) == trie_view(a, c));
    lemma_new_branch(a2, d2, i, s, x, v, true);
}


/// Binding a key a map does not hold and then unbinding it gives back the map.
pub proof fn law_dissoc_undoes_fresh_assoc(m: Map<Value, Value>, key: Value, val: Value)
    requires
        !m.contains_key(ckey(key)),
    ensures
        m.insert(ckey(key), val).remove(ckey(key)) == m,
{
    assert(m.insert(ckey(key), val).remove(ckey(key)) =~= m);
}

/// A key read right after it is bound gives the bound value; every other key
/// reads as it did.
pub proof fn law_get_after_assoc(m: Map<Value, Value>, key: Value, val: Value, other: Value)
    ensures
        m.insert(ckey(key), val).contains_key(ckey(key)),
        m.insert(ckey(key), val)[ckey(key)] == val,
        ckey(other) != ckey(key) ==> m.insert(ckey(key), val).contains_key(ckey(other))
            == m.contains_key(ckey(other)),
        ckey(other) != ckey(key) && m.contains_key(ckey(other)) ==> m.insert(ckey(key), val)[ckey(
            other,
        )] == m[ckey(other)],
{
}

/// Two integer adds under one key add up: adding `d1` and then `d2` binds the
/// key to what adding `d1 + d2` at once binds it to.
pub proof fn law_int_adds_accumulate(m: Map<Value, Value>, key: Value, d1: i64, d2: i64)
    requires
        add_fits(m, ckey(key), d1),
        i64::MIN <= d1 + d2 <= i64::MAX,
        add_fits(m, ckey(key), (d1 + d2) as i64),
    ensures
        ({
            let x = ckey(key);
            let m1 = m.insert(x, added(m, x, d1));
            &&& add_fits(m1, x, d2)
            &&& added(m1, x, d2) == added(m, x, (d1 + d2) as i64)
        }),
{
}

/// A map value reads the same at any later time: a lookup of a key in a map
/// gives the same answer after any number of other maps have been built.
pub proof fn law_map_reads_are_stable(a: &MapArena, b: &MapArena, id: Handle, key: Value)
    requires
        b.grows_from(a),
        a.is_root(id),
    ensures
        b.view_of(id).contains_key(ckey(key)) == a.view_of(id).contains_key(ckey(key)),
        a.view_of(id).contains_key(ckey(key)) ==> b.view_of(id)[ckey(key)] == a.view_of(id)[ckey(key)],
{
    lemma_maps_persist(a, b, id);
}

impl MapArena {
    /// Appends the entries of the trie at `id` to `out`, slot by slot (a collision
    /// leaf's entries in their order). No key already in `out` is in the trie.
    fn collect_entries_into(&self, id: Handle, out: &mut Vec<(Value, Value)>)
        requires
            self.wf(),
            id.spec_index() < self.nodes@.len(),
            keys_distinct(old(out)@),
            forall|x: Value| #[trigger]
                entries_view(old(out)@).contains_key(x) ==> !self.view_of(id).contains_key(x),
        ensures
            keys_distinct(final(out)@),
            entries_view(final(out)@) == entries_view(old(out)@).union_prefer_right(
                self.view_of(id),
            ),
        decreases id.spec_index(),
    {
        let ghost a = self.nodes@;
        let ghost i = id.spec_index() as int;
        let ghost out0 = out@;
        let node = &self.nodes[id.index()];
        assert(node_ok(a, self.depths@, i));
        if node.is_collision {
            let n = entries_len(&node.data);
            let mut p: usize = 0;
            proof {
                assert(node.entries().take(0) =~= Seq::<(Value, Value)>::empty());
                assert(entries_view(out@).union_prefer_right(entries_view(node.entries().take(0)))
                    =~= entries_view(out@));
            }
            while p < n
                invariant
                    n == node.entries().len(),
                    p <= n,
                    keys_distinct(node.entries()),
                    self.view_of(id) == entries_view(node.entries()),
                    forall|x: Value| #[trigger]
                        entries_view(out0).contains_key(x) ==> !self.view_of(id).contains_key(x),
                    keys_distinct(out@),
                    entries_view(out@) == entries_view(out0).union_prefer_right(
                        entries_view(node.entries().take(p as int)),
                    ),
                decreases n - p,
            {
                let e = entries_get(&node.data, p);
                let ghost before = out@;
                proof {
                    lemma_entries(node.entries());
                    lemma_entries(node.entries().take(p as int));
                    assert(self.view_of(id).contains_key(ckey(e.0)));
                    if entries_view(node.entries().take(p as int)).contains_key(ckey(e.0)) {
                        let q = choose|q: int|
                            0 <= q < p && ckey(node.entries().take(p as int)[q].0) == ckey(e.0);
                        assert(node.entries()[q] == node.entries().take(p as int)[q]);
                    }
                    assert(!entries_view(before).contains_key(ckey(e.0)));
                }
                out.push(e);
                proof {
                    lemma_entries_push(before, e);
                    assert(node.entries().take(p as int + 1) =~= node.entries().take(p as int).push(e));
                    lemma_entries_push(node.entries().take(p as int), e);
                    assert(entries_view(out@) =~= entries_view(out0).union_prefer_right(
                        entries_view(node.entries().take(p as int + 1)),
                    ));
                }
                p = p + 1;
            }
            proof {
                assert(node.entries().take(n as int) =~= node.entries());
            }
        } else {
            let ghost d = self.depths@[i];
            proof {
                lemma_branch(a, i, d);
                lemma_prefix(a, i, d, 0);
                assert(prefix_view(a, i, 0) =~= Map::<Value, Value>::empty());
                assert(entries_view(out@).union_prefer_right(prefix_view(a, i, 0)) =~= entries_view(
                    out@,
                ));
            }
            let mut s: u8 = 0;
            while s < 16
                invariant
                    s <= 16,
                    self.wf(),
                    a == self.nodes@,
                    0 <= i < a.len(),
                    i == id.spec_index(),
                    !a[i].is_collision,
                    *node == a[i],
                    d == self.depths@[i],
                    node_ok(a, self.depths@, i),
                    slots_ok(a, i, d),
                    forall|x: Value| #[trigger]
                        entries_view(out0).contains_key(x) ==> !self.view_of(id).contains_key(x),
                    keys_distinct(out@),
                    entries_view(out@) == entries_view(out0).union_prefer_right(
                        prefix_view(a, i, s as int),
                    ),
                decreases 16 - s,
            {
                let ghost before = out@;
                let ghost sv = slot_view(a, i, s as int);
                proof {
                    lemma_prefix(a, i, d, s as int);
                    lemma_prefix(a, i, d, s as int + 1);
                    lemma_branch(a, i, d);
                    assert(prefix_view(a, i, s as int + 1) == prefix_view(a, i, s as int).union_prefer_right(sv));
                    lemma_bit_and_mask(node.data_map, s as int);
                    lemma_bit_and_mask(node.node_map, s as int);
                    // every key of this slot is in the trie and in no earlier slot
                    assert forall|x: Value| #[trigger] sv.contains_key(x) implies kslot(x, d) == s
                        && self.view_of(id).contains_key(x) && !entries_view(before).contains_key(x) by {
                        assert(slot_view(a, i, s as int).contains_key(x));
                        if entries_view(before).contains_key(x) {
                            if !entries_view(out0).contains_key(x) {
                                assert(prefix_view(a, i, s as int).contains_key(x));
                            }
                        }
                    }
                }
                let bit = slot_mask(s);
                if node.data_map & bit != 0 {
                    let r = rank(node.data_map, s);
                    proof {
                        lemma_rank_lt_popcount(node.data_map, s as int);
                    }
                    let e = entries_get(&node.data, r);
                    proof {
                        assert(e == slot_entry(*node, s as int));
                        assert(sv == Map::<Value, Value>::empty().insert(ckey(e.0), e.1));
                        assert(sv.contains_key(ckey(e.0)));
                    }
                    out.push(e);
                    proof {
                        lemma_entries_push(before, e);
                        assert(entries_view(out@) =~= entries_view(out0).union_prefer_right(
                            prefix_view(a, i, s as int + 1),
                        ));
                    }
                } else if node.node_map & bit != 0 {
                    let r = rank(node.node_map, s);
                    proof {
                        lemma_rank_lt_popcount(node.node_map, s as int);
                    }
                    let child = children_get(&node.children, r);
                    proof {
                        assert(child.spec_index() == slot_child(*node, s as int));
                        assert(bit_set(node.node_map, s as int));
                        assert(sv == trie_view(a, child.spec_index() as int));
                        assert forall|x: Value| #[trigger]
                            entries_view(out@).contains_key(x) implies !self.view_of(child).contains_key(x) by {
                            if self.view_of(child).contains_key(x) {
                                assert(sv.contains_key(x));
                            }
                        }
                    }
                    self.collect_entries_into(child, out);
                    proof {
                        assert(entries_view(out@) =~= entries_view(out0).union_prefer_right(
                            prefix_view(a, i, s as int + 1),
                        ));
                    }
                } else {
                    proof {
                        assert(sv =~= Map::<Value, Value>::empty());
                        assert(entries_view(out@) =~= entries_view(out0).union_prefer_right(
                            prefix_view(a, i, s as int + 1),
                        ));
                    }
                }
                s = s + 1;
            }
            proof {
                assert(self.view_of(id) == prefix_view(a, i, 16));
            }
        }
    }
}

impl Heap {
    /// Every entry of the map at `id`, each key once: the trie walked depth
    /// first, slot by slot. The order is fixed by the trie's shape, not by
    /// insertion; a caller that needs an order sorts.
    pub fn map_entries(&self, id: Handle) -> (r: Vec<(Value, Value)>)
        requires
            self.maps.wf(),
            self.maps.is_root(id),
        ensures
            keys_distinct(r@),
            entries_view(r@) == self.maps.view_of(id),
    {
        let mut out: Vec<(Value, Value)> = Vec::new();
        proof {
            assert(entries_view(out@) =~= Map::<Value, Value>::empty());
        }
        self.maps.collect_entries_into(id, &mut out);
        proof {
            assert(Map::<Value, Value>::empty().union_prefer_right(self.maps.view_of(id)) =~= self.maps.view_of(id));
        }
        out
    }

    /// The elements of a set (a map binding each element to `true`): its keys.
    pub fn set_elems(&self, id: Handle) -> (r: Vec<Value>)
        requires
            self.maps.wf(),
            self.maps.is_root(id),
        ensures
            r@.len() == self.maps.view_of(id).len(),
            forall|j: int| 0 <= j < r@.len() ==> self.maps.view_of(id).contains_key(ckey(#[trigger] r@[j])),
            forall|x: Value| #[trigger] self.maps.view_of(id).contains_key(x) ==> exists|j: int|
                0 <= j < r@.len() && ckey(r@[j]) == x,
    {
        let entries = self.map_entries(id);
        let mut out: Vec<Value> = Vec::new();
        let mut j: usize = 0;
        while j < entries.len()
            invariant
                j <= entries@.len(),
                out@.len() == j,
                forall|q: int| 0 <= q < j ==> out@[q] == (#[trigger] entries@[q]).0,
            decreases entries@.len() - j,
        {
            out.push(entries[j].0);
            j = j + 1;
        }
        proof {
            lemma_entries(entries@);
            assert forall|x: Value| #[trigger] self.maps.view_of(id).contains_key(x) implies exists|q: int|
                0 <= q < out@.len() && ckey(out@[q]) == x by {
                let q = choose|q: int| 0 <= q < entries@.len() && ckey(entries@[q].0) == x;
                assert(out@[q] == entries@[q].0);
            }
            assert forall|q: int| 0 <= q < out@.len() implies self.maps.view_of(id).contains_key(ckey(#[trigger] out@[q])) by {
                assert(out@[q] == entries@[q].0);
            }
        }
        out
    }
}
} // verus!
