//! Reachability of a RUNTIME code generation: the walk that decides whether any
//! handle into generation `gen` is reachable from a process's roots, following
//! every RUNTIME sub-handle (closure bodies and environments, pairs, vectors, map
//! entries and environment frames).
//!
//! The walk marks each expanded node by its `(generation, index)` key, one set for
//! values and one for frames. Closures, pairs, vectors and maps share that key
//! space, so two nodes of different kinds at the same index of one generation are
//! taken for one: the second is not expanded. The walk's answer is therefore
//! exact whenever no two reachable nodes of different kinds share a key, and a
//! `true` answer is always backed by a reachable handle into `gen`.

use vstd::prelude::*;
use std::collections::HashSet;
use crate::value::{Value, Handle, EnvId, RUNTIME};
use crate::runtime_code::{CodeSlabs, RuntimeCode, spec_rt_pos_key, rt_pos_key};

verus! {

broadcast use vstd::std_specs::hash::group_hash_axioms;

/// A walk item: a value, or an environment frame handle.
pub enum Item {
    Val(Value),
    Env(EnvId),
}

/// The slab a walkable handle addresses.
#[derive(PartialEq, Eq, Structural)]
pub enum NodeKind {
    Closure,
    Pair,
    Vector,
    Mapping,
    Frame,
}

/// The node an item addresses, when it is a RUNTIME handle the walk follows.
pub open spec fn node_of(it: Item) -> Option<(NodeKind, Handle)> {
    match it {
        Item::Val(v) => match v {
            Value::Fn(h) => if h.spec_region() == RUNTIME { Some((NodeKind::Closure, h)) } else { None },
            Value::Macro(h) => if h.spec_region() == RUNTIME { Some((NodeKind::Closure, h)) } else { None },
            Value::Pair(h) => if h.spec_region() == RUNTIME { Some((NodeKind::Pair, h)) } else { None },
            Value::Vector(h) => if h.spec_region() == RUNTIME { Some((NodeKind::Vector, h)) } else { None },
            Value::Mapping(h) => if h.spec_region() == RUNTIME { Some((NodeKind::Mapping, h)) } else { None },
            _ => None,
        },
        Item::Env(e) => if e.spec_region() == RUNTIME { Some((NodeKind::Frame, e)) } else { None },
    }
}

/// The handle of an item's node.
pub open spec fn node_handle(it: Item) -> Handle {
    (node_of(it)->0).1
}

/// The slab of an item's node.
pub open spec fn node_kind(it: Item) -> NodeKind {
    (node_of(it)->0).0
}

/// Does the item address generation `gen`?
pub open spec fn hits(it: Item, gen: nat) -> bool {
    node_of(it) matches Some((_, h)) && h.spec_stamp() == gen
}

/// The length of one slab of a generation.
pub open spec fn slab_len(s: CodeSlabs, k: NodeKind) -> nat {
    match k {
        NodeKind::Closure => s.closures@.len(),
        NodeKind::Pair => s.pairs@.len(),
        NodeKind::Vector => s.vectors@.len(),
        NodeKind::Mapping => s.maps@.len(),
        NodeKind::Frame => s.envs@.len(),
    }
}

/// Does the node lie in one of the two generations, inside its slab?
pub open spec fn node_resolves(rt: &RuntimeCode, k: NodeKind, h: Handle) -> bool {
    h.spec_stamp() < 2 && h.spec_index() < slab_len(rt.spec_gen(h.spec_stamp() as int), k)
}

/// Values, as walk items.
pub open spec fn vals(s: Seq<Value>) -> Seq<Item> {
    s.map_values(|v: Value| Item::Val(v))
}

/// The bound values of a frame, as walk items.
pub open spec fn var_vals(s: Seq<(u32, Value)>) -> Seq<Item> {
    s.map_values(|p: (u32, Value)| Item::Val(p.1))
}

/// An optional frame, as walk items.
pub open spec fn env_items(e: Option<EnvId>) -> Seq<Item> {
    match e {
        Some(h) => seq![Item::Env(h)],
        None => Seq::empty(),
    }
}

/// The items a node holds.
pub open spec fn node_children(rt: &RuntimeCode, k: NodeKind, h: Handle) -> Seq<Item> {
    let s = rt.spec_gen(h.spec_stamp() as int);
    let i = h.spec_index() as int;
    match k {
        NodeKind::Closure => vals(s.closures@[i].refs@) + env_items(s.closures@[i].env),
        NodeKind::Pair => seq![Item::Val(s.pairs@[i].0), Item::Val(s.pairs@[i].1)],
        NodeKind::Vector => vals(s.vectors@[i]@),
        NodeKind::Mapping => vals(s.maps@[i]@),
        NodeKind::Frame => var_vals(s.envs@[i].vars@) + env_items(s.envs@[i].parent),
    }
}

/// The items an item leads to.
pub open spec fn children(rt: &RuntimeCode, it: Item) -> Seq<Item> {
    match node_of(it) {
        Some((k, h)) => node_children(rt, k, h),
        None => Seq::empty(),
    }
}

/// `p` is a path from a seed, each item a child of the one before.
pub open spec fn is_path(rt: &RuntimeCode, seeds: Set<Item>, p: Seq<Item>) -> bool {
    &&& p.len() > 0
    &&& seeds.contains(p[0])
    &&& forall|i: int| 0 <= i < p.len() - 1 ==> children(rt, #[trigger] p[i]).contains(p[i + 1])
}

/// `x` is reachable from `seeds`.
pub open spec fn reachable(rt: &RuntimeCode, seeds: Set<Item>, x: Item) -> bool {
    exists|p: Seq<Item>| #[trigger] is_path(rt, seeds, p) && p.last() == x
}

/// Some item reachable from `seeds` addresses generation `gen`.
pub open spec fn gen_reachable(rt: &RuntimeCode, seeds: Set<Item>, gen: nat) -> bool {
    exists|x: Item| reachable(rt, seeds, x) && hits(x, gen)
}

/// Every reachable node outside generation `gen` lies inside its slab.
pub open spec fn resolves_from(rt: &RuntimeCode, seeds: Set<Item>, gen: nat) -> bool {
    forall|x: Item|
        #[trigger] reachable(rt, seeds, x) && !hits(x, gen) ==> (node_of(x) matches Some((k, h))
            ==> node_resolves(rt, k, h))
}

/// The walk's key of a node: generation and index.
pub open spec fn node_key(h: Handle) -> u64 {
    spec_rt_pos_key(h.spec_index(), h.spec_stamp() as nat)
}

/// Is the item a value node (not a frame)?
pub open spec fn is_val_node(it: Item) -> bool {
    node_of(it) matches Some((k, _)) && k != NodeKind::Frame
}

/// No two reachable value nodes of different slabs share a key.
pub open spec fn keys_distinct(rt: &RuntimeCode, seeds: Set<Item>) -> bool {
    forall|x: Item, y: Item|
        #[trigger] reachable(rt, seeds, x) && #[trigger] reachable(rt, seeds, y) && is_val_node(x)
            && is_val_node(y) && node_key(node_handle(x)) == node_key(node_handle(y))
            ==> node_kind(x) == node_kind(y)
}

/// The item has been dealt with: it does not address `gen`, and if it is a node,
/// its key is marked.
pub open spec fn seen(it: Item, gen: nat, visited: Set<u64>, visited_env: Set<u64>) -> bool {
    &&& !hits(it, gen)
    &&& match node_of(it) {
        Some((k, h)) => if k == NodeKind::Frame {
            visited_env.contains(node_key(h))
        } else {
            visited.contains(node_key(h))
        },
        None => true,
    }
}

/// The item waits on one of the work stacks.
pub open spec fn pending(it: Item, work: Seq<Value>, env_work: Seq<EnvId>) -> bool {
    match it {
        Item::Val(v) => work.contains(v),
        Item::Env(e) => env_work.contains(e),
    }
}

/// The walk's state: everything pending is reachable; every expanded node is a
/// reachable node outside `gen` whose key is marked and whose children are seen
/// or pending; every marked key belongs to an expanded node; every seed counted
/// as started is seen or pending.
pub open spec fn walk_inv(
    rt: &RuntimeCode,
    gen: nat,
    seeds: Set<Item>,
    started: Set<Item>,
    work: Seq<Value>,
    env_work: Seq<EnvId>,
    visited: Set<u64>,
    visited_env: Set<u64>,
    expanded: Set<Item>,
) -> bool {
    &&& forall|i: int| 0 <= i < work.len() ==> reachable(rt, seeds, Item::Val(#[trigger] work[i]))
    &&& forall|i: int| 0 <= i < env_work.len() ==> reachable(rt, seeds, Item::Env(#[trigger] env_work[i]))
    &&& forall|x: Item| #[trigger] expanded.contains(x) ==> {
        &&& reachable(rt, seeds, x)
        &&& node_of(x) is Some
        &&& seen(x, gen, visited, visited_env)
        &&& forall|c: Item| children(rt, x).contains(c) ==> seen(c, gen, visited, visited_env)
            || pending(c, work, env_work)
    }
    &&& forall|k: u64| #[trigger] visited.contains(k) ==> exists|x: Item|
        expanded.contains(x) && is_val_node(x) && node_key(node_handle(x)) == k
    &&& forall|k: u64| #[trigger] visited_env.contains(k) ==> exists|x: Item|
        expanded.contains(x) && node_of(x) is Some && node_kind(x) == NodeKind::Frame && node_key(node_handle(x)) == k
    &&& forall|s: Item| #[trigger] started.contains(s) ==> seeds.contains(s) && (seen(s, gen, visited, visited_env) || pending(s, work, env_work))
    &&& forall|k: u64| visited.contains(k) ==> k < 0x2_0000_0000
    &&& forall|k: u64| visited_env.contains(k) ==> k < 0x2_0000_0000
}

/// A child of a reachable item is reachable.
pub proof fn lemma_child_reachable(rt: &RuntimeCode, seeds: Set<Item>, x: Item, c: Item)
    requires
        reachable(rt, seeds, x),
        children(rt, x).contains(c),
    ensures
        reachable(rt, seeds, c),
{
    let p = choose|p: Seq<Item>| #[trigger] is_path(rt, seeds, p) && p.last() == x;
    let q = p.push(c);
    assert forall|i: int| 0 <= i < q.len() - 1 implies children(rt, #[trigger] q[i]).contains(q[i + 1]) by {
        if i < p.len() - 1 {
            assert(q[i] == p[i] && q[i + 1] == p[i + 1]);
        } else {
            assert(q[i] == x && q[i + 1] == c);
        }
    }
    assert(is_path(rt, seeds, q));
}

/// A seed is reachable.
pub proof fn lemma_seed_reachable(rt: &RuntimeCode, seeds: Set<Item>, x: Item)
    requires
        seeds.contains(x),
    ensures
        reachable(rt, seeds, x),
{
    assert(is_path(rt, seeds, seq![x]));
}

/// A node key of a handle in one of the two generations is `gen * 2^32 + index`.
pub proof fn lemma_node_key(h: Handle)
    requires
        h.spec_stamp() < 2,
    ensures
        node_key(h) == h.spec_stamp() * 0x1_0000_0000 + h.spec_index(),
        node_key(h) < 0x2_0000_0000,
{
    h.lemma_index_bound();
}

/// Keys of handles in the two generations are equal only for equal
/// generation and index.
pub proof fn lemma_node_key_injective(a: Handle, b: Handle)
    requires
        a.spec_stamp() < 2,
        b.spec_stamp() < 2,
        node_key(a) == node_key(b),
    ensures
        a.spec_stamp() == b.spec_stamp(),
        a.spec_index() == b.spec_index(),
{
    lemma_node_key(a);
    lemma_node_key(b);
    a.lemma_index_bound();
    b.lemma_index_bound();
}

/// Two nodes of one slab with equal keys hold the same children.
pub proof fn lemma_same_key_same_children(rt: &RuntimeCode, x: Item, y: Item)
    requires
        node_of(x) is Some,
        node_of(y) is Some,
        node_kind(x) == node_kind(y),
        node_handle(x).spec_stamp() < 2,
        node_handle(y).spec_stamp() < 2,
        node_key(node_handle(x)) == node_key(node_handle(y)),
    ensures
        children(rt, x) == children(rt, y),
{
    lemma_node_key_injective(node_handle(x), node_handle(y));
}

/// Append values to a work stack.
fn push_values(work: &mut Vec<Value>, xs: &Vec<Value>)
    ensures
        final(work)@ == old(work)@ + xs@,
{
    let mut i: usize = 0;
    while i < xs.len()
        invariant
            i <= xs@.len(),
            work@ == old(work)@ + xs@.take(i as int),
        decreases xs@.len() - i,
    {
        work.push(xs[i]);
        i = i + 1;
        proof {
            assert(xs@.take(i as int) == xs@.take(i - 1).push(xs@[i - 1]));
        }
    }
    proof {
        assert(xs@.take(xs@.len() as int) == xs@);
    }
}

/// Append the bound values of a frame to a work stack.
fn push_var_values(work: &mut Vec<Value>, xs: &Vec<(u32, Value)>)
    ensures
        final(work)@ == old(work)@ + xs@.map_values(|p: (u32, Value)| p.1),
{
    let ghost ys = xs@.map_values(|p: (u32, Value)| p.1);
    let mut i: usize = 0;
    while i < xs.len()
        invariant
            i <= xs@.len(),
            ys == xs@.map_values(|p: (u32, Value)| p.1),
            work@ == old(work)@ + ys.take(i as int),
        decreases xs@.len() - i,
    {
        work.push(xs[i].1);
        i = i + 1;
        proof {
            assert(ys.take(i as int) == ys.take(i - 1).push(ys[i - 1]));
        }
    }
    proof {
        assert(ys.take(ys.len() as int) == ys);
    }
}

/// Is `e` the global environment (no frame)?
pub open spec fn is_global_env(e: EnvId) -> bool {
    e.0 == 0xFFFF_FFFF_FFFF_FFFFu64
}

/// The global environment lies outside every region.
pub proof fn lemma_global_env_region(e: EnvId)
    requires
        is_global_env(e),
    ensures
        e.spec_region() != RUNTIME,
{
    let b = e.0;
    assert(b == 0xFFFF_FFFF_FFFF_FFFFu64 ==> (b >> 62u64) as u8 == 3u8) by (bit_vector);
}

/// Growing the marked sets keeps an item seen.
pub proof fn lemma_seen_mono(
    c: Item,
    gen: nat,
    v0: Set<u64>,
    ve0: Set<u64>,
    v1: Set<u64>,
    ve1: Set<u64>,
)
    requires
        seen(c, gen, v0, ve0),
        v0.subset_of(v1),
        ve0.subset_of(ve1),
    ensures
        seen(c, gen, v1, ve1),
{
}

/// Stacks that only grew keep what was pending on them.
pub proof fn lemma_prefix_pending(c: Item, w0: Seq<Value>, e0: Seq<EnvId>, w1: Seq<Value>, e1: Seq<EnvId>)
    requires
        pending(c, w0, e0),
        w0.len() <= w1.len(),
        e0.len() <= e1.len(),
        w1.take(w0.len() as int) == w0,
        e1.take(e0.len() as int) == e0,
    ensures
        pending(c, w1, e1),
{
    match c {
        Item::Val(v) => {
            let j = choose|j: int| 0 <= j < w0.len() && w0[j] == v;
            assert(w1.take(w0.len() as int)[j] == v);
        },
        Item::Env(e) => {
            let j = choose|j: int| 0 <= j < e0.len() && e0[j] == e;
            assert(e1.take(e0.len() as int)[j] == e);
        },
    }
}

/// Values appended to the work stack are pending.
pub proof fn lemma_appended_pending(w1: Seq<Value>, xs: Seq<Value>, e: Seq<EnvId>, c: Item)
    requires
        vals(xs).contains(c),
    ensures
        pending(c, w1 + xs, e),
{
    let j = choose|j: int| 0 <= j < vals(xs).len() && vals(xs)[j] == c;
    assert((w1 + xs)[w1.len() + j] == xs[j]);
}

/// One step of the walk keeps its state: the popped item is now seen, what was
/// pending stays pending (or is the popped item), newly expanded nodes have
/// their children seen or pending, and newly marked keys belong to them.
pub proof fn lemma_inv_step(
    rt: &RuntimeCode,
    gen: nat,
    seeds: Set<Item>,
    started: Set<Item>,
    w0: Seq<Value>,
    e0: Seq<EnvId>,
    v0: Set<u64>,
    ve0: Set<u64>,
    exp0: Set<Item>,
    w1: Seq<Value>,
    e1: Seq<EnvId>,
    v1: Set<u64>,
    ve1: Set<u64>,
    exp1: Set<Item>,
    x: Item,
)
    requires
        walk_inv(rt, gen, seeds, started, w0, e0, v0, ve0, exp0),
        seen(x, gen, v1, ve1),
        forall|c: Item| pending(c, w0, e0) ==> pending(c, w1, e1) || c == x,
        forall|i: int| 0 <= i < w1.len() ==> reachable(rt, seeds, Item::Val(#[trigger] w1[i])),
        forall|i: int| 0 <= i < e1.len() ==> reachable(rt, seeds, Item::Env(#[trigger] e1[i])),
        v0.subset_of(v1),
        ve0.subset_of(ve1),
        exp0.subset_of(exp1),
        forall|y: Item| #[trigger] exp1.contains(y) && !exp0.contains(y) ==> {
            &&& reachable(rt, seeds, y)
            &&& node_of(y) is Some
            &&& seen(y, gen, v1, ve1)
            &&& forall|c: Item| children(rt, y).contains(c) ==> seen(c, gen, v1, ve1) || pending(c, w1, e1)
        },
        forall|k: u64| #[trigger] v1.contains(k) && !v0.contains(k) ==> exists|y: Item|
            exp1.contains(y) && is_val_node(y) && node_key(node_handle(y)) == k,
        forall|k: u64| #[trigger] ve1.contains(k) && !ve0.contains(k) ==> exists|y: Item|
            exp1.contains(y) && node_of(y) is Some && node_kind(y) == NodeKind::Frame && node_key(node_handle(y)) == k,
        forall|k: u64| v1.contains(k) ==> k < 0x2_0000_0000,
        forall|k: u64| ve1.contains(k) ==> k < 0x2_0000_0000,
    ensures
        walk_inv(rt, gen, seeds, started, w1, e1, v1, ve1, exp1),
{
    assert forall|c: Item| seen(c, gen, v0, ve0) || pending(c, w0, e0) implies seen(c, gen, v1, ve1)
        || pending(c, w1, e1) by {
        if seen(c, gen, v0, ve0) {
            lemma_seen_mono(c, gen, v0, ve0, v1, ve1);
        }
    }
    assert forall|y: Item| #[trigger] exp1.contains(y) implies {
        &&& reachable(rt, seeds, y)
        &&& node_of(y) is Some
        &&& seen(y, gen, v1, ve1)
        &&& forall|c: Item| children(rt, y).contains(c) ==> seen(c, gen, v1, ve1) || pending(c, w1, e1)
    } by {
        if exp0.contains(y) {
            lemma_seen_mono(y, gen, v0, ve0, v1, ve1);
        }
    }
    assert forall|k: u64| #[trigger] v1.contains(k) implies exists|y: Item|
        exp1.contains(y) && is_val_node(y) && node_key(node_handle(y)) == k by {
        if v0.contains(k) {
            let y = choose|y: Item| exp0.contains(y) && is_val_node(y) && node_key(node_handle(y)) == k;
            assert(exp1.contains(y));
        }
    }
    assert forall|k: u64| #[trigger] ve1.contains(k) implies exists|y: Item|
        exp1.contains(y) && node_of(y) is Some && node_kind(y) == NodeKind::Frame && node_key(node_handle(y)) == k by {
        if ve0.contains(k) {
            let y = choose|y: Item|
                exp0.contains(y) && node_of(y) is Some && node_kind(y) == NodeKind::Frame && node_key(node_handle(y)) == k;
            assert(exp1.contains(y));
        }
    }
}

/// The node a value addresses, when it is a RUNTIME handle the walk follows.
pub fn value_node(v: Value) -> (r: Option<(NodeKind, Handle)>)
    ensures
        r == node_of(Item::Val(v)),
{
    match v {
        Value::Fn(h) => if h.region() == RUNTIME { Some((NodeKind::Closure, h)) } else { None },
        Value::Macro(h) => if h.region() == RUNTIME { Some((NodeKind::Closure, h)) } else { None },
        Value::Pair(h) => if h.region() == RUNTIME { Some((NodeKind::Pair, h)) } else { None },
        Value::Vector(h) => if h.region() == RUNTIME { Some((NodeKind::Vector, h)) } else { None },
        Value::Mapping(h) => if h.region() == RUNTIME { Some((NodeKind::Mapping, h)) } else { None },
        _ => None,
    }
}

/// Items appended to a stack of reachable items, each a child of a reachable
/// item, leave every item on it reachable.
pub proof fn lemma_grown_reachable(rt: &RuntimeCode, seeds: Set<Item>, x: Item, w1: Seq<Value>, w: Seq<Value>)
    requires
        reachable(rt, seeds, x),
        forall|i: int| 0 <= i < w1.len() ==> reachable(rt, seeds, Item::Val(#[trigger] w1[i])),
        w.len() >= w1.len(),
        w.take(w1.len() as int) == w1,
        forall|i: int| w1.len() <= i < w.len() ==> children(rt, x).contains(Item::Val(#[trigger] w[i])),
    ensures
        forall|i: int| 0 <= i < w.len() ==> reachable(rt, seeds, Item::Val(#[trigger] w[i])),
{
    assert forall|i: int| 0 <= i < w.len() implies reachable(rt, seeds, Item::Val(#[trigger] w[i])) by {
        if i < w1.len() {
            assert(w.take(w1.len() as int)[i] == w[i]);
        } else {
            lemma_child_reachable(rt, seeds, x, Item::Val(w[i]));
        }
    }
}

/// The frame-stack counterpart of [`lemma_grown_reachable`].
pub proof fn lemma_grown_reachable_env(rt: &RuntimeCode, seeds: Set<Item>, x: Item, e1: Seq<EnvId>, e: Seq<EnvId>)
    requires
        reachable(rt, seeds, x),
        forall|i: int| 0 <= i < e1.len() ==> reachable(rt, seeds, Item::Env(#[trigger] e1[i])),
        e.len() >= e1.len(),
        e.take(e1.len() as int) == e1,
        forall|i: int| e1.len() <= i < e.len() ==> children(rt, x).contains(Item::Env(#[trigger] e[i])),
    ensures
        forall|i: int| 0 <= i < e.len() ==> reachable(rt, seeds, Item::Env(#[trigger] e[i])),
{
    assert forall|i: int| 0 <= i < e.len() implies reachable(rt, seeds, Item::Env(#[trigger] e[i])) by {
        if i < e1.len() {
            assert(e.take(e1.len() as int)[i] == e[i]);
        } else {
            lemma_child_reachable(rt, seeds, x, Item::Env(e[i]));
        }
    }
}

/// At the end of a walk, the children of a seen reachable item are seen.
proof fn lemma_seen_children(
    rt: &RuntimeCode,
    gen: nat,
    seeds: Set<Item>,
    visited: Set<u64>,
    visited_env: Set<u64>,
    expanded: Set<Item>,
    y: Item,
    c: Item,
)
    requires
        walk_inv(rt, gen, seeds, seeds, Seq::empty(), Seq::empty(), visited, visited_env, expanded),
        resolves_from(rt, seeds, gen),
        keys_distinct(rt, seeds),
        reachable(rt, seeds, y),
        seen(y, gen, visited, visited_env),
        children(rt, y).contains(c),
    ensures
        seen(c, gen, visited, visited_env),
{
    let k = node_key(node_handle(y));
    if node_kind(y) == NodeKind::Frame {
        assert(visited_env.contains(k));
        let z = choose|z: Item|
            expanded.contains(z) && node_of(z) is Some && node_kind(z) == NodeKind::Frame && node_key(node_handle(z)) == k;
        assert(reachable(rt, seeds, z));
        assert(seen(z, gen, visited, visited_env));
        lemma_same_key_same_children(rt, y, z);
        assert(!pending(c, Seq::empty(), Seq::empty()));
    } else {
        assert(visited.contains(k));
        let z = choose|z: Item| expanded.contains(z) && is_val_node(z) && node_key(node_handle(z)) == k;
        assert(reachable(rt, seeds, z));
        assert(seen(z, gen, visited, visited_env));
        assert(node_kind(y) == node_kind(z));
        lemma_same_key_same_children(rt, y, z);
        assert(!pending(c, Seq::empty(), Seq::empty()));
    }
}

/// Along a path from a seed, at the end of a walk, every item is seen.
proof fn lemma_path_seen(
    rt: &RuntimeCode,
    gen: nat,
    seeds: Set<Item>,
    visited: Set<u64>,
    visited_env: Set<u64>,
    expanded: Set<Item>,
    p: Seq<Item>,
    i: int,
)
    requires
        walk_inv(rt, gen, seeds, seeds, Seq::empty(), Seq::empty(), visited, visited_env, expanded),
        resolves_from(rt, seeds, gen),
        keys_distinct(rt, seeds),
        is_path(rt, seeds, p),
        0 <= i < p.len(),
    ensures
        seen(p[i], gen, visited, visited_env),
        reachable(rt, seeds, p[i]),
    decreases i,
{
    if i == 0 {
        assert(seeds.contains(p[0]));
        assert(!pending(p[0], Seq::empty(), Seq::empty()));
        lemma_seed_reachable(rt, seeds, p[0]);
    } else {
        lemma_path_seen(rt, gen, seeds, visited, visited_env, expanded, p, i - 1);
        assert(children(rt, p[i - 1]).contains(p[i]));
        lemma_seen_children(rt, gen, seeds, visited, visited_env, expanded, p[i - 1], p[i]);
        lemma_child_reachable(rt, seeds, p[i - 1], p[i]);
    }
}

/// A walk that ends without finding `gen`, with every seed started, leaves no
/// reachable item in `gen`, provided no two reachable value nodes of different
/// slabs share a key.
pub proof fn lemma_walk_complete(
    rt: &RuntimeCode,
    gen: nat,
    seeds: Set<Item>,
    visited: Set<u64>,
    visited_env: Set<u64>,
    expanded: Set<Item>,
)
    requires
        walk_inv(rt, gen, seeds, seeds, Seq::empty(), Seq::empty(), visited, visited_env, expanded),
        resolves_from(rt, seeds, gen),
        keys_distinct(rt, seeds),
    ensures
        !gen_reachable(rt, seeds, gen),
{
    assert forall|x: Item| reachable(rt, seeds, x) implies !hits(x, gen) by {
        let p = choose|p: Seq<Item>| #[trigger] is_path(rt, seeds, p) && p.last() == x;
        lemma_path_seen(rt, gen, seeds, visited, visited_env, expanded, p, p.len() - 1);
    }
}

impl RuntimeCode {
    /// Walk the pending items to a fixpoint, following every RUNTIME sub-handle;
    /// `true` as soon as an item in generation `gen` turns up. The marked keys carry
    /// over between calls, so a second batch of seeds never re-walks the first's
    /// graph.
    pub fn walk_reaches_gen(
        &self,
        gen: usize,
        work: &mut Vec<Value>,
        env_work: &mut Vec<EnvId>,
        visited: &mut HashSet<u64>,
        visited_env: &mut HashSet<u64>,
        Ghost(seeds): Ghost<Set<Item>>,
        Ghost(started): Ghost<Set<Item>>,
        Ghost(expanded): Ghost<Set<Item>>,
    ) -> (r: (bool, Ghost<Set<Item>>))
        requires
            gen < 2,
            resolves_from(self, seeds, gen as nat),
            walk_inv(
                self,
                gen as nat,
                seeds,
                started,
                old(work)@,
                old(env_work)@,
                old(visited)@,
                old(visited_env)@,
                expanded,
            ),
        ensures
            r.0 ==> gen_reachable(self, seeds, gen as nat),
            !r.0 ==> final(work)@.len() == 0 && final(env_work)@.len() == 0 && walk_inv(
                self,
                gen as nat,
                seeds,
                started,
                final(work)@,
                final(env_work)@,
                final(visited)@,
                final(visited_env)@,
                r.1@,
            ),
    {
        broadcast use vstd::set_lib::range_set_properties;

        let ghost mut exp = expanded;
        let ghost g = gen as nat;
        while env_work.len() > 0 || work.len() > 0
            invariant
                gen < 2,
                g == gen as nat,
                resolves_from(self, seeds, g),
                walk_inv(self, g, seeds, started, work@, env_work@, visited@, visited_env@, exp),
            decreases 0x4_0000_0000 - visited@.len() - visited_env@.len(), work@.len() + env_work@.len(),
        {
            proof {
                assert(visited@.subset_of(Set::<u64>::range(0, 0x2_0000_0000)));
                assert(visited_env@.subset_of(Set::<u64>::range(0, 0x2_0000_0000)));
                vstd::set_lib::lemma_len_subset(visited@, Set::<u64>::range(0, 0x2_0000_0000));
                vstd::set_lib::lemma_len_subset(visited_env@, Set::<u64>::range(0, 0x2_0000_0000));
            }
            let ghost w0 = work@;
            let ghost e0 = env_work@;
            let ghost v0 = visited@;
            let ghost ve0 = visited_env@;
            let ghost exp0 = exp;
            let ghost x: Item;
            let ghost w1: Seq<Value>;
            let ghost e1: Seq<EnvId>;
            if env_work.len() > 0 {
                let e = env_work.pop().unwrap();
                proof {
                    x = Item::Env(e);
                    w1 = work@;
                    e1 = env_work@;
                    assert(e0 == env_work@.push(e));
                    assert(e0[e0.len() - 1] == e);
                    assert forall|c: Item| pending(c, w0, e0) implies pending(c, w1, e1) || c == x by {
                        if let Item::Env(ce) = c {
                            let j = choose|j: int| 0 <= j < e0.len() && e0[j] == ce;
                            if j < e0.len() - 1 {
                                assert(e1[j] == ce);
                            }
                        }
                    }
                    assert forall|i: int| 0 <= i < e1.len() implies reachable(self, seeds, Item::Env(#[trigger] e1[i])) by {
                        assert(e1[i] == e0[i]);
                    }
                    assert(reachable(self, seeds, x));
                }
                if e.0 == 0xFFFF_FFFF_FFFF_FFFFu64 || e.region() != RUNTIME {
                    proof {
                        if is_global_env(e) {
                            lemma_global_env_region(e);
                        }
                        assert(work@.take(w1.len() as int) == w1);
                        assert(env_work@.take(e1.len() as int) == e1);
                    }
                } else if e.code_gen() == gen {
                    proof {
                        assert(hits(x, g));
                    }
                    return (true, Ghost(exp));
                } else {
                    proof {
                        lemma_node_key(e);
                    }
                    let k = rt_pos_key(e.index(), e.code_gen());
                    let fresh = visited_env.insert(k);
                    if fresh {
                        let frame = &self.gen_slabs(e.code_gen()).envs[e.index()];
                        push_var_values(work, &frame.vars);
                        let ghost ys = frame.vars@.map_values(|p: (u32, Value)| p.1);
                        match frame.parent {
                            Some(p) => env_work.push(p),
                            None => {},
                        }
                        proof {
                            let kids = children(self, x);
                            assert(kids == var_vals(frame.vars@) + env_items(frame.parent));
                            assert(var_vals(frame.vars@) =~= vals(ys));
                            assert forall|c: Item| kids.contains(c) implies pending(c, work@, env_work@) by {
                                let j = choose|j: int| 0 <= j < kids.len() && kids[j] == c;
                                if j < ys.len() {
                                    assert(vals(ys)[j] == c);
                                    lemma_appended_pending(w1, ys, env_work@, c);
                                } else {
                                    assert(env_work@[env_work@.len() - 1] == frame.parent->0);
                                }
                            }
                            assert(work@.take(w1.len() as int) =~= w1);
                            assert(env_work@.take(e1.len() as int) =~= e1);
                            assert forall|i: int| w1.len() <= i < work@.len() implies kids.contains(Item::Val(#[trigger] work@[i])) by {
                                assert(work@[i] == ys[i - w1.len()]);
                                assert(kids[i - w1.len()] == Item::Val(ys[i - w1.len()]));
                            }
                            assert forall|i: int| e1.len() <= i < env_work@.len() implies kids.contains(Item::Env(#[trigger] env_work@[i])) by {
                                assert(kids[kids.len() - 1] == Item::Env(frame.parent->0));
                            }
                            lemma_grown_reachable(self, seeds, x, w1, work@);
                            lemma_grown_reachable_env(self, seeds, x, e1, env_work@);
                            exp = exp.insert(x);
                            assert(exp.contains(x) && node_of(x) is Some && node_kind(x) == NodeKind::Frame
                                && node_key(node_handle(x)) == k);
                            assert forall|kk: u64| #[trigger] visited_env@.contains(kk) && !ve0.contains(kk) implies exists|y: Item|
                                exp.contains(y) && node_of(y) is Some && node_kind(y) == NodeKind::Frame
                                    && node_key(node_handle(y)) == kk by {
                                assert(kk == k);
                            }
                        }
                    } else {
                        proof {
                            assert(work@.take(w1.len() as int) == w1);
                            assert(env_work@.take(e1.len() as int) == e1);
                        }
                    }
                }
            } else {
                let v = work.pop().unwrap();
                proof {
                    x = Item::Val(v);
                    w1 = work@;
                    e1 = env_work@;
                    assert(w0 == work@.push(v));
                    assert(w0[w0.len() - 1] == v);
                    assert forall|c: Item| pending(c, w0, e0) implies pending(c, w1, e1) || c == x by {
                        if let Item::Val(cv) = c {
                            let j = choose|j: int| 0 <= j < w0.len() && w0[j] == cv;
                            if j < w0.len() - 1 {
                                assert(w1[j] == cv);
                            }
                        }
                    }
                    assert forall|i: int| 0 <= i < w1.len() implies reachable(self, seeds, Item::Val(#[trigger] w1[i])) by {
                        assert(w1[i] == w0[i]);
                    }
                    assert(reachable(self, seeds, x));
                }
                match value_node(v) {
                    None => {
                        proof {
                            assert(work@.take(w1.len() as int) == w1);
                            assert(env_work@.take(e1.len() as int) == e1);
                        }
                    },
                    Some((kind, id)) => {
                        if id.code_gen() == gen {
                            proof {
                                assert(hits(x, g));
                            }
                            return (true, Ghost(exp));
                        }
                        proof {
                            lemma_node_key(id);
                        }
                        let k = rt_pos_key(id.index(), id.code_gen());
                        let fresh = visited.insert(k);
                        if fresh {
                            let slabs = self.gen_slabs(id.code_gen());
                            let ghost kids = children(self, x);
                            match kind {
                                NodeKind::Closure => {
                                    let cl = &slabs.closures[id.index()];
                                    push_values(work, &cl.refs);
                                    match cl.env {
                                        Some(ce) => env_work.push(ce),
                                        None => {},
                                    }
                                    proof {
                                        assert(kids == vals(cl.refs@) + env_items(cl.env));
                                        assert forall|c: Item| kids.contains(c) implies pending(c, work@, env_work@) by {
                                            let j = choose|j: int| 0 <= j < kids.len() && kids[j] == c;
                                            if j < cl.refs@.len() {
                                                assert(vals(cl.refs@)[j] == c);
                                                lemma_appended_pending(w1, cl.refs@, env_work@, c);
                                            } else {
                                                assert(env_work@[env_work@.len() - 1] == cl.env->0);
                                            }
                                        }
                                        assert forall|i: int| w1.len() <= i < work@.len() implies kids.contains(Item::Val(#[trigger] work@[i])) by {
                                            assert(kids[i - w1.len()] == Item::Val(cl.refs@[i - w1.len()]));
                                        }
                                        assert forall|i: int| e1.len() <= i < env_work@.len() implies kids.contains(Item::Env(#[trigger] env_work@[i])) by {
                                            assert(kids[kids.len() - 1] == Item::Env(cl.env->0));
                                        }
                                    }
                                },
                                NodeKind::Pair => {
                                    let (h, t) = slabs.pairs[id.index()];
                                    work.push(h);
                                    work.push(t);
                                    proof {
                                        assert(kids == seq![Item::Val(h), Item::Val(t)]);
                                        assert(work@[work@.len() - 1] == t);
                                        assert(work@[work@.len() - 2] == h);
                                        assert(kids[0] == Item::Val(h));
                                        assert(kids[1] == Item::Val(t));
                                    }
                                },
                                NodeKind::Vector => {
                                    let xs = &slabs.vectors[id.index()];
                                    push_values(work, xs);
                                    proof {
                                        assert(kids == vals(xs@));
                                        assert forall|c: Item| kids.contains(c) implies pending(c, work@, env_work@) by {
                                            lemma_appended_pending(w1, xs@, env_work@, c);
                                        }
                                        assert forall|i: int| w1.len() <= i < work@.len() implies kids.contains(Item::Val(#[trigger] work@[i])) by {
                                            assert(kids[i - w1.len()] == Item::Val(xs@[i - w1.len()]));
                                        }
                                    }
                                },
                                NodeKind::Mapping => {
                                    let xs = &slabs.maps[id.index()];
                                    push_values(work, xs);
                                    proof {
                                        assert(kids == vals(xs@));
                                        assert forall|c: Item| kids.contains(c) implies pending(c, work@, env_work@) by {
                                            lemma_appended_pending(w1, xs@, env_work@, c);
                                        }
                                        assert forall|i: int| w1.len() <= i < work@.len() implies kids.contains(Item::Val(#[trigger] work@[i])) by {
                                            assert(kids[i - w1.len()] == Item::Val(xs@[i - w1.len()]));
                                        }
                                    }
                                },
                                NodeKind::Frame => {},
                            }
                            proof {
                                assert(work@.take(w1.len() as int) =~= w1);
                                assert(env_work@.take(e1.len() as int) =~= e1);
                                lemma_grown_reachable(self, seeds, x, w1, work@);
                                lemma_grown_reachable_env(self, seeds, x, e1, env_work@);
                                exp = exp.insert(x);
                                assert(exp.contains(x) && is_val_node(x) && node_key(node_handle(x)) == k);
                                assert forall|kk: u64| #[trigger] visited@.contains(kk) && !v0.contains(kk) implies exists|y: Item|
                                    exp.contains(y) && is_val_node(y) && node_key(node_handle(y)) == kk by {
                                    assert(kk == k);
                                }
                            }
                        } else {
                            proof {
                                assert(work@.take(w1.len() as int) == w1);
                                assert(env_work@.take(e1.len() as int) == e1);
                            }
                        }
                    },
                }
            }
            proof {
                vstd::set_lib::lemma_len_subset(visited@, Set::<u64>::range(0, 0x2_0000_0000));
                vstd::set_lib::lemma_len_subset(visited_env@, Set::<u64>::range(0, 0x2_0000_0000));
                assert(visited@ == v0 || visited@ == v0.insert(node_key(node_handle(x))));
                assert(visited_env@ == ve0 || visited_env@ == ve0.insert(node_key(node_handle(x))));
                assert forall|c: Item| pending(c, w0, e0) implies pending(c, work@, env_work@) || c == x by {
                    if pending(c, w1, e1) {
                        lemma_prefix_pending(c, w1, e1, work@, env_work@);
                    }
                }
                lemma_inv_step(
                    self,
                    g,
                    seeds,
                    started,
                    w0,
                    e0,
                    v0,
                    ve0,
                    exp0,
                    work@,
                    env_work@,
                    visited@,
                    visited_env@,
                    exp,
                    x,
                );
            }
        }
        (false, Ghost(exp))
    }
}

} // verus!
