//! The generation probes: does anything a process can reach still point into a
//! RUNTIME code generation? The cheap roots (the shared globals and declared
//! signatures when asked for, the operand, environment and dynamic-binding
//! stacks, and the literals of the compiled arms mid-execution) are walked first;
//! the process's whole LOCAL data only when they come out clean.

use vstd::prelude::*;
use std::collections::HashMap;
use std::collections::HashSet;
use std::sync::Arc;
use vstd::std_specs::iter::IteratorSpec;
use crate::value::{Symbol, Value, EnvId};
use crate::runtime_code::{CodeSlabs, RuntimeCode};
use crate::vm_cache::CompiledArm;
use crate::heap::{Heap, P1_LARGE_SEED, P1_REVALIDATE_STRIDE, P2_REVALIDATE_STRIDE};
use crate::reach::{
    Item, walk_inv, pending, seen, reachable, gen_reachable, resolves_from, keys_distinct, hits,
    lemma_seed_reachable, lemma_prefix_pending, lemma_seen_mono, lemma_walk_complete,
};

verus! {

broadcast use vstd::std_specs::hash::group_hash_axioms;

/// Is the `i`-th live arm the first with its id? (An arm's id identifies it;
/// frames running the same arm share it.)
pub open spec fn first_arm(arms: Seq<Arc<CompiledArm>>, i: int) -> bool {
    forall|j: int| 0 <= j < i ==> arms[j].uid != arms[i].uid
}

/// Is `v` a literal of one of the live arms?
pub open spec fn arm_const(arms: Seq<Arc<CompiledArm>>, v: Value) -> bool {
    exists|i: int|
        0 <= i < arms.len() && first_arm(arms, i) && #[trigger] arms[i].consts@.contains(v)
}

/// The values bound by a list of bindings.
pub open spec fn bound_vals(s: Seq<(u32, Value)>) -> Seq<Value> {
    s.map_values(|p: (u32, Value)| p.1)
}

/// Is `x` one of the cheap roots: the shared globals and declared signatures
/// (when `shared`), the operand, environment and dynamic-binding stacks, and the
/// literals of the live arms?
pub open spec fn is_cheap_root(h: &Heap, shared: bool, x: Item) -> bool {
    match x {
        Item::Val(v) => (shared && (h.runtime.globals@.values().contains(v)
            || h.runtime.declared_sigs@.values().contains(v))) || h.roots@.contains(v)
            || bound_vals(h.dynamics@).contains(v) || arm_const(h.live_vm_arms@, v),
        Item::Env(e) => h.env_roots@.contains(e),
    }
}

/// Does a slab set hold the value `v` in one of its cells?
pub open spec fn slab_value(s: CodeSlabs, v: Value) -> bool {
    ||| exists|i: int| 0 <= i < s.pairs@.len() && (#[trigger] s.pairs@[i].0 == v || s.pairs@[i].1 == v)
    ||| exists|i: int| 0 <= i < s.vectors@.len() && #[trigger] s.vectors@[i]@.contains(v)
    ||| exists|i: int| 0 <= i < s.maps@.len() && #[trigger] s.maps@[i]@.contains(v)
    ||| exists|i: int| 0 <= i < s.closures@.len() && #[trigger] s.closures@[i].refs@.contains(v)
    ||| exists|i: int| 0 <= i < s.envs@.len() && #[trigger] bound_vals(s.envs@[i].vars@).contains(v)
}

/// Does a slab set refer to the frame `e`?
pub open spec fn slab_env(s: CodeSlabs, e: EnvId) -> bool {
    ||| exists|i: int| 0 <= i < s.closures@.len() && #[trigger] s.closures@[i].env == Some(e)
    ||| exists|i: int| 0 <= i < s.envs@.len() && #[trigger] s.envs@[i].parent == Some(e)
}

/// Is `x` held by the process's LOCAL data?
pub open spec fn is_local_root(h: &Heap, x: Item) -> bool {
    match x {
        Item::Val(v) => slab_value(h.local, v),
        Item::Env(e) => slab_env(h.local, e),
    }
}

/// The cheap roots.
pub open spec fn cheap_roots(h: &Heap, shared: bool) -> Set<Item> {
    Set::new(|x: Item| is_cheap_root(h, shared, x))
}

/// Everything the probe starts from.
pub open spec fn probe_roots(h: &Heap, shared: bool) -> Set<Item> {
    Set::new(|x: Item| is_cheap_root(h, shared, x) || is_local_root(h, x))
}

/// Append the values of a map to a work stack.
pub(crate) fn push_map_values(work: &mut Vec<Value>, m: &HashMap<Symbol, Value>)
    ensures
        final(work)@.len() >= old(work)@.len(),
        final(work)@.take(old(work)@.len() as int) == old(work)@,
        forall|v: Value| m@.values().contains(v) ==> final(work)@.contains(v),
        forall|i: int| old(work)@.len() <= i < final(work)@.len() ==> m@.values().contains(#[trigger] final(work)@[i]),
{
    let ghost w0 = work@;
    let ghost full: Seq<Value> = m.values().remaining().unref();
    for v in it: m.values()
        invariant
            full == m.values().remaining().unref(),
            full.to_set() == m@.values(),
            it.seq().unref() == full,
            work@ == w0 + full.take(it.index() as int),
    {
        proof {
            assert(full.take(it.index() + 1) == full.take(it.index() as int).push(full[it.index() as int]));
        }
        work.push(*v);
    }
    proof {
        assert(full.take(full.len() as int) == full);
        assert(work@ == w0 + full);
        assert(work@.take(w0.len() as int) =~= w0);
        assert forall|v: Value| m@.values().contains(v) implies work@.contains(v) by {
            assert(full.to_set().contains(v));
            let j = choose|j: int| 0 <= j < full.len() && full[j] == v;
            assert(work@[w0.len() + j] == v);
        }
        assert forall|i: int| w0.len() <= i < work@.len() implies m@.values().contains(#[trigger] work@[i]) by {
            assert(work@[i] == full[i - w0.len()]);
            assert(full.to_set().contains(full[i - w0.len()]));
        }
    }
}

/// Append frames to a frame stack.
fn push_envs(env_work: &mut Vec<EnvId>, xs: &Vec<EnvId>)
    ensures
        final(env_work)@ == old(env_work)@ + xs@,
{
    let mut i: usize = 0;
    while i < xs.len()
        invariant
            i <= xs@.len(),
            env_work@ == old(env_work)@ + xs@.take(i as int),
        decreases xs@.len() - i,
    {
        env_work.push(xs[i]);
        i = i + 1;
        proof {
            assert(xs@.take(i as int) == xs@.take(i - 1).push(xs@[i - 1]));
        }
    }
    proof {
        assert(xs@.take(xs@.len() as int) == xs@);
    }
}

/// Append values to a work stack.
fn push_vals(work: &mut Vec<Value>, xs: &Vec<Value>)
    ensures
        final(work)@ == old(work)@ + xs@,
{
    let mut i: usize = 0;
    while i < xs.len()
        invariant
            i <= xs@.len(),
            work@ == old(work)@ + xs@.take(i as int),
        decreases xs@.len() - i,
    {
        work.push(xs[i]);
        i = i + 1;
        proof {
            assert(xs@.take(i as int) == xs@.take(i - 1).push(xs@[i - 1]));
        }
    }
    proof {
        assert(xs@.take(xs@.len() as int) == xs@);
    }
}

/// Append the bound values of a list of bindings to a work stack.
fn push_bound_vals(work: &mut Vec<Value>, xs: &Vec<(u32, Value)>)
    ensures
        final(work)@ == old(work)@ + bound_vals(xs@),
{
    let ghost ys = bound_vals(xs@);
    let mut i: usize = 0;
    while i < xs.len()
        invariant
            i <= xs@.len(),
            ys == bound_vals(xs@),
            work@ == old(work)@ + ys.take(i as int),
        decreases xs@.len() - i,
    {
        work.push(xs[i].1);
        i = i + 1;
        proof {
            assert(ys.take(i as int) == ys.take(i - 1).push(ys[i - 1]));
        }
    }
    proof {
        assert(ys.take(ys.len() as int) == ys);
    }
}

/// `a + b` holds everything `b` holds.
proof fn lemma_concat_contains<A>(a: Seq<A>, b: Seq<A>, x: A)
    requires
        b.contains(x),
    ensures
        (a + b).contains(x),
{
    let j = choose|j: int| 0 <= j < b.len() && b[j] == x;
    assert((a + b)[a.len() + j] == x);
}

/// `a + b` holds everything `a` holds.
proof fn lemma_concat_contains_left<A>(a: Seq<A>, b: Seq<A>, x: A)
    requires
        a.contains(x),
    ensures
        (a + b).contains(x),
{
    let j = choose|j: int| 0 <= j < a.len() && a[j] == x;
    assert((a + b)[j] == x);
}

impl Heap {
    /// Push the cheap roots onto the work stacks: the shared globals and declared
    /// signatures when `shared`, the operand, environment and dynamic-binding
    /// stacks, and the literals of each distinct live arm.
    fn seed_cheap_roots(&self, shared: bool, work: &mut Vec<Value>, env_work: &mut Vec<EnvId>)
        ensures
            final(work)@.len() >= old(work)@.len(),
            final(work)@.take(old(work)@.len() as int) == old(work)@,
            final(env_work)@.len() >= old(env_work)@.len(),
            final(env_work)@.take(old(env_work)@.len() as int) == old(env_work)@,
            forall|x: Item| is_cheap_root(self, shared, x) ==> pending(x, final(work)@, final(env_work)@),
            forall|i: int|
                old(work)@.len() <= i < final(work)@.len() ==> is_cheap_root(self, shared, Item::Val(#[trigger] final(work)@[i])),
            forall|i: int|
                old(env_work)@.len() <= i < final(env_work)@.len() ==> is_cheap_root(self, shared, Item::Env(#[trigger] final(env_work)@[i])),
    {
        let ghost w0 = work@;
        let ghost e0 = env_work@;
        if shared {
            let ghost wa = work@;
            push_map_values(work, &self.runtime.globals);
            let ghost wb = work@;
            push_map_values(work, &self.runtime.declared_sigs);
            proof {
                assert forall|v: Value| self.runtime.globals@.values().contains(v) implies work@.contains(v) by {
                    let j = choose|j: int| 0 <= j < wb.len() && wb[j] == v;
                    assert(work@.take(wb.len() as int)[j] == v);
                }
                assert(work@.take(wa.len() as int) =~= wa) by {
                    assert(work@.take(wb.len() as int) == wb);
                }
                assert forall|i: int| wa.len() <= i < work@.len() implies is_cheap_root(self, shared, Item::Val(#[trigger] work@[i])) by {
                    if i < wb.len() {
                        assert(work@.take(wb.len() as int)[i] == work@[i]);
                    }
                }
            }
        }
        let ghost w1 = work@;
        proof {
            assert(w1.take(w0.len() as int) =~= w0);
        }
        push_vals(work, &self.roots);
        push_envs(env_work, &self.env_roots);
        let ghost w2 = work@;
        push_bound_vals(work, &self.dynamics);
        let ghost w3 = work@;
        let mut seen_arms: HashSet<u64> = HashSet::new();
        let mut i: usize = 0;
        while i < self.live_vm_arms.len()
            invariant
                i <= self.live_vm_arms@.len(),
                w3.len() <= work@.len(),
                work@.take(w3.len() as int) == w3,
                forall|u: u64| seen_arms@.contains(u) <==> exists|j: int| 0 <= j < i && #[trigger] self.live_vm_arms@[j].uid == u,
                forall|j: int, v: Value|
                    0 <= j < i && first_arm(self.live_vm_arms@, j) && #[trigger] self.live_vm_arms@[j].consts@.contains(v)
                        ==> work@.contains(v),
                forall|k: int| w3.len() <= k < work@.len() ==> arm_const(self.live_vm_arms@, #[trigger] work@[k]),
            decreases self.live_vm_arms@.len() - i,
        {
            let arm = &self.live_vm_arms[i];
            let ghost wi = work@;
            let fresh = seen_arms.insert(arm.uid);
            proof {
                assert(fresh <==> first_arm(self.live_vm_arms@, i as int)) by {
                    if !fresh {
                        let j = choose|j: int| 0 <= j < i && #[trigger] self.live_vm_arms@[j].uid == arm.uid;
                        assert(!first_arm(self.live_vm_arms@, i as int));
                    }
                }
            }
            if fresh {
                push_vals(work, &arm.consts);
                proof {
                    assert forall|j: int, v: Value|
                        0 <= j <= i && first_arm(self.live_vm_arms@, j) && #[trigger] self.live_vm_arms@[j].consts@.contains(v)
                            implies work@.contains(v) by {
                        if j < i {
                            lemma_concat_contains_left(wi, arm.consts@, v);
                        } else {
                            lemma_concat_contains(wi, arm.consts@, v);
                        }
                    }
                    assert forall|k: int| w3.len() <= k < work@.len() implies arm_const(self.live_vm_arms@, #[trigger] work@[k]) by {
                        if k >= wi.len() {
                            assert(work@[k] == arm.consts@[k - wi.len()]);
                            assert(self.live_vm_arms@[i as int].consts@.contains(work@[k]));
                        } else {
                            assert(work@[k] == wi[k]);
                        }
                    }
                    assert(work@.take(w3.len() as int) =~= w3) by {
                        assert(work@.take(wi.len() as int) =~= wi);
                        assert(wi.take(w3.len() as int) == w3);
                    }
                }
            }
            i = i + 1;
        }
        proof {
            assert(work@.take(w0.len() as int) =~= w0) by {
                assert(work@.take(w3.len() as int) == w3);
                assert(w3.take(w2.len() as int) =~= w2);
                assert(w2.take(w1.len() as int) =~= w1);
            }
            assert(env_work@.take(e0.len() as int) =~= e0);
            assert(w3.take(w2.len() as int) =~= w2);
            assert(w2.take(w1.len() as int) =~= w1);
            assert(work@.take(w3.len() as int) == w3);
            assert(work@.take(w2.len() as int) =~= w2);
            assert(work@.take(w1.len() as int) =~= w1);
            assert(env_work@.take(env_work@.len() as int) =~= env_work@);
            assert forall|x: Item| is_cheap_root(self, shared, x) implies pending(x, work@, env_work@) by {
                match x {
                    Item::Val(v) => {
                        if shared && (self.runtime.globals@.values().contains(v)
                            || self.runtime.declared_sigs@.values().contains(v)) {
                            assert(w1.contains(v));
                            lemma_prefix_pending(x, w1, env_work@, work@, env_work@);
                        } else if self.roots@.contains(v) {
                            lemma_concat_contains(w1, self.roots@, v);
                            lemma_prefix_pending(x, w2, env_work@, work@, env_work@);
                        } else if bound_vals(self.dynamics@).contains(v) {
                            lemma_concat_contains(w2, bound_vals(self.dynamics@), v);
                            lemma_prefix_pending(x, w3, env_work@, work@, env_work@);
                        } else {
                            let j = choose|j: int|
                                0 <= j < self.live_vm_arms@.len() && first_arm(self.live_vm_arms@, j)
                                    && #[trigger] self.live_vm_arms@[j].consts@.contains(v);
                        }
                    },
                    Item::Env(e) => {
                        lemma_concat_contains(e0, self.env_roots@, e);
                    },
                }
            }
            assert forall|k: int| w0.len() <= k < work@.len() implies is_cheap_root(self, shared, Item::Val(#[trigger] work@[k])) by {
                if k < w1.len() {
                    assert(work@[k] == w1[k]);
                } else if k < w2.len() {
                    assert(work@[k] == w2[k]);
                    assert(w2[k] == self.roots@[k - w1.len()]);
                } else if k < w3.len() {
                    assert(work@[k] == w3[k]);
                    assert(w3[k] == bound_vals(self.dynamics@)[k - w2.len()]);
                }
            }
            assert forall|k: int| e0.len() <= k < env_work@.len() implies is_cheap_root(self, shared, Item::Env(#[trigger] env_work@[k])) by {
                assert(env_work@[k] == self.env_roots@[k - e0.len()]);
            }
        }
    }
}

/// What a stack held, a longer stack starting with it holds.
proof fn lemma_prefix_contains<A>(w0: Seq<A>, w: Seq<A>, x: A)
    requires
        w0.contains(x),
        w0.len() <= w.len(),
        w.take(w0.len() as int) == w0,
    ensures
        w.contains(x),
{
    let j = choose|j: int| 0 <= j < w0.len() && w0[j] == x;
    assert(w.take(w0.len() as int)[j] == x);
}

/// Does some row hold `v`?
pub open spec fn in_rows(rows: Seq<Vec<Value>>, v: Value) -> bool {
    exists|j: int| 0 <= j < rows.len() && #[trigger] rows[j]@.contains(v)
}

/// Append every value of every row to a work stack.
fn push_rows(work: &mut Vec<Value>, rows: &Vec<Vec<Value>>)
    ensures
        final(work)@.len() >= old(work)@.len(),
        final(work)@.take(old(work)@.len() as int) == old(work)@,
        forall|i: int, v: Value| 0 <= i < rows@.len() && #[trigger] rows@[i]@.contains(v) ==> final(work)@.contains(v),
        forall|k: int| old(work)@.len() <= k < final(work)@.len() ==> in_rows(rows@, #[trigger] final(work)@[k]),
{
    let ghost w0 = work@;
    let mut i: usize = 0;
    while i < rows.len()
        invariant
            i <= rows@.len(),
            w0.len() <= work@.len(),
            work@.take(w0.len() as int) == w0,
            forall|j: int, v: Value| 0 <= j < i && #[trigger] rows@[j]@.contains(v) ==> work@.contains(v),
            forall|k: int| w0.len() <= k < work@.len() ==> in_rows(rows@, #[trigger] work@[k]),
        decreases rows@.len() - i,
    {
        let ghost wi = work@;
        push_vals(work, &rows[i]);
        proof {
            assert(work@.take(wi.len() as int) =~= wi);
            assert(work@.take(w0.len() as int) =~= w0) by {
                assert(wi.take(w0.len() as int) == w0);
            }
            assert forall|j: int, v: Value| 0 <= j <= i && #[trigger] rows@[j]@.contains(v) implies work@.contains(v) by {
                if j < i {
                    lemma_prefix_contains(wi, work@, v);
                } else {
                    lemma_concat_contains(wi, rows@[i as int]@, v);
                }
            }
            assert forall|k: int| w0.len() <= k < work@.len() implies in_rows(rows@, #[trigger] work@[k]) by {
                if k >= wi.len() {
                    let ii = i as int;
                    assert(work@[k] == rows@[ii]@[k - wi.len()]);
                    assert(rows@[ii]@.contains(work@[k]));
                } else {
                    assert(work@[k] == wi[k]);
                }
            }
        }
        i = i + 1;
    }
}

impl Heap {
    /// Push everything the process's LOCAL data holds onto the work stacks.
    fn seed_local_roots(&self, work: &mut Vec<Value>, env_work: &mut Vec<EnvId>)
        ensures
            final(work)@.len() >= old(work)@.len(),
            final(work)@.take(old(work)@.len() as int) == old(work)@,
            final(env_work)@.len() >= old(env_work)@.len(),
            final(env_work)@.take(old(env_work)@.len() as int) == old(env_work)@,
            forall|x: Item| is_local_root(self, x) ==> pending(x, final(work)@, final(env_work)@),
            forall|i: int|
                old(work)@.len() <= i < final(work)@.len() ==> is_local_root(self, Item::Val(#[trigger] final(work)@[i])),
            forall|i: int|
                old(env_work)@.len() <= i < final(env_work)@.len() ==> is_local_root(self, Item::Env(#[trigger] final(env_work)@[i])),
    {
        let s = &self.local;
        let ghost w0 = work@;
        let ghost e0 = env_work@;
        // Pairs.
        let mut i: usize = 0;
        while i < s.pairs.len()
            invariant
                s == &self.local,
                i <= s.pairs@.len(),
                w0.len() <= work@.len(),
                work@.take(w0.len() as int) == w0,
                env_work@ == e0,
                forall|j: int| 0 <= j < i ==> work@.contains(#[trigger] s.pairs@[j].0) && work@.contains(s.pairs@[j].1),
                forall|k: int| w0.len() <= k < work@.len() ==> slab_value(*s, #[trigger] work@[k]),
            decreases s.pairs@.len() - i,
        {
            let ghost wi = work@;
            let (a, b) = s.pairs[i];
            work.push(a);
            work.push(b);
            proof {
                assert(work@.take(wi.len() as int) =~= wi);
                assert(work@.take(w0.len() as int) =~= w0) by {
                    assert(wi.take(w0.len() as int) == w0);
                }
                assert(work@[wi.len() as int] == a);
                assert(work@[wi.len() as int + 1] == b);
                assert forall|j: int| 0 <= j <= i implies work@.contains(#[trigger] s.pairs@[j].0) && work@.contains(s.pairs@[j].1) by {
                    if j < i {
                        lemma_prefix_contains(wi, work@, s.pairs@[j].0);
                        lemma_prefix_contains(wi, work@, s.pairs@[j].1);
                    }
                }
                assert forall|k: int| w0.len() <= k < work@.len() implies slab_value(*s, #[trigger] work@[k]) by {
                    if k < wi.len() {
                        assert(work@[k] == wi[k]);
                    } else {
                        assert(s.pairs@[i as int].0 == work@[k] || s.pairs@[i as int].1 == work@[k]);
                    }
                }
            }
            i = i + 1;
        }
        let ghost wp = work@;
        push_rows(work, &s.vectors);
        let ghost wv = work@;
        push_rows(work, &s.maps);
        let ghost wm = work@;
        // Closures.
        let mut i: usize = 0;
        while i < s.closures.len()
            invariant
                s == &self.local,
                i <= s.closures@.len(),
                wm.len() <= work@.len(),
                work@.take(wm.len() as int) == wm,
                e0.len() <= env_work@.len(),
                env_work@.take(e0.len() as int) == e0,
                forall|j: int, v: Value| 0 <= j < i && #[trigger] s.closures@[j].refs@.contains(v) ==> work@.contains(v),
                forall|j: int| 0 <= j < i && (#[trigger] s.closures@[j]).env is Some ==> env_work@.contains(s.closures@[j].env->0),
                forall|k: int| wm.len() <= k < work@.len() ==> slab_value(*s, #[trigger] work@[k]),
                forall|k: int| e0.len() <= k < env_work@.len() ==> slab_env(*s, #[trigger] env_work@[k]),
            decreases s.closures@.len() - i,
        {
            let ghost wi = work@;
            let ghost ei = env_work@;
            let cl = &s.closures[i];
            push_vals(work, &cl.refs);
            match cl.env {
                Some(e) => env_work.push(e),
                None => {},
            }
            proof {
                assert(work@.take(wi.len() as int) =~= wi);
                assert(env_work@.take(ei.len() as int) =~= ei);
                assert(work@.take(wm.len() as int) =~= wm) by {
                    assert(wi.take(wm.len() as int) == wm);
                }
                assert(env_work@.take(e0.len() as int) =~= e0) by {
                    assert(ei.take(e0.len() as int) == e0);
                }
                assert forall|j: int, v: Value| 0 <= j <= i && #[trigger] s.closures@[j].refs@.contains(v) implies work@.contains(v) by {
                    if j < i {
                        lemma_prefix_contains(wi, work@, v);
                    } else {
                        lemma_concat_contains(wi, cl.refs@, v);
                    }
                }
                assert forall|j: int| 0 <= j <= i && (#[trigger] s.closures@[j]).env is Some implies env_work@.contains(s.closures@[j].env->0) by {
                    if j < i {
                        lemma_prefix_contains(ei, env_work@, s.closures@[j].env->0);
                    } else {
                        assert(env_work@[env_work@.len() - 1] == s.closures@[j].env->0);
                    }
                }
                assert forall|k: int| wm.len() <= k < work@.len() implies slab_value(*s, #[trigger] work@[k]) by {
                    if k < wi.len() {
                        assert(work@[k] == wi[k]);
                    } else {
                        assert(work@[k] == cl.refs@[k - wi.len()]);
                        assert(s.closures@[i as int].refs@.contains(work@[k]));
                    }
                }
                assert forall|k: int| e0.len() <= k < env_work@.len() implies slab_env(*s, #[trigger] env_work@[k]) by {
                    if k < ei.len() {
                        assert(env_work@[k] == ei[k]);
                    } else {
                        assert(s.closures@[i as int].env == Some(env_work@[k]));
                    }
                }
            }
            i = i + 1;
        }
        let ghost wc = work@;
        let ghost ec = env_work@;
        // Frames.
        let mut i: usize = 0;
        while i < s.envs.len()
            invariant
                s == &self.local,
                i <= s.envs@.len(),
                wc.len() <= work@.len(),
                work@.take(wc.len() as int) == wc,
                ec.len() <= env_work@.len(),
                env_work@.take(ec.len() as int) == ec,
                forall|j: int, v: Value| 0 <= j < i && #[trigger] bound_vals(s.envs@[j].vars@).contains(v) ==> work@.contains(v),
                forall|j: int| 0 <= j < i && (#[trigger] s.envs@[j]).parent is Some ==> env_work@.contains(s.envs@[j].parent->0),
                forall|k: int| wc.len() <= k < work@.len() ==> slab_value(*s, #[trigger] work@[k]),
                forall|k: int| ec.len() <= k < env_work@.len() ==> slab_env(*s, #[trigger] env_work@[k]),
            decreases s.envs@.len() - i,
        {
            let ghost wi = work@;
            let ghost ei = env_work@;
            let fr = &s.envs[i];
            push_bound_vals(work, &fr.vars);
            match fr.parent {
                Some(e) => env_work.push(e),
                None => {},
            }
            proof {
                assert(work@.take(wi.len() as int) =~= wi);
                assert(env_work@.take(ei.len() as int) =~= ei);
                assert(work@.take(wc.len() as int) =~= wc) by {
                    assert(wi.take(wc.len() as int) == wc);
                }
                assert(env_work@.take(ec.len() as int) =~= ec) by {
                    assert(ei.take(ec.len() as int) == ec);
                }
                assert forall|j: int, v: Value| 0 <= j <= i && #[trigger] bound_vals(s.envs@[j].vars@).contains(v) implies work@.contains(v) by {
                    if j < i {
                        lemma_prefix_contains(wi, work@, v);
                    } else {
                        lemma_concat_contains(wi, bound_vals(fr.vars@), v);
                    }
                }
                assert forall|j: int| 0 <= j <= i && (#[trigger] s.envs@[j]).parent is Some implies env_work@.contains(s.envs@[j].parent->0) by {
                    if j < i {
                        lemma_prefix_contains(ei, env_work@, s.envs@[j].parent->0);
                    } else {
                        assert(env_work@[env_work@.len() - 1] == s.envs@[j].parent->0);
                    }
                }
                assert forall|k: int| wc.len() <= k < work@.len() implies slab_value(*s, #[trigger] work@[k]) by {
                    if k < wi.len() {
                        assert(work@[k] == wi[k]);
                    } else {
                        assert(work@[k] == bound_vals(fr.vars@)[k - wi.len()]);
                        assert(bound_vals(s.envs@[i as int].vars@).contains(work@[k]));
                    }
                }
                assert forall|k: int| ec.len() <= k < env_work@.len() implies slab_env(*s, #[trigger] env_work@[k]) by {
                    if k < ei.len() {
                        assert(env_work@[k] == ei[k]);
                    } else {
                        assert(s.envs@[i as int].parent == Some(env_work@[k]));
                    }
                }
            }
            i = i + 1;
        }
        proof {
            assert(work@.take(wc.len() as int) == wc);
            assert(wc.take(wm.len() as int) == wm);
            assert(wm.take(wv.len() as int) == wv);
            assert(wv.take(wp.len() as int) == wp);
            assert(wp.take(w0.len() as int) == w0);
            assert(work@.take(wm.len() as int) =~= wm);
            assert(work@.take(wv.len() as int) =~= wv);
            assert(work@.take(wp.len() as int) =~= wp);
            assert(work@.take(w0.len() as int) =~= w0);
            assert(env_work@.take(ec.len() as int) == ec);
            assert(ec.take(e0.len() as int) == e0);
            assert(env_work@.take(e0.len() as int) =~= e0);
            assert forall|x: Item| is_local_root(self, x) implies pending(x, work@, env_work@) by {
                match x {
                    Item::Val(v) => {
                        if exists|i: int| 0 <= i < s.pairs@.len() && (#[trigger] s.pairs@[i].0 == v || s.pairs@[i].1 == v) {
                            let i = choose|i: int| 0 <= i < s.pairs@.len() && (#[trigger] s.pairs@[i].0 == v || s.pairs@[i].1 == v);
                            assert(wp.contains(s.pairs@[i].0) && wp.contains(s.pairs@[i].1));
                            lemma_prefix_contains(wp, work@, v);
                        } else if exists|i: int| 0 <= i < s.vectors@.len() && #[trigger] s.vectors@[i]@.contains(v) {
                            let i = choose|i: int| 0 <= i < s.vectors@.len() && #[trigger] s.vectors@[i]@.contains(v);
                            assert(wv.contains(v));
                            lemma_prefix_contains(wv, work@, v);
                        } else if exists|i: int| 0 <= i < s.maps@.len() && #[trigger] s.maps@[i]@.contains(v) {
                            let i = choose|i: int| 0 <= i < s.maps@.len() && #[trigger] s.maps@[i]@.contains(v);
                            assert(wm.contains(v));
                            lemma_prefix_contains(wm, work@, v);
                        } else if exists|i: int| 0 <= i < s.closures@.len() && #[trigger] s.closures@[i].refs@.contains(v) {
                            let i = choose|i: int| 0 <= i < s.closures@.len() && #[trigger] s.closures@[i].refs@.contains(v);
                            assert(wc.contains(v));
                            lemma_prefix_contains(wc, work@, v);
                        } else {
                            let i = choose|i: int| 0 <= i < s.envs@.len() && #[trigger] bound_vals(s.envs@[i].vars@).contains(v);
                        }
                    },
                    Item::Env(e) => {
                        if exists|i: int| 0 <= i < s.closures@.len() && #[trigger] s.closures@[i].env == Some(e) {
                            let i = choose|i: int| 0 <= i < s.closures@.len() && #[trigger] s.closures@[i].env == Some(e);
                            assert(ec.contains(e));
                            lemma_prefix_contains(ec, env_work@, e);
                        } else {
                            let i = choose|i: int| 0 <= i < s.envs@.len() && #[trigger] s.envs@[i].parent == Some(e);
                        }
                    },
                }
            }
            assert forall|k: int| w0.len() <= k < work@.len() implies is_local_root(self, Item::Val(#[trigger] work@[k])) by {
                if k < wp.len() {
                    assert(work@[k] == wp[k]);
                } else if k < wv.len() {
                    assert(work@[k] == wv[k]);
                    assert(in_rows(s.vectors@, wv[k]));
                } else if k < wm.len() {
                    assert(work@[k] == wm[k]);
                    assert(in_rows(s.maps@, wm[k]));
                } else if k < wc.len() {
                    assert(work@[k] == wc[k]);
                }
            }
            assert forall|k: int| e0.len() <= k < env_work@.len() implies is_local_root(self, Item::Env(#[trigger] env_work@[k])) by {
                if k < ec.len() {
                    assert(env_work@[k] == ec[k]);
                }
            }
        }
    }
}

/// Seeds pushed on top of a walk's state keep it, with the pushed seeds counted
/// as started.
proof fn lemma_push_seeds(
    rt: &RuntimeCode,
    gen: nat,
    seeds: Set<Item>,
    started: Set<Item>,
    w0: Seq<Value>,
    e0: Seq<EnvId>,
    v: Set<u64>,
    ve: Set<u64>,
    exp: Set<Item>,
    w1: Seq<Value>,
    e1: Seq<EnvId>,
    more: Set<Item>,
)
    requires
        walk_inv(rt, gen, seeds, started, w0, e0, v, ve, exp),
        w0.len() <= w1.len(),
        w1.take(w0.len() as int) == w0,
        e0.len() <= e1.len(),
        e1.take(e0.len() as int) == e0,
        forall|i: int| w0.len() <= i < w1.len() ==> seeds.contains(Item::Val(#[trigger] w1[i])),
        forall|i: int| e0.len() <= i < e1.len() ==> seeds.contains(Item::Env(#[trigger] e1[i])),
        forall|x: Item| #[trigger] more.contains(x) ==> seeds.contains(x) && pending(x, w1, e1),
    ensures
        walk_inv(rt, gen, seeds, started.union(more), w1, e1, v, ve, exp),
{
    assert forall|i: int| 0 <= i < w1.len() implies reachable(rt, seeds, Item::Val(#[trigger] w1[i])) by {
        if i < w0.len() {
            assert(w1.take(w0.len() as int)[i] == w1[i]);
        } else {
            lemma_seed_reachable(rt, seeds, Item::Val(w1[i]));
        }
    }
    assert forall|i: int| 0 <= i < e1.len() implies reachable(rt, seeds, Item::Env(#[trigger] e1[i])) by {
        if i < e0.len() {
            assert(e1.take(e0.len() as int)[i] == e1[i]);
        } else {
            lemma_seed_reachable(rt, seeds, Item::Env(e1[i]));
        }
    }
    assert forall|c: Item| pending(c, w0, e0) implies pending(c, w1, e1) by {
        lemma_prefix_pending(c, w0, e0, w1, e1);
    }
}

/// The walk's starting state: the seeds pushed so far are pending and nothing
/// is marked.
proof fn lemma_walk_start(
    rt: &RuntimeCode,
    gen: nat,
    seeds: Set<Item>,
    started: Set<Item>,
    w: Seq<Value>,
    e: Seq<EnvId>,
)
    requires
        forall|i: int| 0 <= i < w.len() ==> seeds.contains(Item::Val(#[trigger] w[i])),
        forall|i: int| 0 <= i < e.len() ==> seeds.contains(Item::Env(#[trigger] e[i])),
        forall|x: Item| #[trigger] started.contains(x) ==> seeds.contains(x) && pending(x, w, e),
    ensures
        walk_inv(rt, gen, seeds, started, w, e, Set::empty(), Set::empty(), Set::empty()),
{
    assert forall|i: int| 0 <= i < w.len() implies reachable(rt, seeds, Item::Val(#[trigger] w[i])) by {
        lemma_seed_reachable(rt, seeds, Item::Val(w[i]));
    }
    assert forall|i: int| 0 <= i < e.len() implies reachable(rt, seeds, Item::Env(#[trigger] e[i])) by {
        lemma_seed_reachable(rt, seeds, Item::Env(e[i]));
    }
}

impl Heap {
    /// Walk the cheap roots; `true` as soon as generation `gen` is reached.
    fn probe_cheap_phase(
        &self,
        gen: usize,
        shared: bool,
        work: &mut Vec<Value>,
        env_work: &mut Vec<EnvId>,
        visited: &mut HashSet<u64>,
        visited_env: &mut HashSet<u64>,
    ) -> (r: (bool, Ghost<Set<Item>>))
        requires
            gen < 2,
            resolves_from(&self.runtime, probe_roots(self, shared), gen as nat),
            old(work)@.len() == 0,
            old(env_work)@.len() == 0,
            old(visited)@ == Set::<u64>::empty(),
            old(visited_env)@ == Set::<u64>::empty(),
        ensures
            r.0 ==> gen_reachable(&self.runtime, probe_roots(self, shared), gen as nat),
            !r.0 ==> walk_inv(
                &self.runtime,
                gen as nat,
                probe_roots(self, shared),
                cheap_roots(self, shared),
                final(work)@,
                final(env_work)@,
                final(visited)@,
                final(visited_env)@,
                r.1@,
            ) && final(work)@.len() == 0 && final(env_work)@.len() == 0,
    {
        let ghost seeds = probe_roots(self, shared);
        self.seed_cheap_roots(shared, work, env_work);
        proof {
            assert forall|x: Item| #[trigger] cheap_roots(self, shared).contains(x) implies seeds.contains(x)
                && pending(x, work@, env_work@) by {
            }
            assert forall|i: int| 0 <= i < work@.len() implies seeds.contains(Item::Val(#[trigger] work@[i])) by {
                assert(is_cheap_root(self, shared, Item::Val(work@[i])));
            }
            assert forall|i: int| 0 <= i < env_work@.len() implies seeds.contains(Item::Env(#[trigger] env_work@[i])) by {
                assert(is_cheap_root(self, shared, Item::Env(env_work@[i])));
            }
            lemma_walk_start(&self.runtime, gen as nat, seeds, cheap_roots(self, shared), work@, env_work@);
        }
        self.runtime.walk_reaches_gen(
            gen,
            work,
            env_work,
            visited,
            visited_env,
            Ghost(seeds),
            Ghost(cheap_roots(self, shared)),
            Ghost(Set::empty()),
        )
    }

    /// Walk the process's LOCAL data on top of a clean cheap-root walk.
    fn probe_local_phase(
        &self,
        gen: usize,
        shared: bool,
        work: &mut Vec<Value>,
        env_work: &mut Vec<EnvId>,
        visited: &mut HashSet<u64>,
        visited_env: &mut HashSet<u64>,
        Ghost(exp): Ghost<Set<Item>>,
    ) -> (r: bool)
        requires
            gen < 2,
            resolves_from(&self.runtime, probe_roots(self, shared), gen as nat),
            walk_inv(
                &self.runtime,
                gen as nat,
                probe_roots(self, shared),
                cheap_roots(self, shared),
                old(work)@,
                old(env_work)@,
                old(visited)@,
                old(visited_env)@,
                exp,
            ),
        ensures
            r ==> gen_reachable(&self.runtime, probe_roots(self, shared), gen as nat),
            !r && keys_distinct(&self.runtime, probe_roots(self, shared)) ==> !gen_reachable(
                &self.runtime,
                probe_roots(self, shared),
                gen as nat,
            ),
            !r ==> forall|s: Item| #[trigger] probe_roots(self, shared).contains(s) ==> !hits(s, gen as nat),
    {
        let ghost seeds = probe_roots(self, shared);
        let ghost w0 = work@;
        let ghost e0 = env_work@;
        self.seed_local_roots(work, env_work);
        let ghost local = Set::new(|x: Item| is_local_root(self, x));
        proof {
            assert forall|i: int| w0.len() <= i < work@.len() implies seeds.contains(Item::Val(#[trigger] work@[i])) by {
                assert(is_local_root(self, Item::Val(work@[i])));
            }
            assert forall|i: int| e0.len() <= i < env_work@.len() implies seeds.contains(Item::Env(#[trigger] env_work@[i])) by {
                assert(is_local_root(self, Item::Env(env_work@[i])));
            }
            lemma_push_seeds(
                &self.runtime,
                gen as nat,
                seeds,
                cheap_roots(self, shared),
                w0,
                e0,
                visited@,
                visited_env@,
                exp,
                work@,
                env_work@,
                local,
            );
            assert(cheap_roots(self, shared).union(local) =~= seeds);
        }
        let (found, Ghost(exp2)) = self.runtime.walk_reaches_gen(
            gen,
            work,
            env_work,
            visited,
            visited_env,
            Ghost(seeds),
            Ghost(seeds),
            Ghost(exp),
        );
        proof {
            if !found {
                assert forall|s: Item| #[trigger] seeds.contains(s) implies !hits(s, gen as nat) by {
                    match s {
                        Item::Val(v) => assert(!work@.contains(v)),
                        Item::Env(e) => assert(!env_work@.contains(e)),
                    }
                }
            }
            if !found && keys_distinct(&self.runtime, seeds) {
                assert(work@ =~= Seq::<Value>::empty());
                assert(env_work@ =~= Seq::<EnvId>::empty());
                lemma_walk_complete(&self.runtime, gen as nat, seeds, visited@, visited_env@, exp2);
            }
        }
        found
    }

    /// The authoritative reachability probe: does anything this process can reach
    /// (the shared roots too when `shared`) still point into generation `gen`?
    /// An empty generation is dead without a walk.
    pub fn runtime_gen_referenced_impl(&self, gen: usize, shared: bool) -> (r: bool)
        requires
            gen < 2,
            resolves_from(&self.runtime, probe_roots(self, shared), gen as nat),
        ensures
            self.runtime.spec_gen(gen as int).spec_is_empty() ==> !r,
            r ==> gen_reachable(&self.runtime, probe_roots(self, shared), gen as nat),
            !r && !self.runtime.spec_gen(gen as int).spec_is_empty() && keys_distinct(
                &self.runtime,
                probe_roots(self, shared),
            ) ==> !gen_reachable(&self.runtime, probe_roots(self, shared), gen as nat),
            !self.runtime.spec_gen(gen as int).spec_is_empty() && (exists|x: Item| #[trigger] probe_roots(self, shared).contains(x)
                && hits(x, gen as nat)) ==> r,
    {
        if self.runtime.gen_slabs(gen).is_empty() {
            return false;
        }
        let mut visited: HashSet<u64> = HashSet::new();
        let mut visited_env: HashSet<u64> = HashSet::new();
        let mut work: Vec<Value> = Vec::new();
        let mut env_work: Vec<EnvId> = Vec::new();
        let (found, Ghost(exp)) = self.probe_cheap_phase(
            gen,
            shared,
            &mut work,
            &mut env_work,
            &mut visited,
            &mut visited_env,
        );
        if found {
            return true;
        }
        self.probe_local_phase(
            gen,
            shared,
            &mut work,
            &mut env_work,
            &mut visited,
            &mut visited_env,
            Ghost(exp),
        )
    }

    /// Is generation `gen` still referenced by anything this process, or the
    /// shared globals and declared signatures, can reach?
    pub fn runtime_gen_referenced(&self, gen: usize) -> (r: bool)
        requires
            gen < 2,
            resolves_from(&self.runtime, probe_roots(self, true), gen as nat),
        ensures
            self.runtime.spec_gen(gen as int).spec_is_empty() ==> !r,
            r ==> gen_reachable(&self.runtime, probe_roots(self, true), gen as nat),
            !r && !self.runtime.spec_gen(gen as int).spec_is_empty() && keys_distinct(
                &self.runtime,
                probe_roots(self, true),
            ) ==> !gen_reachable(&self.runtime, probe_roots(self, true), gen as nat),
            !self.runtime.spec_gen(gen as int).spec_is_empty() && (exists|x: Item| #[trigger] probe_roots(self, true).contains(x)
                && hits(x, gen as nat)) ==> r,
    {
        self.runtime_gen_referenced_impl(gen, true)
    }
}

/// The number of cheap-root seeds the private probe would push, saturated.
pub open spec fn cheap_seed_count(h: &Heap) -> nat {
    let n = h.roots@.len() + h.env_roots@.len() + h.dynamics@.len() + h.live_vm_arms@.len();
    if n > usize::MAX {
        usize::MAX as nat
    } else {
        n
    }
}

/// A drain is armed and this process has not yet acked its epoch.
pub open spec fn pending_report(h: &Heap) -> bool {
    h.runtime.drain_active && h.acked_drain_epoch != h.runtime.drain_epoch
}

/// `h1` is `h0` after acking the armed drain's epoch under `pid` (the ack is
/// recorded, counted once per process, and remembered), with the probe
/// throttle left at `t`.
pub open spec fn acked_from(h0: &Heap, h1: &Heap, pid: u64, t: (u64, u64, u64, u64)) -> bool {
    &&& h1.runtime.drain_acks@ == h0.runtime.drain_acks@.insert(pid, h0.runtime.drain_epoch)
    &&& *h1 == (Heap {
        p1_dirty_epoch: t.0,
        p1_dirty_tick: t.1,
        p2_dirty_epoch: t.2,
        p2_dirty_tick: t.3,
        acked_drain_epoch: h0.runtime.drain_epoch,
        runtime: RuntimeCode {
            drain_acks: h1.runtime.drain_acks,
            drain_acked: if h0.runtime.drain_acks@.contains_key(pid) {
                h0.runtime.drain_acked
            } else {
                (h0.runtime.drain_acked + 1) as u64
            },
            ..h0.runtime
        },
        ..*h0
    })
}

/// `h1` is `h0` after a dirty report under `pid`: any ack `pid` held is
/// withdrawn (and uncounted), nothing is remembered as acked, and the probe
/// throttle is left at `t`.
pub open spec fn withdrawn_from(h0: &Heap, h1: &Heap, pid: u64, t: (u64, u64, u64, u64)) -> bool {
    &&& h1.runtime.drain_acks@ == h0.runtime.drain_acks@.remove(pid)
    &&& *h1 == (Heap {
        p1_dirty_epoch: t.0,
        p1_dirty_tick: t.1,
        p2_dirty_epoch: t.2,
        p2_dirty_tick: t.3,
        runtime: RuntimeCode {
            drain_acks: h1.runtime.drain_acks,
            drain_acked: if h0.runtime.drain_acks@.contains_key(pid) {
                (h0.runtime.drain_acked - 1) as u64
            } else {
                h0.runtime.drain_acked
            },
            ..h0.runtime
        },
        ..*h0
    })
}

/// Removing a present key shrinks a finite map by one.
proof fn lemma_map_remove_len(m: Map<u64, u64>, k: u64)
    requires
        m.dom().finite(),
        m.contains_key(k),
    ensures
        m.remove(k).len() == m.len() - 1,
{
}

/// The probe throttle of `h`.
pub open spec fn throttle_of(h: &Heap) -> (u64, u64, u64, u64) {
    (h.p1_dirty_epoch, h.p1_dirty_tick, h.p2_dirty_epoch, h.p2_dirty_tick)
}

/// The second-phase tick after this safepoint's advance.
pub open spec fn p2_tick_next(h: &Heap) -> u64 {
    if h.p2_dirty_epoch == h.runtime.drain_epoch {
        h.p2_dirty_tick.wrapping_add(1)
    } else {
        h.p2_dirty_tick
    }
}

/// A cached second-phase dirty verdict skips this safepoint's walks.
pub open spec fn p2_skips(h: &Heap) -> bool {
    h.p2_dirty_epoch == h.runtime.drain_epoch && p2_tick_next(h) % P2_REVALIDATE_STRIDE != 0
}

/// The cheap-root seed is large enough to throttle.
pub open spec fn p1_large(h: &Heap) -> bool {
    cheap_seed_count(h) > P1_LARGE_SEED
}

/// The first-phase tick after this safepoint's advance.
pub open spec fn p1_tick_next(h: &Heap) -> u64 {
    if p1_large(h) && h.p1_dirty_epoch == h.runtime.drain_epoch {
        h.p1_dirty_tick.wrapping_add(1)
    } else {
        h.p1_dirty_tick
    }
}

/// A cached first-phase dirty verdict skips this safepoint's walks.
pub open spec fn p1_skips(h: &Heap) -> bool {
    p1_large(h) && h.p1_dirty_epoch == h.runtime.drain_epoch && p1_tick_next(h) % P1_REVALIDATE_STRIDE != 0
}

/// The throttle fields `(p1 epoch, p1 tick, p2 epoch, p2 tick)` after a walked
/// private probe, given whether the cheap roots reached the generation and the
/// verdict.
pub open spec fn throttle_after_walk(h: &Heap, cheap_dirty: bool, dirty: bool) -> (u64, u64, u64, u64) {
    let e = h.runtime.drain_epoch;
    if cheap_dirty {
        if p1_large(h) && h.p1_dirty_epoch != e {
            (e, 0, h.p2_dirty_epoch, p2_tick_next(h))
        } else {
            (h.p1_dirty_epoch, p1_tick_next(h), h.p2_dirty_epoch, p2_tick_next(h))
        }
    } else if dirty {
        if h.p2_dirty_epoch != e {
            (u64::MAX, p1_tick_next(h), e, 0)
        } else {
            (u64::MAX, p1_tick_next(h), h.p2_dirty_epoch, p2_tick_next(h))
        }
    } else {
        (u64::MAX, p1_tick_next(h), u64::MAX, p2_tick_next(h))
    }
}

impl Heap {
    /// The private reachability probe of the drain self-report: like
    /// [`Heap::runtime_gen_referenced`] but without the shared roots, and throttled
    /// once it has found this process dirty in the current drain epoch — a cached
    /// dirty verdict is re-validated only once per stride of safepoints. A stale
    /// dirty verdict only delays the drain; it never fabricates a clean one.
    pub fn runtime_gen_referenced_private(&mut self, gen: usize) -> (r: bool)
        requires
            gen < 2,
            resolves_from(&old(self).runtime, probe_roots(&*old(self), false), gen as nat),
        ensures
            *final(self) == (Heap {
                p1_dirty_epoch: final(self).p1_dirty_epoch,
                p1_dirty_tick: final(self).p1_dirty_tick,
                p2_dirty_epoch: final(self).p2_dirty_epoch,
                p2_dirty_tick: final(self).p2_dirty_tick,
                ..*old(self)
            }),
            old(self).runtime.spec_gen(gen as int).spec_is_empty() ==> !r && *final(self) == *old(self),
            !old(self).runtime.spec_gen(gen as int).spec_is_empty() && p2_skips(&*old(self)) ==> r
                && *final(self) == (Heap { p2_dirty_tick: p2_tick_next(&*old(self)), ..*old(self) }),
            !old(self).runtime.spec_gen(gen as int).spec_is_empty() && !p2_skips(&*old(self)) && p1_skips(&*old(self))
                ==> r && *final(self) == (Heap {
                p2_dirty_tick: p2_tick_next(&*old(self)),
                p1_dirty_tick: p1_tick_next(&*old(self)),
                ..*old(self)
            }),
            !old(self).runtime.spec_gen(gen as int).spec_is_empty() && !p2_skips(&*old(self)) && !p1_skips(&*old(self))
                ==> {
                &&& r ==> gen_reachable(&old(self).runtime, probe_roots(&*old(self), false), gen as nat)
                &&& !r && keys_distinct(&old(self).runtime, probe_roots(&*old(self), false)) ==> !gen_reachable(
                    &old(self).runtime,
                    probe_roots(&*old(self), false),
                    gen as nat,
                )
                &&& exists|cheap_dirty: bool|
                    (cheap_dirty ==> r) && (final(self).p1_dirty_epoch, final(self).p1_dirty_tick, final(self).p2_dirty_epoch, final(self).p2_dirty_tick)
                        == throttle_after_walk(&*old(self), cheap_dirty, r)
            },
    {
        if self.runtime.gen_slabs(gen).is_empty() {
            return false;
        }
        let epoch = self.runtime.drain_epoch;
        if self.p2_dirty_epoch == epoch {
            let t = self.p2_dirty_tick.wrapping_add(1);
            self.p2_dirty_tick = t;
            if t % P2_REVALIDATE_STRIDE != 0 {
                return true;
            }
        }
        let p1_seed = self.roots.len().saturating_add(self.env_roots.len()).saturating_add(
            self.dynamics.len(),
        ).saturating_add(self.live_vm_arms.len());
        let large = p1_seed > P1_LARGE_SEED;
        proof {
            assert(large == p1_large(&*old(self)));
        }
        if large && self.p1_dirty_epoch == epoch {
            let t = self.p1_dirty_tick.wrapping_add(1);
            self.p1_dirty_tick = t;
            if t % P1_REVALIDATE_STRIDE != 0 {
                return true;
            }
        }
        let ghost mid = *self;
        proof {
            assert(probe_roots(&mid, false) =~= probe_roots(&*old(self), false));
            assert(cheap_roots(&mid, false) =~= cheap_roots(&*old(self), false));
        }
        let mut visited: HashSet<u64> = HashSet::new();
        let mut visited_env: HashSet<u64> = HashSet::new();
        let mut work: Vec<Value> = Vec::new();
        let mut env_work: Vec<EnvId> = Vec::new();
        let (found, Ghost(exp)) = self.probe_cheap_phase(
            gen,
            false,
            &mut work,
            &mut env_work,
            &mut visited,
            &mut visited_env,
        );
        if found {
            if large && self.p1_dirty_epoch != epoch {
                self.p1_dirty_epoch = epoch;
                self.p1_dirty_tick = 0;
            }
            proof {
                assert((self.p1_dirty_epoch, self.p1_dirty_tick, self.p2_dirty_epoch, self.p2_dirty_tick)
                    == throttle_after_walk(&*old(self), true, true));
            }
            return true;
        }
        self.p1_dirty_epoch = u64::MAX;
        let ghost mid2 = *self;
        proof {
            assert(probe_roots(&mid2, false) =~= probe_roots(&*old(self), false));
            assert(cheap_roots(&mid2, false) =~= cheap_roots(&*old(self), false));
        }
        let dirty = self.probe_local_phase(
            gen,
            false,
            &mut work,
            &mut env_work,
            &mut visited,
            &mut visited_env,
            Ghost(exp),
        );
        if dirty {
            if self.p2_dirty_epoch != epoch {
                self.p2_dirty_epoch = epoch;
                self.p2_dirty_tick = 0;
            }
        } else {
            self.p2_dirty_epoch = u64::MAX;
        }
        proof {
            assert((self.p1_dirty_epoch, self.p1_dirty_tick, self.p2_dirty_epoch, self.p2_dirty_tick)
                == throttle_after_walk(&*old(self), false, dirty));
        }
        dirty
    }

    /// The drain self-report: when a drain is armed and this process has not yet
    /// acked its epoch, probe privately. A clean process acks the epoch under `pid`
    /// (counted once) and remembers the ack. A dirty one withdraws any ack `pid`
    /// holds, so a stale clean ack (one made before a rearm) can no longer let the
    /// generation be judged drained while this process pins it.
    pub fn report_gen_liveness(&mut self, pid: u64)
        requires
            old(self).wf(),
            old(self).runtime.drain_acks@.len() < u64::MAX,
            resolves_from(&old(self).runtime, probe_roots(&*old(self), false), old(self).runtime.drain_gen as nat),
        ensures
            final(self).wf(),
            !pending_report(&*old(self)) ==> *final(self) == *old(self),
            *final(self) == (Heap {
                p1_dirty_epoch: final(self).p1_dirty_epoch,
                p1_dirty_tick: final(self).p1_dirty_tick,
                p2_dirty_epoch: final(self).p2_dirty_epoch,
                p2_dirty_tick: final(self).p2_dirty_tick,
                acked_drain_epoch: final(self).acked_drain_epoch,
                runtime: final(self).runtime,
                ..*old(self)
            }),
            pending_report(&*old(self)) ==> acked_from(&*old(self), &*final(self), pid, throttle_of(&*final(self)))
                || withdrawn_from(&*old(self), &*final(self), pid, throttle_of(&*final(self))),
            pending_report(&*old(self)) && acked_from(&*old(self), &*final(self), pid, throttle_of(&*final(self)))
                ==> (old(self).runtime.spec_gen(old(self).runtime.drain_gen as int).spec_is_empty() || (keys_distinct(
                    &old(self).runtime,
                    probe_roots(&*old(self), false),
                ) ==> !gen_reachable(&old(self).runtime, probe_roots(&*old(self), false), old(self).runtime.drain_gen as nat))),
            pending_report(&*old(self)) && old(self).runtime.spec_gen(old(self).runtime.drain_gen as int).spec_is_empty()
                ==> acked_from(&*old(self), &*final(self), pid, throttle_of(&*old(self))),
            pending_report(&*old(self)) && !old(self).runtime.spec_gen(old(self).runtime.drain_gen as int).spec_is_empty()
                && p2_skips(&*old(self)) ==> withdrawn_from(&*old(self), &*final(self), pid, (
                old(self).p1_dirty_epoch, old(self).p1_dirty_tick, old(self).p2_dirty_epoch, p2_tick_next(&*old(self)))),
            pending_report(&*old(self)) && !old(self).runtime.spec_gen(old(self).runtime.drain_gen as int).spec_is_empty()
                && !p2_skips(&*old(self)) && p1_skips(&*old(self)) ==> withdrawn_from(&*old(self), &*final(self), pid, (
                old(self).p1_dirty_epoch, p1_tick_next(&*old(self)), old(self).p2_dirty_epoch, p2_tick_next(&*old(self)))),
            pending_report(&*old(self)) && !old(self).runtime.spec_gen(old(self).runtime.drain_gen as int).spec_is_empty()
                && !p2_skips(&*old(self)) && !p1_skips(&*old(self))
                && !gen_reachable(&old(self).runtime, probe_roots(&*old(self), false), old(self).runtime.drain_gen as nat)
                ==> acked_from(&*old(self), &*final(self), pid, throttle_after_walk(&*old(self), false, false)),
            pending_report(&*old(self)) && !old(self).runtime.spec_gen(old(self).runtime.drain_gen as int).spec_is_empty()
                && !p2_skips(&*old(self)) && !p1_skips(&*old(self))
                && keys_distinct(&old(self).runtime, probe_roots(&*old(self), false))
                && gen_reachable(&old(self).runtime, probe_roots(&*old(self), false), old(self).runtime.drain_gen as nat)
                ==> withdrawn_from(&*old(self), &*final(self), pid, throttle_of(&*final(self))),
    {
        if !self.runtime.drain_active {
            return;
        }
        let epoch = self.runtime.drain_epoch;
        if self.acked_drain_epoch == epoch {
            return;
        }
        let gen = self.runtime.drain_gen;
        let clean = !self.runtime_gen_referenced_private(gen);
        if clean {
            let prev = self.runtime.drain_acks.insert(pid, epoch);
            let counted = match prev {
                Some(e) => e == epoch,
                None => false,
            };
            if !counted {
                proof {
                    assert(!old(self).runtime.drain_acks@.contains_key(pid)) by {
                        if old(self).runtime.drain_acks@.contains_key(pid) {
                            assert(old(self).runtime.drain_acks@[pid] == epoch);
                        }
                    }
                }
                self.runtime.drain_acked = self.runtime.drain_acked + 1;
            } else {
                proof {
                    assert(self.runtime.drain_acks@ =~= old(self).runtime.drain_acks@);
                }
            }
            self.acked_drain_epoch = epoch;
        } else {
            let gone = self.runtime.drain_acks.remove(&pid);
            if gone.is_some() {
                proof {
                    lemma_map_remove_len(old(self).runtime.drain_acks@, pid);
                }
                self.runtime.drain_acked = self.runtime.drain_acked - 1;
            } else {
                proof {
                    assert(self.runtime.drain_acks@ =~= old(self).runtime.drain_acks@);
                }
            }
        }
    }
}

} // verus!
