//! Copying a value's sub-graph out of one slab set into another: the engine the
//! RUNTIME compactor and the cross-generation migration share. A forwarding
//! table per slab remembers where each source object went, so shared structure
//! is copied once and cycles (through closures and frames) close on themselves.
//! Each object is reserved in the destination before its contents are copied.

use vstd::prelude::*;
use crate::value::{Value, Handle, EnvId, spec_runtime_gen};
use crate::runtime_code::{CodeSlabs, CodeClosure, CodeEnv};
use crate::reach::{NodeKind, slab_len};

verus! {

/// Where each source object went: per slab, indexed by source index.
pub struct RuntimeForward {
    /// The region the copied handles come from.
    pub src_region: u8,
    /// The generation copied **from** (when the source is the RUNTIME region).
    pub old_gen: usize,
    /// The generation the copies are minted into.
    pub dest_gen: usize,
    pub pairs: Vec<Option<usize>>,
    pub vectors: Vec<Option<usize>>,
    pub maps: Vec<Option<usize>>,
    pub closures: Vec<Option<usize>>,
    pub envs: Vec<Option<usize>>,
}

/// The forwarding table of one slab.
pub open spec fn table(f: RuntimeForward, k: NodeKind) -> Seq<Option<usize>> {
    match k {
        NodeKind::Closure => f.closures@,
        NodeKind::Pair => f.pairs@,
        NodeKind::Vector => f.vectors@,
        NodeKind::Mapping => f.maps@,
        NodeKind::Frame => f.envs@,
    }
}

/// Is `h` a handle the copy moves?
pub open spec fn is_src(f: RuntimeForward, h: Handle) -> bool {
    &&& h.spec_region() == f.src_region
    &&& f.src_region == crate::value::RUNTIME ==> h.spec_stamp() == f.old_gen
}

/// Where the object at `h` of slab `k` went, if it has been copied.
pub open spec fn fwd_of(f: RuntimeForward, k: NodeKind, h: Handle) -> Option<usize> {
    if h.spec_index() < table(f, k).len() {
        table(f, k)[h.spec_index() as int]
    } else {
        None
    }
}

/// The destination handle of copy slot `j`.
pub open spec fn dest_handle(f: RuntimeForward, j: usize) -> Handle {
    Handle(spec_runtime_gen(j as nat, f.dest_gen as nat))
}

/// The slab and handle a value addresses, whatever its region.
pub open spec fn val_node(v: Value) -> Option<(NodeKind, Handle)> {
    match v {
        Value::Fn(h) => Some((NodeKind::Closure, h)),
        Value::Macro(h) => Some((NodeKind::Closure, h)),
        Value::Pair(h) => Some((NodeKind::Pair, h)),
        Value::Vector(h) => Some((NodeKind::Vector, h)),
        Value::Mapping(h) => Some((NodeKind::Mapping, h)),
        _ => None,
    }
}

/// `v` with its handle replaced by `h`.
pub open spec fn rehandle(v: Value, h: Handle) -> Value {
    match v {
        Value::Fn(_) => Value::Fn(h),
        Value::Macro(_) => Value::Macro(h),
        Value::Pair(_) => Value::Pair(h),
        Value::Vector(_) => Value::Vector(h),
        Value::Mapping(_) => Value::Mapping(h),
        _ => v,
    }
}

/// A value as the copy rewrites it: a moved handle points at its copy, anything
/// else is unchanged.
pub open spec fn fwd_value(f: RuntimeForward, v: Value) -> Value {
    match val_node(v) {
        Some((k, h)) => if is_src(f, h) && fwd_of(f, k, h) is Some {
            rehandle(v, dest_handle(f, fwd_of(f, k, h)->0))
        } else {
            v
        },
        None => v,
    }
}

/// A frame handle as the copy rewrites it.
pub open spec fn fwd_env(f: RuntimeForward, e: EnvId) -> EnvId {
    if is_src(f, e) && fwd_of(f, NodeKind::Frame, e) is Some {
        dest_handle(f, fwd_of(f, NodeKind::Frame, e)->0)
    } else {
        e
    }
}

/// An optional frame as the copy rewrites it.
pub open spec fn fwd_opt_env(f: RuntimeForward, e: Option<EnvId>) -> Option<EnvId> {
    match e {
        Some(x) => Some(fwd_env(f, x)),
        None => None,
    }
}

/// Has the object `v` addresses, if the copy moves it, been given a copy?
pub open spec fn done(f: RuntimeForward, v: Value) -> bool {
    match val_node(v) {
        Some((k, h)) => is_src(f, h) ==> fwd_of(f, k, h) is Some,
        None => true,
    }
}

/// Has the frame `e`, if the copy moves it, been given a copy?
pub open spec fn env_done(f: RuntimeForward, e: EnvId) -> bool {
    is_src(f, e) ==> fwd_of(f, NodeKind::Frame, e) is Some
}

pub open spec fn opt_env_done(f: RuntimeForward, e: Option<EnvId>) -> bool {
    match e {
        Some(x) => env_done(f, x),
        None => true,
    }
}

pub open spec fn all_done(f: RuntimeForward, s: Seq<Value>) -> bool {
    forall|i: int| 0 <= i < s.len() ==> done(f, #[trigger] s[i])
}

pub open spec fn vars_done(f: RuntimeForward, s: Seq<(u32, Value)>) -> bool {
    forall|i: int| 0 <= i < s.len() ==> done(f, (#[trigger] s[i]).1)
}

pub open spec fn fvals(f: RuntimeForward, s: Seq<Value>) -> Seq<Value> {
    s.map_values(|v: Value| fwd_value(f, v))
}

pub open spec fn fvars(f: RuntimeForward, s: Seq<(u32, Value)>) -> Seq<(u32, Value)> {
    s.map_values(|p: (u32, Value)| (p.0, fwd_value(f, p.1)))
}

/// Does `v`, if the copy moves it, address an object inside the source?
pub open spec fn in_src(src: CodeSlabs, f: RuntimeForward, v: Value) -> bool {
    match val_node(v) {
        Some((k, h)) => is_src(f, h) ==> h.spec_index() < slab_len(src, k),
        None => true,
    }
}

pub open spec fn env_in_src(src: CodeSlabs, f: RuntimeForward, e: EnvId) -> bool {
    is_src(f, e) ==> e.spec_index() < src.envs@.len()
}

pub open spec fn opt_env_in_src(src: CodeSlabs, f: RuntimeForward, e: Option<EnvId>) -> bool {
    match e {
        Some(x) => env_in_src(src, f, x),
        None => true,
    }
}

/// Every moved handle the source holds addresses an object inside it.
pub open spec fn src_closed(src: CodeSlabs, f: RuntimeForward) -> bool {
    &&& forall|i: int|
        0 <= i < src.pairs@.len() ==> in_src(src, f, (#[trigger] src.pairs@[i]).0) && in_src(
            src,
            f,
            src.pairs@[i].1,
        )
    &&& forall|i: int, j: int|
        0 <= i < src.vectors@.len() && 0 <= j < src.vectors@[i]@.len() ==> in_src(
            src,
            f,
            #[trigger] src.vectors@[i]@[j],
        )
    &&& forall|i: int, j: int|
        0 <= i < src.maps@.len() && 0 <= j < src.maps@[i]@.len() ==> in_src(
            src,
            f,
            #[trigger] src.maps@[i]@[j],
        )
    &&& forall|i: int, j: int|
        0 <= i < src.closures@.len() && 0 <= j < src.closures@[i].refs@.len() ==> in_src(
            src,
            f,
            #[trigger] src.closures@[i].refs@[j],
        )
    &&& forall|i: int|
        0 <= i < src.closures@.len() ==> opt_env_in_src(src, f, (#[trigger] src.closures@[i]).env)
    &&& forall|i: int, j: int|
        0 <= i < src.envs@.len() && 0 <= j < src.envs@[i].vars@.len() ==> in_src(
            src,
            f,
            (#[trigger] src.envs@[i].vars@[j]).1,
        )
    &&& forall|i: int| 0 <= i < src.envs@.len() ==> opt_env_in_src(src, f, (#[trigger] src.envs@[i]).parent)
}

/// If the copy moves `v`, the source object it addresses is in `s`.
pub open spec fn val_in(f: RuntimeForward, s: Set<(NodeKind, int)>, v: Value) -> bool {
    match val_node(v) {
        Some((k, h)) => is_src(f, h) ==> s.contains((k, h.spec_index() as int)),
        None => true,
    }
}

/// If the copy moves frame `e`, it is in `s`.
pub open spec fn env_in(f: RuntimeForward, s: Set<(NodeKind, int)>, e: EnvId) -> bool {
    is_src(f, e) ==> s.contains((NodeKind::Frame, e.spec_index() as int))
}

pub open spec fn opt_env_in(f: RuntimeForward, s: Set<(NodeKind, int)>, e: Option<EnvId>) -> bool {
    match e {
        Some(x) => env_in(f, s, x),
        None => true,
    }
}

/// `s`, a set of source objects, holds every moved object that one of its
/// members holds.
pub open spec fn closed_set(src: CodeSlabs, f: RuntimeForward, s: Set<(NodeKind, int)>) -> bool {
    &&& forall|i: int|
        #[trigger] s.contains((NodeKind::Pair, i)) && 0 <= i < src.pairs@.len() ==> val_in(f, s, src.pairs@[i].0)
            && val_in(f, s, src.pairs@[i].1)
    &&& forall|i: int, j: int|
        s.contains((NodeKind::Vector, i)) && 0 <= i < src.vectors@.len() && 0 <= j < src.vectors@[i]@.len()
            ==> val_in(f, s, #[trigger] src.vectors@[i]@[j])
    &&& forall|i: int, j: int|
        s.contains((NodeKind::Mapping, i)) && 0 <= i < src.maps@.len() && 0 <= j < src.maps@[i]@.len()
            ==> val_in(f, s, #[trigger] src.maps@[i]@[j])
    &&& forall|i: int, j: int|
        s.contains((NodeKind::Closure, i)) && 0 <= i < src.closures@.len() && 0 <= j < src.closures@[i].refs@.len()
            ==> val_in(f, s, #[trigger] src.closures@[i].refs@[j])
    &&& forall|i: int|
        #[trigger] s.contains((NodeKind::Closure, i)) && 0 <= i < src.closures@.len() ==> opt_env_in(f, s, src.closures@[i].env)
    &&& forall|i: int, j: int|
        s.contains((NodeKind::Frame, i)) && 0 <= i < src.envs@.len() && 0 <= j < src.envs@[i].vars@.len()
            ==> val_in(f, s, (#[trigger] src.envs@[i].vars@[j]).1)
    &&& forall|i: int|
        #[trigger] s.contains((NodeKind::Frame, i)) && 0 <= i < src.envs@.len() ==> opt_env_in(f, s, src.envs@[i].parent)
}

/// Every object `f1` copied that `f0` had not is in `s`.
pub open spec fn copies_within(f0: RuntimeForward, f1: RuntimeForward, s: Set<(NodeKind, int)>) -> bool {
    forall|k: NodeKind, i: int|
        0 <= i < table(f1, k).len() && #[trigger] table(f1, k)[i] is Some && !(table(f0, k)[i] is Some)
            ==> s.contains((k, i))
}

/// Whether a set is closed depends on the copy only through what it moves.
pub proof fn lemma_closed_ext(src: CodeSlabs, f1: RuntimeForward, f2: RuntimeForward, s: Set<(NodeKind, int)>)
    requires
        closed_set(src, f1, s),
        f1.src_region == f2.src_region,
        f1.old_gen == f2.old_gen,
    ensures
        closed_set(src, f2, s),
{
    assert forall|v: Value| val_in(f1, s, v) == val_in(f2, s, v) by {}
    assert forall|e: Option<EnvId>| opt_env_in(f1, s, e) == opt_env_in(f2, s, e) by {}
}

pub proof fn lemma_within_trans(f0: RuntimeForward, f1: RuntimeForward, f2: RuntimeForward, s: Set<(NodeKind, int)>)
    requires
        copies_within(f0, f1, s),
        copies_within(f1, f2, s),
        ext(f1, f2),
    ensures
        copies_within(f0, f2, s),
{
    assert forall|k: NodeKind, i: int|
        0 <= i < table(f2, k).len() && #[trigger] table(f2, k)[i] is Some && !(table(f0, k)[i] is Some)
        implies s.contains((k, i)) by {
        if table(f1, k)[i] is Some {
            assert(table(f1, k).len() == table(f2, k).len());
        }
    }
}

/// Reserving a copy slot for object `i` of slab `k0` copies only that object.
pub proof fn lemma_within_reserve(f0: RuntimeForward, f1: RuntimeForward, k0: NodeKind, i: int, s: Set<(NodeKind, int)>)
    requires
        reserved(f0, f1, k0, i),
        s.contains((k0, i)),
    ensures
        copies_within(f0, f1, s),
{
    assert forall|k: NodeKind, x: int|
        0 <= x < table(f1, k).len() && #[trigger] table(f1, k)[x] is Some && !(table(f0, k)[x] is Some)
        implies s.contains((k, x)) by {
        if !(k == k0 && x == i) {
            assert(table(f1, k)[x] == table(f0, k)[x]);
        }
    }
}

/// The copy of object `i` of slab `k` is the source object with every handle
/// it holds rewritten, and each of those handles has been given its copy.
pub open spec fn copied(src: CodeSlabs, dst: CodeSlabs, f: RuntimeForward, k: NodeKind, i: int) -> bool {
    let j = table(f, k)[i]->0 as int;
    match k {
        NodeKind::Pair => {
            &&& done(f, src.pairs@[i].0)
            &&& done(f, src.pairs@[i].1)
            &&& dst.pairs@[j] == (fwd_value(f, src.pairs@[i].0), fwd_value(f, src.pairs@[i].1))
        },
        NodeKind::Vector => {
            &&& all_done(f, src.vectors@[i]@)
            &&& dst.vectors@[j]@ == fvals(f, src.vectors@[i]@)
        },
        NodeKind::Mapping => {
            &&& all_done(f, src.maps@[i]@)
            &&& dst.maps@[j]@ == fvals(f, src.maps@[i]@)
        },
        NodeKind::Closure => {
            &&& all_done(f, src.closures@[i].refs@)
            &&& dst.closures@[j].refs@ == fvals(f, src.closures@[i].refs@)
            &&& opt_env_done(f, src.closures@[i].env)
            &&& dst.closures@[j].env == fwd_opt_env(f, src.closures@[i].env)
        },
        NodeKind::Frame => {
            &&& vars_done(f, src.envs@[i].vars@)
            &&& dst.envs@[j].vars@ == fvars(f, src.envs@[i].vars@)
            &&& opt_env_done(f, src.envs@[i].parent)
            &&& dst.envs@[j].parent == fwd_opt_env(f, src.envs@[i].parent)
        },
    }
}

/// The number of objects not yet copied in a table.
pub open spec fn nones(t: Seq<Option<usize>>) -> nat
    decreases t.len(),
{
    if t.len() == 0 {
        0
    } else {
        nones(t.drop_last()) + if t.last() is None {
            1nat
        } else {
            0nat
        }
    }
}

/// The number of source objects not yet copied.
pub open spec fn total_nones(f: RuntimeForward) -> nat {
    nones(f.pairs@) + nones(f.vectors@) + nones(f.maps@) + nones(f.closures@) + nones(f.envs@)
}

/// The forwarding is well formed: a table entry per source object, every copy
/// slot inside the destination and owned by one source object, and room left in
/// the destination for the objects still to copy.
pub open spec fn fwd_wf(src: CodeSlabs, dst: CodeSlabs, f: RuntimeForward) -> bool {
    &&& f.dest_gen < 2
    &&& forall|k: NodeKind| #[trigger] table(f, k).len() == slab_len(src, k)
    &&& forall|k: NodeKind, i: int|
        0 <= i < table(f, k).len() && #[trigger] table(f, k)[i] is Some ==> table(f, k)[i]->0
            < slab_len(dst, k)
    &&& forall|k: NodeKind, i1: int, i2: int|
        0 <= i1 < table(f, k).len() && 0 <= i2 < table(f, k).len() && #[trigger] table(f, k)[i1]
            is Some && #[trigger] table(f, k)[i2] == table(f, k)[i1] ==> i1 == i2
    &&& forall|k: NodeKind| slab_len(dst, k) + nones(#[trigger] table(f, k)) < 0x1_0000_0000
}

/// `f2` keeps every copy `f1` made.
pub open spec fn ext(f1: RuntimeForward, f2: RuntimeForward) -> bool {
    &&& f2.src_region == f1.src_region
    &&& f2.old_gen == f1.old_gen
    &&& f2.dest_gen == f1.dest_gen
    &&& forall|k: NodeKind| #[trigger] table(f2, k).len() == table(f1, k).len()
    &&& forall|k: NodeKind, i: int|
        0 <= i < table(f1, k).len() && #[trigger] table(f1, k)[i] is Some ==> table(f2, k)[i]
            == table(f1, k)[i]
}

/// `d2` keeps every slot `d1` had.
pub open spec fn frame(d1: CodeSlabs, d2: CodeSlabs) -> bool {
    &&& forall|k: NodeKind| slab_len(d1, k) <= #[trigger] slab_len(d2, k)
    &&& forall|i: int| 0 <= i < d1.pairs@.len() ==> #[trigger] d2.pairs@[i] == d1.pairs@[i]
    &&& forall|i: int| 0 <= i < d1.vectors@.len() ==> #[trigger] d2.vectors@[i] == d1.vectors@[i]
    &&& forall|i: int| 0 <= i < d1.maps@.len() ==> #[trigger] d2.maps@[i] == d1.maps@[i]
    &&& forall|i: int| 0 <= i < d1.closures@.len() ==> #[trigger] d2.closures@[i] == d1.closures@[i]
    &&& forall|i: int| 0 <= i < d1.envs@.len() ==> #[trigger] d2.envs@[i] == d1.envs@[i]
}

/// Every object `f2` copies that `f1` had not is copied in full.
pub open spec fn newly_copied(src: CodeSlabs, dst: CodeSlabs, f1: RuntimeForward, f2: RuntimeForward) -> bool {
    forall|k: NodeKind, i: int|
        0 <= i < table(f1, k).len() && table(f1, k)[i] is None && #[trigger] table(f2, k)[i] is Some
            ==> copied(src, dst, f2, k, i)
}

/// A done value is rewritten the same way by every extension of the forwarding.
pub proof fn lemma_fwd_stable(f1: RuntimeForward, f2: RuntimeForward, v: Value)
    requires
        ext(f1, f2),
        done(f1, v),
    ensures
        done(f2, v),
        fwd_value(f2, v) == fwd_value(f1, v),
{
    match val_node(v) {
        Some((k, h)) => {
            if is_src(f1, h) {
                assert(table(f2, k).len() == table(f1, k).len());
                assert(table(f1, k)[h.spec_index() as int] is Some);
            }
        },
        None => {},
    }
}

pub proof fn lemma_env_stable(f1: RuntimeForward, f2: RuntimeForward, e: EnvId)
    requires
        ext(f1, f2),
        env_done(f1, e),
    ensures
        env_done(f2, e),
        fwd_env(f2, e) == fwd_env(f1, e),
{
    if is_src(f1, e) {
        assert(table(f2, NodeKind::Frame).len() == table(f1, NodeKind::Frame).len());
        assert(table(f1, NodeKind::Frame)[e.spec_index() as int] is Some);
    }
}

pub proof fn lemma_vals_stable(f1: RuntimeForward, f2: RuntimeForward, s: Seq<Value>)
    requires
        ext(f1, f2),
        all_done(f1, s),
    ensures
        all_done(f2, s),
        fvals(f2, s) == fvals(f1, s),
{
    assert forall|i: int| 0 <= i < s.len() implies done(f2, #[trigger] s[i]) && fwd_value(f2, s[i]) == fwd_value(f1, s[i]) by {
        lemma_fwd_stable(f1, f2, s[i]);
    }
    assert(fvals(f2, s) =~= fvals(f1, s));
}

pub proof fn lemma_vars_stable(f1: RuntimeForward, f2: RuntimeForward, s: Seq<(u32, Value)>)
    requires
        ext(f1, f2),
        vars_done(f1, s),
    ensures
        vars_done(f2, s),
        fvars(f2, s) == fvars(f1, s),
{
    assert forall|i: int| 0 <= i < s.len() implies done(f2, (#[trigger] s[i]).1) && fwd_value(f2, s[i].1) == fwd_value(f1, s[i].1) by {
        lemma_fwd_stable(f1, f2, s[i].1);
    }
    assert(fvars(f2, s) =~= fvars(f1, s));
}

pub proof fn lemma_opt_env_stable(f1: RuntimeForward, f2: RuntimeForward, e: Option<EnvId>)
    requires
        ext(f1, f2),
        opt_env_done(f1, e),
    ensures
        opt_env_done(f2, e),
        fwd_opt_env(f2, e) == fwd_opt_env(f1, e),
{
    if let Some(x) = e {
        lemma_env_stable(f1, f2, x);
    }
}

/// A finished copy stays finished as the forwarding and the destination grow.
pub proof fn lemma_copied_stable(
    src: CodeSlabs,
    d1: CodeSlabs,
    f1: RuntimeForward,
    d2: CodeSlabs,
    f2: RuntimeForward,
    k: NodeKind,
    i: int,
)
    requires
        fwd_wf(src, d1, f1),
        0 <= i < table(f1, k).len(),
        table(f1, k)[i] is Some,
        copied(src, d1, f1, k, i),
        ext(f1, f2),
        frame(d1, d2),
    ensures
        copied(src, d2, f2, k, i),
{
    let j = table(f1, k)[i]->0 as int;
    assert(table(f2, k)[i] == table(f1, k)[i]);
    assert(j < slab_len(d1, k));
    match k {
        NodeKind::Pair => {
            lemma_fwd_stable(f1, f2, src.pairs@[i].0);
            lemma_fwd_stable(f1, f2, src.pairs@[i].1);
            assert(d2.pairs@[j] == d1.pairs@[j]);
        },
        NodeKind::Vector => {
            lemma_vals_stable(f1, f2, src.vectors@[i]@);
            assert(d2.vectors@[j] == d1.vectors@[j]);
        },
        NodeKind::Mapping => {
            lemma_vals_stable(f1, f2, src.maps@[i]@);
            assert(d2.maps@[j] == d1.maps@[j]);
        },
        NodeKind::Closure => {
            lemma_vals_stable(f1, f2, src.closures@[i].refs@);
            lemma_opt_env_stable(f1, f2, src.closures@[i].env);
            assert(d2.closures@[j] == d1.closures@[j]);
        },
        NodeKind::Frame => {
            lemma_vars_stable(f1, f2, src.envs@[i].vars@);
            lemma_opt_env_stable(f1, f2, src.envs@[i].parent);
            assert(d2.envs@[j] == d1.envs@[j]);
        },
    }
}

/// Copying one more object leaves one fewer to copy.
pub proof fn lemma_nones_update(t: Seq<Option<usize>>, i: int, x: usize)
    requires
        0 <= i < t.len(),
        t[i] is None,
    ensures
        nones(t.update(i, Some(x))) + 1 == nones(t),
    decreases t.len(),
{
    let t2 = t.update(i, Some(x));
    if i == t.len() - 1 {
        assert(t2.drop_last() =~= t.drop_last());
    } else {
        assert(t2.drop_last() =~= t.drop_last().update(i, Some(x)));
        lemma_nones_update(t.drop_last(), i, x);
    }
}

/// `d2` is `d1` with at most slot `j0` of slab `k0` changed.
pub open spec fn agree_except(d1: CodeSlabs, d2: CodeSlabs, k0: NodeKind, j0: int) -> bool {
    &&& forall|k: NodeKind| #[trigger] slab_len(d2, k) == slab_len(d1, k)
    &&& forall|i: int|
        0 <= i < d1.pairs@.len() && !(k0 == NodeKind::Pair && i == j0) ==> #[trigger] d2.pairs@[i]
            == d1.pairs@[i]
    &&& forall|i: int|
        0 <= i < d1.vectors@.len() && !(k0 == NodeKind::Vector && i == j0) ==> #[trigger] d2.vectors@[i]
            == d1.vectors@[i]
    &&& forall|i: int|
        0 <= i < d1.maps@.len() && !(k0 == NodeKind::Mapping && i == j0) ==> #[trigger] d2.maps@[i]
            == d1.maps@[i]
    &&& forall|i: int|
        0 <= i < d1.closures@.len() && !(k0 == NodeKind::Closure && i == j0) ==> #[trigger] d2.closures@[i]
            == d1.closures@[i]
    &&& forall|i: int|
        0 <= i < d1.envs@.len() && !(k0 == NodeKind::Frame && i == j0) ==> #[trigger] d2.envs@[i]
            == d1.envs@[i]
}

/// Filling one slot keeps every copy that lives elsewhere.
pub proof fn lemma_copied_except(
    src: CodeSlabs,
    d1: CodeSlabs,
    d2: CodeSlabs,
    f: RuntimeForward,
    k: NodeKind,
    i: int,
    k0: NodeKind,
    j0: int,
)
    requires
        fwd_wf(src, d1, f),
        0 <= i < table(f, k).len(),
        table(f, k)[i] is Some,
        copied(src, d1, f, k, i),
        agree_except(d1, d2, k0, j0),
        k == k0 ==> table(f, k)[i]->0 != j0,
    ensures
        copied(src, d2, f, k, i),
{
    let j = table(f, k)[i]->0 as int;
    assert(j < slab_len(d1, k));
    match k {
        NodeKind::Pair => assert(d2.pairs@[j] == d1.pairs@[j]),
        NodeKind::Vector => assert(d2.vectors@[j] == d1.vectors@[j]),
        NodeKind::Mapping => assert(d2.maps@[j] == d1.maps@[j]),
        NodeKind::Closure => assert(d2.closures@[j] == d1.closures@[j]),
        NodeKind::Frame => assert(d2.envs@[j] == d1.envs@[j]),
    }
}

pub proof fn lemma_ext_trans(f1: RuntimeForward, f2: RuntimeForward, f3: RuntimeForward)
    requires
        ext(f1, f2),
        ext(f2, f3),
    ensures
        ext(f1, f3),
{
    assert forall|k: NodeKind, i: int|
        0 <= i < table(f1, k).len() && #[trigger] table(f1, k)[i] is Some implies table(f3, k)[i]
        == table(f1, k)[i] by {
        assert(table(f2, k)[i] == table(f1, k)[i]);
        assert(table(f2, k).len() == table(f1, k).len());
    }
    assert forall|k: NodeKind| #[trigger] table(f3, k).len() == table(f1, k).len() by {
        assert(table(f2, k).len() == table(f1, k).len());
    }
}

pub proof fn lemma_frame_trans(d1: CodeSlabs, d2: CodeSlabs, d3: CodeSlabs)
    requires
        frame(d1, d2),
        frame(d2, d3),
    ensures
        frame(d1, d3),
{
    assert forall|k: NodeKind| slab_len(d1, k) <= #[trigger] slab_len(d3, k) by {
        assert(slab_len(d1, k) <= slab_len(d2, k));
    }
    assert(d1.vectors@.len() <= d2.vectors@.len()) by {
        assert(slab_len(d1, NodeKind::Vector) <= slab_len(d2, NodeKind::Vector));
    }
    assert(d1.pairs@.len() <= d2.pairs@.len()) by {
        assert(slab_len(d1, NodeKind::Pair) <= slab_len(d2, NodeKind::Pair));
    }
    assert(d1.maps@.len() <= d2.maps@.len()) by {
        assert(slab_len(d1, NodeKind::Mapping) <= slab_len(d2, NodeKind::Mapping));
    }
    assert(d1.closures@.len() <= d2.closures@.len()) by {
        assert(slab_len(d1, NodeKind::Closure) <= slab_len(d2, NodeKind::Closure));
    }
    assert(d1.envs@.len() <= d2.envs@.len()) by {
        assert(slab_len(d1, NodeKind::Frame) <= slab_len(d2, NodeKind::Frame));
    }
}

/// Filling a slot at or past `d0`'s end keeps `d0`'s slots.
pub proof fn lemma_frame_except(d0: CodeSlabs, d1: CodeSlabs, d2: CodeSlabs, k0: NodeKind, j0: int)
    requires
        frame(d0, d1),
        agree_except(d1, d2, k0, j0),
        j0 >= slab_len(d0, k0),
    ensures
        frame(d0, d2),
{
    assert forall|k: NodeKind| slab_len(d0, k) <= #[trigger] slab_len(d2, k) by {
        assert(slab_len(d2, k) == slab_len(d1, k));
    }
    assert(slab_len(d2, NodeKind::Pair) == slab_len(d1, NodeKind::Pair));
    assert(slab_len(d2, NodeKind::Vector) == slab_len(d1, NodeKind::Vector));
    assert(slab_len(d2, NodeKind::Mapping) == slab_len(d1, NodeKind::Mapping));
    assert(slab_len(d2, NodeKind::Closure) == slab_len(d1, NodeKind::Closure));
    assert(slab_len(d2, NodeKind::Frame) == slab_len(d1, NodeKind::Frame));
    assert(slab_len(d0, NodeKind::Pair) <= slab_len(d1, NodeKind::Pair));
    assert(slab_len(d0, NodeKind::Vector) <= slab_len(d1, NodeKind::Vector));
    assert(slab_len(d0, NodeKind::Mapping) <= slab_len(d1, NodeKind::Mapping));
    assert(slab_len(d0, NodeKind::Closure) <= slab_len(d1, NodeKind::Closure));
    assert(slab_len(d0, NodeKind::Frame) <= slab_len(d1, NodeKind::Frame));
}

/// Copies made in two stretches are all finished at the end of the second.
pub proof fn lemma_newly_compose(
    src: CodeSlabs,
    f1: RuntimeForward,
    db: CodeSlabs,
    fb: RuntimeForward,
    dc: CodeSlabs,
    fc: RuntimeForward,
)
    requires
        newly_copied(src, db, f1, fb),
        newly_copied(src, dc, fb, fc),
        fwd_wf(src, db, fb),
        ext(f1, fb),
        ext(fb, fc),
        frame(db, dc),
    ensures
        newly_copied(src, dc, f1, fc),
{
    assert forall|k: NodeKind, i: int|
        0 <= i < table(f1, k).len() && table(f1, k)[i] is None && #[trigger] table(fc, k)[i] is Some
        implies copied(src, dc, fc, k, i) by {
        assert(table(fb, k).len() == table(f1, k).len());
        if table(fb, k)[i] is Some {
            lemma_copied_stable(src, db, fb, dc, fc, k, i);
        }
    }
}

/// `f1` is `f0` with object `i` of slab `k0` given a copy slot.
pub open spec fn reserved(f0: RuntimeForward, f1: RuntimeForward, k0: NodeKind, i: int) -> bool {
    &&& f1.src_region == f0.src_region
    &&& f1.old_gen == f0.old_gen
    &&& f1.dest_gen == f0.dest_gen
    &&& forall|k: NodeKind| #[trigger] table(f1, k).len() == table(f0, k).len()
    &&& 0 <= i < table(f0, k0).len()
    &&& table(f0, k0)[i] is None
    &&& table(f1, k0)[i] is Some
    &&& forall|k: NodeKind, x: int|
        0 <= x < table(f0, k).len() && !(k == k0 && x == i) ==> #[trigger] table(f1, k)[x]
            == table(f0, k)[x]
}

/// Reserving a slot for object `i` of slab `k` at the end of the destination
/// keeps the forwarding well formed.
pub proof fn lemma_reserve(
    src: CodeSlabs,
    d0: CodeSlabs,
    f0: RuntimeForward,
    d1: CodeSlabs,
    f1: RuntimeForward,
    k: NodeKind,
    i: int,
)
    requires
        fwd_wf(src, d0, f0),
        0 <= i < table(f0, k).len(),
        table(f0, k)[i] is None,
        table(f1, k) == table(f0, k).update(i, Some(slab_len(d0, k) as usize)),
        forall|k2: NodeKind| k2 != k ==> #[trigger] table(f1, k2) == table(f0, k2),
        f1.src_region == f0.src_region,
        f1.old_gen == f0.old_gen,
        f1.dest_gen == f0.dest_gen,
        slab_len(d1, k) == slab_len(d0, k) + 1,
        forall|k2: NodeKind| k2 != k ==> #[trigger] slab_len(d1, k2) == slab_len(d0, k2),
        frame(d0, d1),
    ensures
        fwd_wf(src, d1, f1),
        ext(f0, f1),
        reserved(f0, f1, k, i),
        total_nones(f1) + 1 == total_nones(f0),
        slab_len(d0, k) + 1 < 0x1_0000_0000,
{
    lemma_nones_update(table(f0, k), i, slab_len(d0, k) as usize);
    assert(slab_len(d0, k) + nones(table(f0, k)) < 0x1_0000_0000);
    assert forall|k2: NodeKind| slab_len(d1, k2) + nones(#[trigger] table(f1, k2)) < 0x1_0000_0000 by {
        assert(slab_len(d0, k2) + nones(table(f0, k2)) < 0x1_0000_0000);
    }
    assert forall|k2: NodeKind, x: int|
        0 <= x < table(f1, k2).len() && #[trigger] table(f1, k2)[x] is Some implies table(f1, k2)[x]->0
        < slab_len(d1, k2) by {
        if !(k2 == k && x == i) {
            assert(table(f1, k2)[x] == table(f0, k2)[x]);
            assert(slab_len(d0, k2) <= slab_len(d1, k2));
        }
    }
    assert forall|k2: NodeKind, x1: int, x2: int|
        0 <= x1 < table(f1, k2).len() && 0 <= x2 < table(f1, k2).len() && #[trigger] table(f1, k2)[x1]
            is Some && #[trigger] table(f1, k2)[x2] == table(f1, k2)[x1] implies x1 == x2 by {
        if k2 == k && (x1 == i || x2 == i) {
            if x1 != i {
                assert(table(f1, k2)[x1] == table(f0, k2)[x1]);
            }
            if x2 != i {
                assert(table(f1, k2)[x2] == table(f0, k2)[x2]);
            }
        } else {
            assert(table(f1, k2)[x1] == table(f0, k2)[x1]);
            assert(table(f1, k2)[x2] == table(f0, k2)[x2]);
        }
    }
    assert forall|k2: NodeKind| #[trigger] table(f1, k2).len() == table(f0, k2).len() by {}
    assert forall|k2: NodeKind, x: int|
        0 <= x < table(f0, k2).len() && #[trigger] table(f0, k2)[x] is Some implies table(f1, k2)[x]
        == table(f0, k2)[x] by {}
    assert(total_nones(f1) + 1 == total_nones(f0)) by {
        match k {
            NodeKind::Pair => {},
            NodeKind::Vector => {},
            NodeKind::Mapping => {},
            NodeKind::Closure => {},
            NodeKind::Frame => {},
        }
        assert(table(f1, NodeKind::Pair) == f1.pairs@);
        assert(table(f1, NodeKind::Vector) == f1.vectors@);
        assert(table(f1, NodeKind::Mapping) == f1.maps@);
        assert(table(f1, NodeKind::Closure) == f1.closures@);
        assert(table(f1, NodeKind::Frame) == f1.envs@);
        assert(table(f0, NodeKind::Pair) == f0.pairs@);
        assert(table(f0, NodeKind::Vector) == f0.vectors@);
        assert(table(f0, NodeKind::Mapping) == f0.maps@);
        assert(table(f0, NodeKind::Closure) == f0.closures@);
        assert(table(f0, NodeKind::Frame) == f0.envs@);
    }
}

/// After its contents are copied and its slot filled, the reserved object is
/// finished too: everything copied since before the reservation is finished.
pub proof fn lemma_after_fill(
    src: CodeSlabs,
    db: CodeSlabs,
    da: CodeSlabs,
    f0: RuntimeForward,
    f1: RuntimeForward,
    f: RuntimeForward,
    k0: NodeKind,
    i: int,
    j: int,
)
    requires
        reserved(f0, f1, k0, i),
        ext(f1, f),
        fwd_wf(src, db, f),
        newly_copied(src, db, f1, f),
        agree_except(db, da, k0, j),
        table(f1, k0)[i] == Some(j as usize),
        copied(src, da, f, k0, i),
    ensures
        newly_copied(src, da, f0, f),
        fwd_wf(src, da, f),
{
    assert(table(f, k0)[i] == Some(j as usize));
    assert forall|k: NodeKind, x: int|
        0 <= x < table(f0, k).len() && table(f0, k)[x] is None && #[trigger] table(f, k)[x] is Some
        implies copied(src, da, f, k, x) by {
        assert(table(f1, k).len() == table(f0, k).len());
        if !(k == k0 && x == i) {
            assert(table(f1, k)[x] == table(f0, k)[x]);
            assert(copied(src, db, f, k, x));
            if k == k0 && table(f, k)[x]->0 == j {
                assert(table(f, k)[x] == table(f, k)[i]);
            }
            lemma_copied_except(src, db, da, f, k, x, k0, j);
        }
    }
    assert forall|k: NodeKind| slab_len(da, k) + nones(#[trigger] table(f, k)) < 0x1_0000_0000 by {
        assert(slab_len(da, k) == slab_len(db, k));
    }
    assert forall|k: NodeKind, x: int|
        0 <= x < table(f, k).len() && #[trigger] table(f, k)[x] is Some implies table(f, k)[x]->0
        < slab_len(da, k) by {
        assert(slab_len(da, k) == slab_len(db, k));
    }
}

/// A source-closed slab set stays so under a forwarding with the same source.
pub proof fn lemma_src_closed_ext(src: CodeSlabs, f1: RuntimeForward, f2: RuntimeForward)
    requires
        src_closed(src, f1),
        f2.src_region == f1.src_region,
        f2.old_gen == f1.old_gen,
    ensures
        src_closed(src, f2),
{
    assert forall|h: Handle| is_src(f2, h) == is_src(f1, h) by {}
}

/// Slot `j` of slab `k` holds the copy of some source object.
pub open spec fn has_image(f: RuntimeForward, k: NodeKind, j: int) -> bool {
    exists|i: int| 0 <= i < table(f, k).len() && #[trigger] table(f, k)[i] == Some(j as usize)
}

/// Every slot added to the destination since `d0` holds the copy of a source
/// object.
pub open spec fn covered(d0: CodeSlabs, d1: CodeSlabs, f: RuntimeForward) -> bool {
    forall|k: NodeKind, j: int| slab_len(d0, k) <= j < slab_len(d1, k) ==> #[trigger] has_image(f, k, j)
}

/// A copy slot keeps its source object as the forwarding grows.
pub proof fn lemma_image_ext(f1: RuntimeForward, f2: RuntimeForward, k: NodeKind, j: int)
    requires
        ext(f1, f2),
        has_image(f1, k, j),
    ensures
        has_image(f2, k, j),
{
    let i = choose|i: int| 0 <= i < table(f1, k).len() && #[trigger] table(f1, k)[i] == Some(j as usize);
    assert(table(f2, k)[i] == table(f1, k)[i]);
}

/// After a reservation at the end of `d0` and a stretch of copying from `d1`,
/// every slot past `d0`'s end is a copy.
pub proof fn lemma_cover_fill(
    d0: CodeSlabs,
    d1: CodeSlabs,
    d3: CodeSlabs,
    d4: CodeSlabs,
    f3: RuntimeForward,
    k0: NodeKind,
    i: int,
)
    requires
        covered(d1, d3, f3),
        slab_len(d1, k0) == slab_len(d0, k0) + 1,
        forall|k: NodeKind| k != k0 ==> #[trigger] slab_len(d1, k) == slab_len(d0, k),
        forall|k: NodeKind| #[trigger] slab_len(d4, k) == slab_len(d3, k),
        0 <= i < table(f3, k0).len(),
        table(f3, k0)[i] == Some(slab_len(d0, k0) as usize),
    ensures
        covered(d0, d4, f3),
{
    assert forall|k: NodeKind, j: int| slab_len(d0, k) <= j < slab_len(d4, k) implies #[trigger] has_image(f3, k, j) by {
        if k == k0 && j == slab_len(d0, k0) {
            assert(table(f3, k0)[i] == Some(j as usize));
        } else {
            assert(slab_len(d1, k) <= j);
        }
    }
}

/// One stretch of copying: the forwarding stays well formed and only grows, the
/// destination keeps its old slots, everything newly copied is finished, and
/// fewer objects are left to copy.
pub open spec fn flushed(src: CodeSlabs, d0: CodeSlabs, f0: RuntimeForward, d1: CodeSlabs, f1: RuntimeForward) -> bool {
    &&& fwd_wf(src, d1, f1)
    &&& covered(d0, d1, f1)
    &&& ext(f0, f1)
    &&& frame(d0, d1)
    &&& newly_copied(src, d1, f0, f1)
    &&& total_nones(f1) <= total_nones(f0)
}

pub proof fn lemma_flushed_refl(src: CodeSlabs, d: CodeSlabs, f: RuntimeForward)
    requires
        fwd_wf(src, d, f),
    ensures
        flushed(src, d, f, d, f),
{
}

pub proof fn lemma_flushed_trans(
    src: CodeSlabs,
    d0: CodeSlabs,
    f0: RuntimeForward,
    d1: CodeSlabs,
    f1: RuntimeForward,
    d2: CodeSlabs,
    f2: RuntimeForward,
)
    requires
        flushed(src, d0, f0, d1, f1),
        flushed(src, d1, f1, d2, f2),
    ensures
        flushed(src, d0, f0, d2, f2),
{
    lemma_newly_compose(src, f0, d1, f1, d2, f2);
    lemma_ext_trans(f0, f1, f2);
    lemma_frame_trans(d0, d1, d2);
    assert forall|k: NodeKind, j: int| slab_len(d0, k) <= j < slab_len(d2, k) implies #[trigger] has_image(f2, k, j) by {
        if j < slab_len(d1, k) {
            lemma_image_ext(f1, f2, k, j);
        }
    }
}

impl RuntimeForward {
    /// A forwarding that copies out of `src` (region `src_region`, generation
    /// `old_gen` when that is the RUNTIME region) into generation `dest_gen`,
    /// nothing copied yet.
    pub fn for_gens(src_region: u8, old_gen: usize, dest_gen: usize, src: &CodeSlabs) -> (r: RuntimeForward)
        requires
            dest_gen < 2,
        ensures
            r.src_region == src_region,
            r.old_gen == old_gen,
            r.dest_gen == dest_gen,
            forall|k: NodeKind| #[trigger] table(r, k).len() == slab_len(*src, k),
            forall|k: NodeKind, i: int| 0 <= i < table(r, k).len() ==> #[trigger] table(r, k)[i] is None,
            forall|k: NodeKind| #[trigger] nones(table(r, k)) == slab_len(*src, k),
    {
        let r = RuntimeForward {
            src_region,
            old_gen,
            dest_gen,
            pairs: nones_vec(src.pairs.len()),
            vectors: nones_vec(src.vectors.len()),
            maps: nones_vec(src.maps.len()),
            closures: nones_vec(src.closures.len()),
            envs: nones_vec(src.envs.len()),
        };
        proof {
            lemma_nones_all(r.pairs@);
            lemma_nones_all(r.vectors@);
            lemma_nones_all(r.maps@);
            lemma_nones_all(r.closures@);
            lemma_nones_all(r.envs@);
        }
        r
    }
}

/// A table of `n` uncopied objects.
fn nones_vec(n: usize) -> (r: Vec<Option<usize>>)
    ensures
        r@.len() == n,
        forall|i: int| 0 <= i < n ==> #[trigger] r@[i] is None,
{
    let mut v: Vec<Option<usize>> = Vec::new();
    let mut k: usize = 0;
    while k < n
        invariant
            k <= n,
            v@.len() == k,
            forall|i: int| 0 <= i < k ==> #[trigger] v@[i] is None,
        decreases n - k,
    {
        v.push(None);
        k += 1;
    }
    v
}

/// A table with nothing copied counts every object.
pub proof fn lemma_nones_all(t: Seq<Option<usize>>)
    requires
        forall|i: int| 0 <= i < t.len() ==> #[trigger] t[i] is None,
    ensures
        nones(t) == t.len(),
    decreases t.len(),
{
    if t.len() > 0 {
        let d = t.drop_last();
        assert forall|i: int| 0 <= i < d.len() implies #[trigger] d[i] is None by {
            assert(d[i] == t[i]);
        }
        lemma_nones_all(d);
    }
}

/// Is `h` a handle the copy moves?
fn moves(f: &RuntimeForward, h: Handle) -> (r: bool)
    ensures
        r == is_src(*f, h),
{
    h.region() == f.src_region && (f.src_region != crate::value::RUNTIME || h.code_gen() == f.old_gen)
}

/// Copies the sub-graph `v` addresses (if the copy moves it) and returns `v`
/// rewritten to address the copy.
pub fn flush_rt_value(src: &CodeSlabs, dst: &mut CodeSlabs, f: &mut RuntimeForward, v: Value) -> (r: Value)
    requires
        fwd_wf(*src, *old(dst), *old(f)),
        src_closed(*src, *old(f)),
        in_src(*src, *old(f), v),
    ensures
        flushed(*src, *old(dst), *old(f), *final(dst), *final(f)),
        done(*final(f), v),
        r == fwd_value(*final(f), v),
        forall|s: Set<(NodeKind, int)>| #[trigger] closed_set(*src, *old(f), s) && val_in(*old(f), s, v)
            ==> copies_within(*old(f), *final(f), s),
    decreases total_nones(*old(f)), 1nat,
{
    proof {
        lemma_flushed_refl(*src, *dst, *f);
    }
    match v {
        Value::Pair(id) => {
            if moves(f, id) {
                Value::Pair(flush_rt_pair(src, dst, f, id))
            } else {
                v
            }
        },
        Value::Vector(id) => {
            if moves(f, id) {
                Value::Vector(flush_rt_vector(src, dst, f, id))
            } else {
                v
            }
        },
        Value::Mapping(id) => {
            if moves(f, id) {
                Value::Mapping(flush_rt_map(src, dst, f, id))
            } else {
                v
            }
        },
        Value::Fn(id) => {
            if moves(f, id) {
                Value::Fn(flush_rt_closure(src, dst, f, id))
            } else {
                v
            }
        },
        Value::Macro(id) => {
            if moves(f, id) {
                Value::Macro(flush_rt_closure(src, dst, f, id))
            } else {
                v
            }
        },
        _ => v,
    }
}

/// Copies a cons cell and what it holds.
fn flush_rt_pair(src: &CodeSlabs, dst: &mut CodeSlabs, f: &mut RuntimeForward, id: Handle) -> (r: Handle)
    requires
        fwd_wf(*src, *old(dst), *old(f)),
        src_closed(*src, *old(f)),
        is_src(*old(f), id),
        id.spec_index() < src.pairs@.len(),
    ensures
        flushed(*src, *old(dst), *old(f), *final(dst), *final(f)),
        fwd_of(*final(f), NodeKind::Pair, id) is Some,
        r == dest_handle(*final(f), fwd_of(*final(f), NodeKind::Pair, id)->0),
        forall|s: Set<(NodeKind, int)>| #[trigger] closed_set(*src, *old(f), s) && s.contains((NodeKind::Pair, id.spec_index() as int))
            ==> copies_within(*old(f), *final(f), s),
    decreases total_nones(*old(f)), 0nat,
{
    let i = id.index();
    proof {
        assert(table(*f, NodeKind::Pair).len() == slab_len(*src, NodeKind::Pair));
    }
    if let Some(n) = f.pairs[i] {
        proof {
            assert(table(*f, NodeKind::Pair)[i as int] is Some);
            assert(n < slab_len(*dst, NodeKind::Pair));
            assert(slab_len(*dst, NodeKind::Pair) + nones(table(*f, NodeKind::Pair)) < 0x1_0000_0000);
            lemma_flushed_refl(*src, *dst, *f);
        }
        return Handle::runtime_gen(n, f.dest_gen);
    }
    let ghost f0 = *f;
    let ghost d0 = *dst;
    let j = dst.pairs.len();
    dst.pairs.push((Value::Nil, Value::Nil));
    f.pairs.set(i, Some(j));
    proof {
        assert(frame(d0, *dst));
        lemma_reserve(*src, d0, f0, *dst, *f, NodeKind::Pair, i as int);
        lemma_src_closed_ext(*src, f0, *f);
    }
    let ghost f1 = *f;
    let ghost d1 = *dst;
    let (a, b) = src.pairs[i];
    let a2 = flush_rt_value(src, dst, f, a);
    let ghost f2 = *f;
    let ghost d2 = *dst;
    proof {
        lemma_src_closed_ext(*src, f1, *f);
    }
    let b2 = flush_rt_value(src, dst, f, b);
    let ghost f3 = *f;
    let ghost d3 = *dst;
    dst.pairs.set(j, (a2, b2));
    proof {
        lemma_flushed_trans(*src, d1, f1, d2, f2, d3, f3);
        lemma_fwd_stable(f2, f3, a);
        assert(table(f3, NodeKind::Pair)[i as int] == Some(j));
        assert(agree_except(d3, *dst, NodeKind::Pair, j as int));
        assert(copied(*src, *dst, f3, NodeKind::Pair, i as int));
        lemma_after_fill(*src, d3, *dst, f0, f1, f3, NodeKind::Pair, i as int, j as int);
        lemma_ext_trans(f0, f1, f3);
        lemma_frame_trans(d0, d1, d3);
        lemma_frame_except(d0, d3, *dst, NodeKind::Pair, j as int);
        lemma_cover_fill(d0, d1, d3, *dst, f3, NodeKind::Pair, i as int);
        assert forall|s: Set<(NodeKind, int)>| #[trigger] closed_set(*src, f0, s) && s.contains((NodeKind::Pair, i as int))
            implies copies_within(f0, f3, s) by {
            lemma_within_reserve(f0, f1, NodeKind::Pair, i as int, s);
            lemma_closed_ext(*src, f0, f1, s);
            lemma_closed_ext(*src, f0, f2, s);
            assert(val_in(f0, s, a) && val_in(f0, s, b));
            assert(val_in(f1, s, a));
            assert(val_in(f2, s, b));
            lemma_within_trans(f0, f1, f2, s);
            lemma_within_trans(f0, f2, f3, s);
        }
    }
    Handle::runtime_gen(j, f.dest_gen)
}

/// Copies a vector and the values it holds.
fn flush_rt_vector(src: &CodeSlabs, dst: &mut CodeSlabs, f: &mut RuntimeForward, id: Handle) -> (r: Handle)
    requires
        fwd_wf(*src, *old(dst), *old(f)),
        src_closed(*src, *old(f)),
        is_src(*old(f), id),
        id.spec_index() < src.vectors@.len(),
    ensures
        flushed(*src, *old(dst), *old(f), *final(dst), *final(f)),
        fwd_of(*final(f), NodeKind::Vector, id) is Some,
        r == dest_handle(*final(f), fwd_of(*final(f), NodeKind::Vector, id)->0),
        forall|s: Set<(NodeKind, int)>| #[trigger] closed_set(*src, *old(f), s) && s.contains((NodeKind::Vector, id.spec_index() as int))
            ==> copies_within(*old(f), *final(f), s),
    decreases total_nones(*old(f)), 0nat,
{
    let i = id.index();
    proof {
        assert(table(*f, NodeKind::Vector).len() == slab_len(*src, NodeKind::Vector));
    }
    if let Some(n) = f.vectors[i] {
        proof {
            assert(table(*f, NodeKind::Vector)[i as int] is Some);
            assert(n < slab_len(*dst, NodeKind::Vector));
            assert(slab_len(*dst, NodeKind::Vector) + nones(table(*f, NodeKind::Vector)) < 0x1_0000_0000);
            lemma_flushed_refl(*src, *dst, *f);
        }
        return Handle::runtime_gen(n, f.dest_gen);
    }
    let ghost f0 = *f;
    let ghost d0 = *dst;
    let j = dst.vectors.len();
    dst.vectors.push(Vec::new());
    f.vectors.set(i, Some(j));
    proof {
        assert(frame(d0, *dst));
        lemma_reserve(*src, d0, f0, *dst, *f, NodeKind::Vector, i as int);
        lemma_src_closed_ext(*src, f0, *f);
        lemma_flushed_refl(*src, *dst, *f);
    }
    let ghost f1 = *f;
    let ghost d1 = *dst;
    proof {
        assert forall|s: Set<(NodeKind, int)>| #[trigger] closed_set(*src, f0, s) && s.contains((NodeKind::Vector, i as int))
            implies copies_within(f0, f1, s) by {
            lemma_within_reserve(f0, f1, NodeKind::Vector, i as int, s);
        }
    }
    let ghost elems = src.vectors@[i as int]@;
    let n = src.vectors[i].len();
    let mut out: Vec<Value> = Vec::new();
    let mut p: usize = 0;
    while p < n
        invariant
            p <= n,
            i < src.vectors@.len(),
            elems == src.vectors@[i as int]@,
            n == elems.len(),
            flushed(*src, d1, f1, *dst, *f),
            src_closed(*src, *f),
            total_nones(f1) + 1 == total_nones(f0),
            total_nones(f0) == total_nones(*old(f)),
            reserved(f0, f1, NodeKind::Vector, i as int),
            table(f1, NodeKind::Vector)[i as int] == Some(j),
            j == slab_len(d0, NodeKind::Vector),
            slab_len(d1, NodeKind::Vector) == j + 1,
            frame(d0, d1),
            ext(f0, f1),
            all_done(*f, elems.take(p as int)),
            out@ == fvals(*f, elems.take(p as int)),
            forall|s: Set<(NodeKind, int)>| #[trigger] closed_set(*src, f0, s) && s.contains((NodeKind::Vector, i as int))
                ==> copies_within(f0, *f, s),
        decreases n - p,
    {
        let x = src.vectors[i][p];
        let ghost fa = *f;
        let ghost da = *dst;
        let x2 = flush_rt_value(src, dst, f, x);
        proof {
            lemma_flushed_trans(*src, d1, f1, da, fa, *dst, *f);
            lemma_vals_stable(fa, *f, elems.take(p as int));
            lemma_src_closed_ext(*src, fa, *f);
            assert(elems.take(p + 1) =~= elems.take(p as int).push(x));
            assert forall|s: Set<(NodeKind, int)>| #[trigger] closed_set(*src, f0, s) && s.contains((NodeKind::Vector, i as int))
                implies copies_within(f0, *f, s) by {
                lemma_closed_ext(*src, f0, fa, s);
                assert(val_in(f0, s, src.vectors@[i as int]@[p as int]));
                assert(val_in(fa, s, x));
                lemma_within_trans(f0, fa, *f, s);
            }
        }
        out.push(x2);
        p += 1;
    }
    let ghost f3 = *f;
    let ghost d3 = *dst;
    dst.vectors.set(j, out);
    proof {
        assert(elems.take(n as int) =~= elems);
        assert(table(f3, NodeKind::Vector)[i as int] == Some(j));
        assert(agree_except(d3, *dst, NodeKind::Vector, j as int));
        assert(copied(*src, *dst, f3, NodeKind::Vector, i as int));
        lemma_after_fill(*src, d3, *dst, f0, f1, f3, NodeKind::Vector, i as int, j as int);
        lemma_ext_trans(f0, f1, f3);
        lemma_frame_trans(d0, d1, d3);
        lemma_frame_except(d0, d3, *dst, NodeKind::Vector, j as int);
        lemma_cover_fill(d0, d1, d3, *dst, f3, NodeKind::Vector, i as int);
    }
    Handle::runtime_gen(j, f.dest_gen)
}

/// Copies a map and the keys and values it holds.
fn flush_rt_map(src: &CodeSlabs, dst: &mut CodeSlabs, f: &mut RuntimeForward, id: Handle) -> (r: Handle)
    requires
        fwd_wf(*src, *old(dst), *old(f)),
        src_closed(*src, *old(f)),
        is_src(*old(f), id),
        id.spec_index() < src.maps@.len(),
    ensures
        flushed(*src, *old(dst), *old(f), *final(dst), *final(f)),
        fwd_of(*final(f), NodeKind::Mapping, id) is Some,
        r == dest_handle(*final(f), fwd_of(*final(f), NodeKind::Mapping, id)->0),
        forall|s: Set<(NodeKind, int)>| #[trigger] closed_set(*src, *old(f), s) && s.contains((NodeKind::Mapping, id.spec_index() as int))
            ==> copies_within(*old(f), *final(f), s),
    decreases total_nones(*old(f)), 0nat,
{
    let i = id.index();
    proof {
        assert(table(*f, NodeKind::Mapping).len() == slab_len(*src, NodeKind::Mapping));
    }
    if let Some(n) = f.maps[i] {
        proof {
            assert(table(*f, NodeKind::Mapping)[i as int] is Some);
            assert(n < slab_len(*dst, NodeKind::Mapping));
            assert(slab_len(*dst, NodeKind::Mapping) + nones(table(*f, NodeKind::Mapping)) < 0x1_0000_0000);
            lemma_flushed_refl(*src, *dst, *f);
        }
        return Handle::runtime_gen(n, f.dest_gen);
    }
    let ghost f0 = *f;
    let ghost d0 = *dst;
    let j = dst.maps.len();
    dst.maps.push(Vec::new());
    f.maps.set(i, Some(j));
    proof {
        assert(frame(d0, *dst));
        lemma_reserve(*src, d0, f0, *dst, *f, NodeKind::Mapping, i as int);
        lemma_src_closed_ext(*src, f0, *f);
        lemma_flushed_refl(*src, *dst, *f);
    }
    let ghost f1 = *f;
    let ghost d1 = *dst;
    proof {
        assert forall|s: Set<(NodeKind, int)>| #[trigger] closed_set(*src, f0, s) && s.contains((NodeKind::Mapping, i as int))
            implies copies_within(f0, f1, s) by {
            lemma_within_reserve(f0, f1, NodeKind::Mapping, i as int, s);
        }
    }
    let ghost elems = src.maps@[i as int]@;
    let n = src.maps[i].len();
    let mut out: Vec<Value> = Vec::new();
    let mut p: usize = 0;
    while p < n
        invariant
            p <= n,
            i < src.maps@.len(),
            elems == src.maps@[i as int]@,
            n == elems.len(),
            flushed(*src, d1, f1, *dst, *f),
            src_closed(*src, *f),
            total_nones(f1) + 1 == total_nones(f0),
            total_nones(f0) == total_nones(*old(f)),
            reserved(f0, f1, NodeKind::Mapping, i as int),
            table(f1, NodeKind::Mapping)[i as int] == Some(j),
            j == slab_len(d0, NodeKind::Mapping),
            slab_len(d1, NodeKind::Mapping) == j + 1,
            frame(d0, d1),
            ext(f0, f1),
            all_done(*f, elems.take(p as int)),
            out@ == fvals(*f, elems.take(p as int)),
            forall|s: Set<(NodeKind, int)>| #[trigger] closed_set(*src, f0, s) && s.contains((NodeKind::Mapping, i as int))
                ==> copies_within(f0, *f, s),
        decreases n - p,
    {
        let x = src.maps[i][p];
        let ghost fa = *f;
        let ghost da = *dst;
        let x2 = flush_rt_value(src, dst, f, x);
        proof {
            lemma_flushed_trans(*src, d1, f1, da, fa, *dst, *f);
            lemma_vals_stable(fa, *f, elems.take(p as int));
            lemma_src_closed_ext(*src, fa, *f);
            assert(elems.take(p + 1) =~= elems.take(p as int).push(x));
            assert forall|s: Set<(NodeKind, int)>| #[trigger] closed_set(*src, f0, s) && s.contains((NodeKind::Mapping, i as int))
                implies copies_within(f0, *f, s) by {
                lemma_closed_ext(*src, f0, fa, s);
                assert(val_in(f0, s, src.maps@[i as int]@[p as int]));
                assert(val_in(fa, s, x));
                lemma_within_trans(f0, fa, *f, s);
            }
        }
        out.push(x2);
        p += 1;
    }
    let ghost f3 = *f;
    let ghost d3 = *dst;
    dst.maps.set(j, out);
    proof {
        assert(elems.take(n as int) =~= elems);
        assert(table(f3, NodeKind::Mapping)[i as int] == Some(j));
        assert(agree_except(d3, *dst, NodeKind::Mapping, j as int));
        assert(copied(*src, *dst, f3, NodeKind::Mapping, i as int));
        lemma_after_fill(*src, d3, *dst, f0, f1, f3, NodeKind::Mapping, i as int, j as int);
        lemma_ext_trans(f0, f1, f3);
        lemma_frame_trans(d0, d1, d3);
        lemma_frame_except(d0, d3, *dst, NodeKind::Mapping, j as int);
        lemma_cover_fill(d0, d1, d3, *dst, f3, NodeKind::Mapping, i as int);
    }
    Handle::runtime_gen(j, f.dest_gen)
}

/// Copies a closure: the values its arms embed and its captured frame chain.
/// The slot is reserved first, so a frame that binds the closure itself closes
/// the cycle on the copy.
fn flush_rt_closure(src: &CodeSlabs, dst: &mut CodeSlabs, f: &mut RuntimeForward, id: Handle) -> (r: Handle)
    requires
        fwd_wf(*src, *old(dst), *old(f)),
        src_closed(*src, *old(f)),
        is_src(*old(f), id),
        id.spec_index() < src.closures@.len(),
    ensures
        flushed(*src, *old(dst), *old(f), *final(dst), *final(f)),
        fwd_of(*final(f), NodeKind::Closure, id) is Some,
        r == dest_handle(*final(f), fwd_of(*final(f), NodeKind::Closure, id)->0),
        forall|s: Set<(NodeKind, int)>| #[trigger] closed_set(*src, *old(f), s) && s.contains((NodeKind::Closure, id.spec_index() as int))
            ==> copies_within(*old(f), *final(f), s),
    decreases total_nones(*old(f)), 0nat,
{
    let i = id.index();
    proof {
        assert(table(*f, NodeKind::Closure).len() == slab_len(*src, NodeKind::Closure));
    }
    if let Some(n) = f.closures[i] {
        proof {
            assert(table(*f, NodeKind::Closure)[i as int] is Some);
            assert(n < slab_len(*dst, NodeKind::Closure));
            assert(slab_len(*dst, NodeKind::Closure) + nones(table(*f, NodeKind::Closure)) < 0x1_0000_0000);
            lemma_flushed_refl(*src, *dst, *f);
        }
        return Handle::runtime_gen(n, f.dest_gen);
    }
    let ghost f0 = *f;
    let ghost d0 = *dst;
    let j = dst.closures.len();
    dst.closures.push(CodeClosure { refs: Vec::new(), env: None });
    f.closures.set(i, Some(j));
    proof {
        assert(frame(d0, *dst));
        lemma_reserve(*src, d0, f0, *dst, *f, NodeKind::Closure, i as int);
        lemma_src_closed_ext(*src, f0, *f);
        lemma_flushed_refl(*src, *dst, *f);
    }
    let ghost f1 = *f;
    let ghost d1 = *dst;
    proof {
        assert forall|s: Set<(NodeKind, int)>| #[trigger] closed_set(*src, f0, s) && s.contains((NodeKind::Closure, i as int))
            implies copies_within(f0, f1, s) by {
            lemma_within_reserve(f0, f1, NodeKind::Closure, i as int, s);
        }
    }
    let ghost elems = src.closures@[i as int].refs@;
    let n = src.closures[i].refs.len();
    let mut out: Vec<Value> = Vec::new();
    let mut p: usize = 0;
    while p < n
        invariant
            p <= n,
            i < src.closures@.len(),
            elems == src.closures@[i as int].refs@,
            n == elems.len(),
            flushed(*src, d1, f1, *dst, *f),
            src_closed(*src, *f),
            total_nones(f1) + 1 == total_nones(f0),
            total_nones(f0) == total_nones(*old(f)),
            reserved(f0, f1, NodeKind::Closure, i as int),
            table(f1, NodeKind::Closure)[i as int] == Some(j),
            j == slab_len(d0, NodeKind::Closure),
            slab_len(d1, NodeKind::Closure) == j + 1,
            frame(d0, d1),
            ext(f0, f1),
            all_done(*f, elems.take(p as int)),
            out@ == fvals(*f, elems.take(p as int)),
            forall|s: Set<(NodeKind, int)>| #[trigger] closed_set(*src, f0, s) && s.contains((NodeKind::Closure, i as int))
                ==> copies_within(f0, *f, s),
        decreases n - p,
    {
        let x = src.closures[i].refs[p];
        let ghost fa = *f;
        let ghost da = *dst;
        let x2 = flush_rt_value(src, dst, f, x);
        proof {
            lemma_flushed_trans(*src, d1, f1, da, fa, *dst, *f);
            lemma_vals_stable(fa, *f, elems.take(p as int));
            lemma_src_closed_ext(*src, fa, *f);
            assert(elems.take(p + 1) =~= elems.take(p as int).push(x));
            assert forall|s: Set<(NodeKind, int)>| #[trigger] closed_set(*src, f0, s) && s.contains((NodeKind::Closure, i as int))
                implies copies_within(f0, *f, s) by {
                lemma_closed_ext(*src, f0, fa, s);
                assert(val_in(f0, s, src.closures@[i as int].refs@[p as int]));
                assert(val_in(fa, s, x));
                lemma_within_trans(f0, fa, *f, s);
            }
        }
        out.push(x2);
        p += 1;
    }
    let ghost fb = *f;
    let ghost db = *dst;
    let env = src.closures[i].env;
    let new_env = match env {
        Some(e) => Some(flush_rt_env(src, dst, f, e)),
        None => None,
    };
    let ghost f3 = *f;
    let ghost d3 = *dst;
    dst.closures.set(j, CodeClosure { refs: out, env: new_env });
    proof {
        lemma_flushed_refl(*src, db, fb);
        lemma_flushed_trans(*src, d1, f1, db, fb, d3, f3);
        assert(elems.take(n as int) =~= elems);
        lemma_vals_stable(fb, f3, elems);
        assert(table(f3, NodeKind::Closure)[i as int] == Some(j));
        assert(agree_except(d3, *dst, NodeKind::Closure, j as int));
        assert(copied(*src, *dst, f3, NodeKind::Closure, i as int));
        lemma_after_fill(*src, d3, *dst, f0, f1, f3, NodeKind::Closure, i as int, j as int);
        lemma_ext_trans(f0, f1, f3);
        lemma_frame_trans(d0, d1, d3);
        lemma_frame_except(d0, d3, *dst, NodeKind::Closure, j as int);
        lemma_cover_fill(d0, d1, d3, *dst, f3, NodeKind::Closure, i as int);
        assert forall|s: Set<(NodeKind, int)>| #[trigger] closed_set(*src, f0, s) && s.contains((NodeKind::Closure, i as int))
            implies copies_within(f0, f3, s) by {
            assert(copies_within(f0, fb, s));
            lemma_closed_ext(*src, f0, fb, s);
            assert(opt_env_in(f0, s, src.closures@[i as int].env));
            match env {
                Some(e) => {
                    assert(env_in(fb, s, e));
                    lemma_within_trans(f0, fb, f3, s);
                },
                None => {},
            }
        }
    }
    Handle::runtime_gen(j, f.dest_gen)
}

/// Copies a frame (if the copy moves it): its parent chain, then the values it
/// binds. The slot is reserved first, so cycles close on the copy.
pub fn flush_rt_env(src: &CodeSlabs, dst: &mut CodeSlabs, f: &mut RuntimeForward, e: EnvId) -> (r: EnvId)
    requires
        fwd_wf(*src, *old(dst), *old(f)),
        src_closed(*src, *old(f)),
        env_in_src(*src, *old(f), e),
    ensures
        flushed(*src, *old(dst), *old(f), *final(dst), *final(f)),
        env_done(*final(f), e),
        r == fwd_env(*final(f), e),
        forall|s: Set<(NodeKind, int)>| #[trigger] closed_set(*src, *old(f), s) && env_in(*old(f), s, e)
            ==> copies_within(*old(f), *final(f), s),
    decreases total_nones(*old(f)), 1nat,
{
    if !moves(f, e) {
        proof {
            lemma_flushed_refl(*src, *dst, *f);
        }
        return e;
    }
    let i = e.index();
    proof {
        assert(table(*f, NodeKind::Frame).len() == slab_len(*src, NodeKind::Frame));
    }
    if let Some(n) = f.envs[i] {
        proof {
            assert(table(*f, NodeKind::Frame)[i as int] is Some);
            assert(n < slab_len(*dst, NodeKind::Frame));
            assert(slab_len(*dst, NodeKind::Frame) + nones(table(*f, NodeKind::Frame)) < 0x1_0000_0000);
            lemma_flushed_refl(*src, *dst, *f);
        }
        return Handle::runtime_gen(n, f.dest_gen);
    }
    let ghost f0 = *f;
    let ghost d0 = *dst;
    let j = dst.envs.len();
    dst.envs.push(CodeEnv { vars: Vec::new(), parent: None });
    f.envs.set(i, Some(j));
    proof {
        assert(frame(d0, *dst));
        lemma_reserve(*src, d0, f0, *dst, *f, NodeKind::Frame, i as int);
        lemma_src_closed_ext(*src, f0, *f);
        lemma_flushed_refl(*src, *dst, *f);
    }
    let ghost f1 = *f;
    let ghost d1 = *dst;
    let parent = src.envs[i].parent;
    let new_parent = match parent {
        Some(pe) => Some(flush_rt_env(src, dst, f, pe)),
        None => None,
    };
    let ghost fb = *f;
    let ghost db = *dst;
    proof {
        lemma_src_closed_ext(*src, f1, *f);
        assert forall|s: Set<(NodeKind, int)>| #[trigger] closed_set(*src, f0, s) && s.contains((NodeKind::Frame, i as int))
            implies copies_within(f0, fb, s) by {
            lemma_within_reserve(f0, f1, NodeKind::Frame, i as int, s);
            lemma_closed_ext(*src, f0, f1, s);
            assert(opt_env_in(f0, s, src.envs@[i as int].parent));
            match parent {
                Some(pe) => {
                    assert(env_in(f1, s, pe));
                    lemma_within_trans(f0, f1, fb, s);
                },
                None => {},
            }
        }
    }
    let ghost elems = src.envs@[i as int].vars@;
    let n = src.envs[i].vars.len();
    let mut out: Vec<(u32, Value)> = Vec::new();
    let mut p: usize = 0;
    while p < n
        invariant
            p <= n,
            i < src.envs@.len(),
            elems == src.envs@[i as int].vars@,
            n == elems.len(),
            flushed(*src, d1, f1, db, fb),
            flushed(*src, db, fb, *dst, *f),
            src_closed(*src, *f),
            total_nones(f1) + 1 == total_nones(f0),
            total_nones(f0) == total_nones(*old(f)),
            reserved(f0, f1, NodeKind::Frame, i as int),
            table(f1, NodeKind::Frame)[i as int] == Some(j),
            j == slab_len(d0, NodeKind::Frame),
            slab_len(d1, NodeKind::Frame) == j + 1,
            frame(d0, d1),
            ext(f0, f1),
            vars_done(*f, elems.take(p as int)),
            out@ == fvars(*f, elems.take(p as int)),
            forall|s: Set<(NodeKind, int)>| #[trigger] closed_set(*src, f0, s) && s.contains((NodeKind::Frame, i as int))
                ==> copies_within(f0, *f, s),
        decreases n - p,
    {
        let x = src.envs[i].vars[p];
        let ghost fa = *f;
        let ghost da = *dst;
        let x2 = flush_rt_value(src, dst, f, x.1);
        proof {
            lemma_flushed_trans(*src, db, fb, da, fa, *dst, *f);
            lemma_vars_stable(fa, *f, elems.take(p as int));
            lemma_src_closed_ext(*src, fa, *f);
            assert(elems.take(p + 1) =~= elems.take(p as int).push(x));
            assert forall|s: Set<(NodeKind, int)>| #[trigger] closed_set(*src, f0, s) && s.contains((NodeKind::Frame, i as int))
                implies copies_within(f0, *f, s) by {
                lemma_closed_ext(*src, f0, fa, s);
                assert(val_in(f0, s, src.envs@[i as int].vars@[p as int].1));
                assert(val_in(fa, s, x.1));
                lemma_within_trans(f0, fa, *f, s);
            }
        }
        out.push((x.0, x2));
        p += 1;
    }
    let ghost f3 = *f;
    let ghost d3 = *dst;
    dst.envs.set(j, CodeEnv { vars: out, parent: new_parent });
    proof {
        lemma_flushed_trans(*src, d1, f1, db, fb, d3, f3);
        lemma_opt_env_stable(fb, f3, parent);
        assert(elems.take(n as int) =~= elems);
        assert(table(f3, NodeKind::Frame)[i as int] == Some(j));
        assert(agree_except(d3, *dst, NodeKind::Frame, j as int));
        assert(copied(*src, *dst, f3, NodeKind::Frame, i as int));
        lemma_after_fill(*src, d3, *dst, f0, f1, f3, NodeKind::Frame, i as int, j as int);
        lemma_ext_trans(f0, f1, f3);
        lemma_frame_trans(d0, d1, d3);
        lemma_frame_except(d0, d3, *dst, NodeKind::Frame, j as int);
        lemma_cover_fill(d0, d1, d3, *dst, f3, NodeKind::Frame, i as int);
    }
    Handle::runtime_gen(j, f.dest_gen)
}

} // verus!
