//! Rewriting the holders of RUNTIME handles through a copy: root lists, frame
//! lists, binding stacks, the globals table and a process's local slabs.

use vstd::prelude::*;
use std::collections::HashMap;
use vstd::std_specs::iter::IteratorSpec;
use crate::value::{Value, EnvId, Symbol};
use crate::runtime_code::{CodeSlabs, CodeClosure, CodeEnv};
use crate::reach::{NodeKind, slab_len};
use crate::flush::{
    RuntimeForward, table, copied, fwd_wf, flushed, fwd_value, fwd_env, fwd_opt_env, done,
    closed_set, val_in, env_in, opt_env_in, copies_within, lemma_closed_ext, lemma_within_trans,
    env_done, opt_env_done, all_done, vars_done, fvals, fvars, in_src, env_in_src,
    opt_env_in_src, src_closed, ext, frame, covered, newly_copied, lemma_copied_stable,
    lemma_fwd_stable, lemma_env_stable, lemma_vals_stable, lemma_vars_stable,
    lemma_opt_env_stable, lemma_flushed_refl, lemma_flushed_trans, lemma_src_closed_ext,
    flush_rt_value, flush_rt_env, lemma_ext_trans,
};

verus! {

/// Every object the forwarding has copied is finished.
pub open spec fn all_copied(src: CodeSlabs, dst: CodeSlabs, f: RuntimeForward) -> bool {
    forall|k: NodeKind, i: int|
        0 <= i < table(f, k).len() && #[trigger] table(f, k)[i] is Some ==> copied(src, dst, f, k, i)
}

/// With nothing pending, a stretch of copying leaves every copy finished.
pub proof fn lemma_all_copied_step(
    src: CodeSlabs,
    d0: CodeSlabs,
    f0: RuntimeForward,
    d1: CodeSlabs,
    f1: RuntimeForward,
)
    requires
        all_copied(src, d0, f0),
        fwd_wf(src, d0, f0),
        flushed(src, d0, f0, d1, f1),
    ensures
        all_copied(src, d1, f1),
{
    assert forall|k: NodeKind, i: int|
        0 <= i < table(f1, k).len() && #[trigger] table(f1, k)[i] is Some implies copied(src, d1, f1, k, i) by {
        assert(table(f1, k).len() == table(f0, k).len());
        if table(f0, k)[i] is Some {
            lemma_copied_stable(src, d0, f0, d1, f1, k, i);
        }
    }
}

/// Rewrites each value of `vs` through the copy.
pub fn flush_values(src: &CodeSlabs, dst: &mut CodeSlabs, f: &mut RuntimeForward, vs: &mut Vec<Value>)
    requires
        fwd_wf(*src, *old(dst), *old(f)),
        src_closed(*src, *old(f)),
        forall|i: int| 0 <= i < old(vs)@.len() ==> in_src(*src, *old(f), #[trigger] old(vs)@[i]),
    ensures
        flushed(*src, *old(dst), *old(f), *final(dst), *final(f)),
        all_done(*final(f), old(vs)@),
        final(vs)@ == fvals(*final(f), old(vs)@),
        forall|s: Set<(NodeKind, int)>| #[trigger] closed_set(*src, *old(f), s)
            && (forall|j: int| 0 <= j < old(vs)@.len() ==> val_in(*old(f), s, #[trigger] old(vs)@[j]))
            ==> copies_within(*old(f), *final(f), s),
{
    let ghost f0 = *f;
    let ghost d0 = *dst;
    let ghost vs0 = vs@;
    let mut i: usize = 0;
    proof {
        lemma_flushed_refl(*src, *dst, *f);
    }
    while i < vs.len()
        invariant
            i <= vs@.len(),
            vs@.len() == vs0.len(),
            flushed(*src, d0, f0, *dst, *f),
            src_closed(*src, *f),
            f.src_region == f0.src_region,
            f.old_gen == f0.old_gen,
            forall|j: int| 0 <= j < vs0.len() ==> in_src(*src, f0, #[trigger] vs0[j]),
            forall|j: int| i <= j < vs0.len() ==> #[trigger] vs@[j] == vs0[j],
            all_done(*f, vs0.take(i as int)),
            vs@.take(i as int) == fvals(*f, vs0.take(i as int)),
            forall|s: Set<(NodeKind, int)>| #[trigger] closed_set(*src, f0, s)
                && (forall|j: int| 0 <= j < vs0.len() ==> val_in(f0, s, #[trigger] vs0[j]))
                ==> copies_within(f0, *f, s),
        decreases vs0.len() - i,
    {
        let x = vs[i];
        let ghost fa = *f;
        let ghost da = *dst;
        proof {
            assert(in_src(*src, f0, vs0[i as int]));
        }
        let x2 = flush_rt_value(src, dst, f, x);
        proof {
            lemma_flushed_trans(*src, d0, f0, da, fa, *dst, *f);
            lemma_vals_stable(fa, *f, vs0.take(i as int));
            lemma_src_closed_ext(*src, fa, *f);
            assert(vs0.take(i + 1) =~= vs0.take(i as int).push(x));
            assert forall|s: Set<(NodeKind, int)>| #[trigger] closed_set(*src, f0, s)
                && (forall|j: int| 0 <= j < vs0.len() ==> val_in(f0, s, #[trigger] vs0[j]))
                implies copies_within(f0, *f, s) by {
                lemma_closed_ext(*src, f0, fa, s);
                assert(val_in(f0, s, vs0[i as int]));
                assert(val_in(fa, s, x));
                lemma_within_trans(f0, fa, *f, s);
            }
        }
        let ghost pre = vs@;
        vs.set(i, x2);
        proof {
            assert forall|j: int| 0 <= j < i implies #[trigger] vs@[j] == pre[j] by {}
            assert(pre.take(i as int)[0] == pre[0] || i == 0);
            assert forall|j: int| 0 <= j < i + 1 implies #[trigger] vs@.take(i + 1)[j] == fvals(*f, vs0.take(i + 1))[j] by {
                if j < i {
                    assert(pre.take(i as int)[j] == pre[j]);
                    assert(fvals(*f, vs0.take(i as int))[j] == fvals(*f, vs0.take(i + 1))[j]);
                }
            }
            assert(vs@.take(i + 1) =~= fvals(*f, vs0.take(i + 1)));
        }
        i += 1;
    }
    proof {
        assert(vs0.take(vs0.len() as int) =~= vs0);
        assert(vs@.take(vs@.len() as int) =~= vs@);
    }
}

/// Each frame handle of `es` rewritten through the copy.
pub open spec fn fenvs(f: RuntimeForward, s: Seq<EnvId>) -> Seq<EnvId> {
    s.map_values(|e: EnvId| fwd_env(f, e))
}

pub open spec fn envs_done(f: RuntimeForward, s: Seq<EnvId>) -> bool {
    forall|i: int| 0 <= i < s.len() ==> env_done(f, #[trigger] s[i])
}

/// Rewrites each frame handle of `es` through the copy.
pub fn flush_envs(src: &CodeSlabs, dst: &mut CodeSlabs, f: &mut RuntimeForward, es: &mut Vec<EnvId>)
    requires
        fwd_wf(*src, *old(dst), *old(f)),
        src_closed(*src, *old(f)),
        forall|i: int| 0 <= i < old(es)@.len() ==> env_in_src(*src, *old(f), #[trigger] old(es)@[i]),
    ensures
        flushed(*src, *old(dst), *old(f), *final(dst), *final(f)),
        envs_done(*final(f), old(es)@),
        final(es)@ == fenvs(*final(f), old(es)@),
        forall|s: Set<(NodeKind, int)>| #[trigger] closed_set(*src, *old(f), s) && (forall|j: int| 0 <= j < old(es)@.len() ==> env_in(*old(f), s, #[trigger] old(es)@[j]))
            ==> copies_within(*old(f), *final(f), s),
{
    let ghost f0 = *f;
    let ghost d0 = *dst;
    let ghost es0 = es@;
    let mut i: usize = 0;
    proof {
        lemma_flushed_refl(*src, *dst, *f);
    }
    while i < es.len()
        invariant
            i <= es@.len(),
            es@.len() == es0.len(),
            flushed(*src, d0, f0, *dst, *f),
            src_closed(*src, *f),
            f.src_region == f0.src_region,
            f.old_gen == f0.old_gen,
            forall|j: int| 0 <= j < es0.len() ==> env_in_src(*src, f0, #[trigger] es0[j]),
            forall|j: int| i <= j < es0.len() ==> #[trigger] es@[j] == es0[j],
            envs_done(*f, es0.take(i as int)),
            es@.take(i as int) == fenvs(*f, es0.take(i as int)),
            forall|s: Set<(NodeKind, int)>| #[trigger] closed_set(*src, f0, s) && (forall|j: int| 0 <= j < es0.len() ==> env_in(f0, s, #[trigger] es0[j]))
                ==> copies_within(f0, *f, s),
        decreases es0.len() - i,
    {
        let x = es[i];
        let ghost fa = *f;
        let ghost da = *dst;
        proof {
            assert(env_in_src(*src, f0, es0[i as int]));
        }
        let x2 = flush_rt_env(src, dst, f, x);
        proof {
            lemma_flushed_trans(*src, d0, f0, da, fa, *dst, *f);
            assert forall|j: int| 0 <= j < i implies env_done(*f, #[trigger] es0.take(i as int)[j])
                && fwd_env(*f, es0.take(i as int)[j]) == fwd_env(fa, es0.take(i as int)[j]) by {
                lemma_env_stable(fa, *f, es0.take(i as int)[j]);
            }
            lemma_src_closed_ext(*src, fa, *f);
            assert(es0.take(i + 1) =~= es0.take(i as int).push(x));
            assert forall|s: Set<(NodeKind, int)>| #[trigger] closed_set(*src, f0, s) && (forall|j: int| 0 <= j < es0.len() ==> env_in(f0, s, #[trigger] es0[j]))
                implies copies_within(f0, *f, s) by {
                lemma_closed_ext(*src, f0, fa, s);
                assert(env_in(f0, s, es0[i as int]));
                assert(env_in(fa, s, x));
                lemma_within_trans(f0, fa, *f, s);
            }
        }
        let ghost pre = es@;
        es.set(i, x2);
        proof {
            assert forall|j: int| 0 <= j < i implies #[trigger] es@[j] == pre[j] by {}
            assert(pre.take(i as int)[0] == pre[0] || i == 0);
            assert forall|j: int| 0 <= j < i + 1 implies #[trigger] es@.take(i + 1)[j] == fenvs(*f, es0.take(i + 1))[j] by {
                if j < i {
                    assert(pre.take(i as int)[j] == pre[j]);
                    assert(fenvs(*f, es0.take(i as int))[j] == fenvs(*f, es0.take(i + 1))[j]);
                }
            }
            assert(es@.take(i + 1) =~= fenvs(*f, es0.take(i + 1)));
        }
        i += 1;
    }
    proof {
        assert(es0.take(es0.len() as int) =~= es0);
        assert(es@.take(es@.len() as int) =~= es@);
    }
}

/// Rewrites the value of each binding of `vs` through the copy.
pub fn flush_bindings(src: &CodeSlabs, dst: &mut CodeSlabs, f: &mut RuntimeForward, vs: &mut Vec<(Symbol, Value)>)
    requires
        fwd_wf(*src, *old(dst), *old(f)),
        src_closed(*src, *old(f)),
        forall|i: int| 0 <= i < old(vs)@.len() ==> in_src(*src, *old(f), (#[trigger] old(vs)@[i]).1),
    ensures
        flushed(*src, *old(dst), *old(f), *final(dst), *final(f)),
        vars_done(*final(f), old(vs)@),
        final(vs)@ == fvars(*final(f), old(vs)@),
        forall|s: Set<(NodeKind, int)>| #[trigger] closed_set(*src, *old(f), s) && (forall|j: int| 0 <= j < old(vs)@.len() ==> val_in(*old(f), s, (#[trigger] old(vs)@[j]).1))
            ==> copies_within(*old(f), *final(f), s),
{
    let ghost f0 = *f;
    let ghost d0 = *dst;
    let ghost vs0 = vs@;
    let mut i: usize = 0;
    proof {
        lemma_flushed_refl(*src, *dst, *f);
    }
    while i < vs.len()
        invariant
            i <= vs@.len(),
            vs@.len() == vs0.len(),
            flushed(*src, d0, f0, *dst, *f),
            src_closed(*src, *f),
            f.src_region == f0.src_region,
            f.old_gen == f0.old_gen,
            forall|j: int| 0 <= j < vs0.len() ==> in_src(*src, f0, (#[trigger] vs0[j]).1),
            forall|j: int| i <= j < vs0.len() ==> #[trigger] vs@[j] == vs0[j],
            vars_done(*f, vs0.take(i as int)),
            vs@.take(i as int) == fvars(*f, vs0.take(i as int)),
            forall|s: Set<(NodeKind, int)>| #[trigger] closed_set(*src, f0, s) && (forall|j: int| 0 <= j < vs0.len() ==> val_in(f0, s, (#[trigger] vs0[j]).1))
                ==> copies_within(f0, *f, s),
        decreases vs0.len() - i,
    {
        let x = vs[i];
        let ghost fa = *f;
        let ghost da = *dst;
        proof {
            assert(in_src(*src, f0, vs0[i as int].1));
        }
        let x2 = flush_rt_value(src, dst, f, x.1);
        proof {
            lemma_flushed_trans(*src, d0, f0, da, fa, *dst, *f);
            lemma_vars_stable(fa, *f, vs0.take(i as int));
            lemma_src_closed_ext(*src, fa, *f);
            assert(vs0.take(i + 1) =~= vs0.take(i as int).push(x));
            assert forall|s: Set<(NodeKind, int)>| #[trigger] closed_set(*src, f0, s) && (forall|j: int| 0 <= j < vs0.len() ==> val_in(f0, s, (#[trigger] vs0[j]).1))
                implies copies_within(f0, *f, s) by {
                lemma_closed_ext(*src, f0, fa, s);
                assert(val_in(f0, s, vs0[i as int].1));
                assert(val_in(fa, s, x.1));
                lemma_within_trans(f0, fa, *f, s);
            }
        }
        let ghost pre = vs@;
        vs.set(i, (x.0, x2));
        proof {
            assert forall|j: int| 0 <= j < i implies #[trigger] vs@[j] == pre[j] by {}
            assert(pre.take(i as int)[0] == pre[0] || i == 0);
            assert forall|j: int| 0 <= j < i + 1 implies #[trigger] vs@.take(i + 1)[j] == fvars(*f, vs0.take(i + 1))[j] by {
                if j < i {
                    assert(pre.take(i as int)[j] == pre[j]);
                    assert(fvars(*f, vs0.take(i as int))[j] == fvars(*f, vs0.take(i + 1))[j]);
                }
            }
            assert(vs@.take(i + 1) =~= fvars(*f, vs0.take(i + 1)));
        }
        i += 1;
    }
    proof {
        assert(vs0.take(vs0.len() as int) =~= vs0);
        assert(vs@.take(vs@.len() as int) =~= vs@);
    }
}

/// The keys of a symbol-keyed table.
pub fn symbol_keys<V>(m: &HashMap<Symbol, V>) -> (r: Vec<Symbol>)
    ensures
        r@.to_set() == m@.dom(),
        r@.no_duplicates(),
{
    let mut keys: Vec<Symbol> = Vec::new();
    let ghost full: Seq<Symbol> = m.keys().remaining().unref();
    for k in it: m.keys()
        invariant
            full == m.keys().remaining().unref(),
            full.to_set() == m@.dom(),
            full.no_duplicates(),
            it.seq().unref() == full,
            keys@ == full.take(it.index() as int),
    {
        proof {
            assert(full.take(it.index() + 1) == full.take(it.index() as int).push(full[it.index() as int]));
        }
        keys.push(*k);
    }
    proof {
        assert(full.take(full.len() as int) == full);
    }
    keys
}

/// Rewrites every value of the table `m` through the copy.
pub fn flush_table(src: &CodeSlabs, dst: &mut CodeSlabs, f: &mut RuntimeForward, m: &mut HashMap<Symbol, Value>)
    requires
        fwd_wf(*src, *old(dst), *old(f)),
        src_closed(*src, *old(f)),
        forall|k: Symbol| #[trigger] old(m)@.contains_key(k) ==> in_src(*src, *old(f), old(m)@[k]),
    ensures
        flushed(*src, *old(dst), *old(f), *final(dst), *final(f)),
        final(m)@.dom() == old(m)@.dom(),
        forall|k: Symbol| #[trigger] old(m)@.contains_key(k) ==> done(*final(f), old(m)@[k])
            && final(m)@[k] == fwd_value(*final(f), old(m)@[k]),
        forall|s: Set<(NodeKind, int)>| #[trigger] closed_set(*src, *old(f), s) && (forall|k: Symbol| #[trigger] old(m)@.contains_key(k) ==> val_in(*old(f), s, old(m)@[k]))
            ==> copies_within(*old(f), *final(f), s),
{
    let ghost f0 = *f;
    let ghost d0 = *dst;
    let ghost m0 = m@;
    let keys = symbol_keys(m);
    let mut i: usize = 0;
    proof {
        lemma_flushed_refl(*src, *dst, *f);
    }
    while i < keys.len()
        invariant
            i <= keys@.len(),
            keys@.to_set() == m0.dom(),
            keys@.no_duplicates(),
            m@.dom() == m0.dom(),
            flushed(*src, d0, f0, *dst, *f),
            src_closed(*src, *f),
            f.src_region == f0.src_region,
            f.old_gen == f0.old_gen,
            forall|k: Symbol| #[trigger] m0.contains_key(k) ==> in_src(*src, f0, m0[k]),
            forall|j: int| i <= j < keys@.len() ==> m@[#[trigger] keys@[j]] == m0[keys@[j]],
            forall|j: int| 0 <= j < i ==> done(*f, m0[#[trigger] keys@[j]]) && m@[keys@[j]] == fwd_value(*f, m0[keys@[j]]),
            forall|s: Set<(NodeKind, int)>| #[trigger] closed_set(*src, f0, s) && (forall|k: Symbol| #[trigger] m0.contains_key(k) ==> val_in(f0, s, m0[k]))
                ==> copies_within(f0, *f, s),
        decreases keys@.len() - i,
    {
        let k = keys[i];
        proof {
            assert(keys@.to_set().contains(k));
            assert(m0.contains_key(k));
        }
        let v = *m.get(&k).unwrap();
        let ghost fa = *f;
        let ghost da = *dst;
        let v2 = flush_rt_value(src, dst, f, v);
        proof {
            lemma_flushed_trans(*src, d0, f0, da, fa, *dst, *f);
            lemma_src_closed_ext(*src, fa, *f);
            assert forall|j: int| 0 <= j < i implies done(*f, m0[#[trigger] keys@[j]]) && m@[keys@[j]] == fwd_value(*f, m0[keys@[j]]) by {
                lemma_fwd_stable(fa, *f, m0[keys@[j]]);
            }
            assert forall|s: Set<(NodeKind, int)>| #[trigger] closed_set(*src, f0, s) && (forall|k: Symbol| #[trigger] m0.contains_key(k) ==> val_in(f0, s, m0[k]))
                implies copies_within(f0, *f, s) by {
                lemma_closed_ext(*src, f0, fa, s);
                assert(val_in(f0, s, m0[k]));
                assert(val_in(fa, s, v));
                lemma_within_trans(f0, fa, *f, s);
            }
        }
        m.insert(k, v2);
        proof {
            assert forall|j: int| i < j < keys@.len() implies m@[#[trigger] keys@[j]] == m0[keys@[j]] by {
                assert(keys@[j] != keys@[i as int]);
            }
            assert forall|j: int| 0 <= j < i implies done(*f, m0[#[trigger] keys@[j]]) && m@[keys@[j]] == fwd_value(*f, m0[keys@[j]]) by {
                assert(keys@[j] != keys@[i as int]);
            }
            assert(m@.dom() =~= m0.dom());
        }
        i += 1;
    }
    proof {
        assert forall|k: Symbol| #[trigger] m0.contains_key(k) implies done(*f, m0[k]) && m@[k] == fwd_value(*f, m0[k]) by {
            assert(keys@.to_set().contains(k));
            let j = choose|j: int| 0 <= j < keys@.len() && keys@[j] == k;
            assert(done(*f, m0[keys@[j]]));
        }
    }
}

/// A copy of a list of values.
pub fn copy_values(v: &Vec<Value>) -> (r: Vec<Value>)
    ensures
        r@ == v@,
{
    let mut out: Vec<Value> = Vec::new();
    let mut i: usize = 0;
    while i < v.len()
        invariant
            i <= v@.len(),
            out@ == v@.take(i as int),
        decreases v@.len() - i,
    {
        out.push(v[i]);
        proof {
            assert(v@.take(i + 1) =~= v@.take(i as int).push(v@[i as int]));
        }
        i += 1;
    }
    proof {
        assert(v@.take(v@.len() as int) =~= v@);
    }
    out
}

/// A copy of a list of bindings.
pub fn copy_bindings(v: &Vec<(Symbol, Value)>) -> (r: Vec<(Symbol, Value)>)
    ensures
        r@ == v@,
{
    let mut out: Vec<(Symbol, Value)> = Vec::new();
    let mut i: usize = 0;
    while i < v.len()
        invariant
            i <= v@.len(),
            out@ == v@.take(i as int),
        decreases v@.len() - i,
    {
        out.push(v[i]);
        proof {
            assert(v@.take(i + 1) =~= v@.take(i as int).push(v@[i as int]));
        }
        i += 1;
    }
    proof {
        assert(v@.take(v@.len() as int) =~= v@);
    }
    out
}

/// Every list of `l1` is the same-placed list of `l0` rewritten through the copy.
pub open spec fn lists_rewritten(f: RuntimeForward, l0: Seq<Vec<Value>>, l1: Seq<Vec<Value>>) -> bool {
    &&& l1.len() == l0.len()
    &&& forall|i: int| 0 <= i < l0.len() ==> all_done(f, (#[trigger] l0[i])@) && l1[i]@ == fvals(f, l0[i]@)
}

/// Rewrites every value of every list through the copy.
pub fn rewrite_value_lists(src: &CodeSlabs, dst: &mut CodeSlabs, f: &mut RuntimeForward, lists: &mut Vec<Vec<Value>>)
    requires
        fwd_wf(*src, *old(dst), *old(f)),
        src_closed(*src, *old(f)),
        forall|i: int, j: int|
            0 <= i < old(lists)@.len() && 0 <= j < old(lists)@[i]@.len() ==> in_src(*src, *old(f), #[trigger] old(lists)@[i]@[j]),
    ensures
        flushed(*src, *old(dst), *old(f), *final(dst), *final(f)),
        lists_rewritten(*final(f), old(lists)@, final(lists)@),
        forall|s: Set<(NodeKind, int)>| #[trigger] closed_set(*src, *old(f), s) && (forall|a: int, b: int| 0 <= a < old(lists)@.len() && 0 <= b < old(lists)@[a]@.len() ==> val_in(*old(f), s, #[trigger] old(lists)@[a]@[b]))
            ==> copies_within(*old(f), *final(f), s),
{
    let ghost f0 = *f;
    let ghost d0 = *dst;
    let ghost l0 = lists@;
    let mut i: usize = 0;
    proof {
        lemma_flushed_refl(*src, *dst, *f);
    }
    while i < lists.len()
        invariant
            i <= lists@.len(),
            lists@.len() == l0.len(),
            flushed(*src, d0, f0, *dst, *f),
            src_closed(*src, *f),
            f.src_region == f0.src_region,
            f.old_gen == f0.old_gen,
            forall|a: int, b: int| 0 <= a < l0.len() && 0 <= b < l0[a]@.len() ==> in_src(*src, f0, #[trigger] l0[a]@[b]),
            forall|j: int| i <= j < l0.len() ==> #[trigger] lists@[j] == l0[j],
            forall|j: int| 0 <= j < i ==> all_done(*f, (#[trigger] l0[j])@) && lists@[j]@ == fvals(*f, l0[j]@),
            forall|s: Set<(NodeKind, int)>| #[trigger] closed_set(*src, f0, s) && (forall|a: int, b: int| 0 <= a < l0.len() && 0 <= b < l0[a]@.len() ==> val_in(f0, s, #[trigger] l0[a]@[b]))
                ==> copies_within(f0, *f, s),
        decreases l0.len() - i,
    {
        let mut v = copy_values(&lists[i]);
        let ghost fa = *f;
        let ghost da = *dst;
        proof {
            assert forall|b: int| 0 <= b < v@.len() implies in_src(*src, *f, #[trigger] v@[b]) by {
                assert(in_src(*src, f0, l0[i as int]@[b]));
            }
        }
        let ghost v0 = v@;
        flush_values(src, dst, f, &mut v);
        proof {
            lemma_flushed_trans(*src, d0, f0, da, fa, *dst, *f);
            lemma_src_closed_ext(*src, fa, *f);
            assert forall|j: int| 0 <= j < i implies all_done(*f, (#[trigger] l0[j])@) && lists@[j]@ == fvals(*f, l0[j]@) by {
                lemma_vals_stable(fa, *f, l0[j]@);
            }
            assert forall|s: Set<(NodeKind, int)>| #[trigger] closed_set(*src, f0, s) && (forall|a: int, b: int| 0 <= a < l0.len() && 0 <= b < l0[a]@.len() ==> val_in(f0, s, #[trigger] l0[a]@[b]))
                implies copies_within(f0, *f, s) by {
                lemma_closed_ext(*src, f0, fa, s);
                assert forall|b: int| 0 <= b < v0.len() implies val_in(fa, s, #[trigger] v0[b]) by {
                    assert(val_in(f0, s, l0[i as int]@[b]));
                }
                lemma_within_trans(f0, fa, *f, s);
            }
        }
        lists.set(i, v);
        i += 1;
    }
}

/// Every closure of `c1` is the same-placed closure of `c0` rewritten.
pub open spec fn closures_rewritten(f: RuntimeForward, c0: Seq<CodeClosure>, c1: Seq<CodeClosure>) -> bool {
    &&& c1.len() == c0.len()
    &&& forall|i: int|
        0 <= i < c0.len() ==> all_done(f, (#[trigger] c0[i]).refs@) && c1[i].refs@ == fvals(f, c0[i].refs@)
            && opt_env_done(f, c0[i].env) && c1[i].env == fwd_opt_env(f, c0[i].env)
}

/// Rewrites the values and frame of every closure through the copy.
pub fn rewrite_closures(src: &CodeSlabs, dst: &mut CodeSlabs, f: &mut RuntimeForward, cs: &mut Vec<CodeClosure>)
    requires
        fwd_wf(*src, *old(dst), *old(f)),
        src_closed(*src, *old(f)),
        forall|i: int, j: int|
            0 <= i < old(cs)@.len() && 0 <= j < old(cs)@[i].refs@.len() ==> in_src(*src, *old(f), #[trigger] old(cs)@[i].refs@[j]),
        forall|i: int| 0 <= i < old(cs)@.len() ==> opt_env_in_src(*src, *old(f), (#[trigger] old(cs)@[i]).env),
    ensures
        flushed(*src, *old(dst), *old(f), *final(dst), *final(f)),
        closures_rewritten(*final(f), old(cs)@, final(cs)@),
        forall|s: Set<(NodeKind, int)>| #[trigger] closed_set(*src, *old(f), s) && ((forall|a: int, b: int| 0 <= a < old(cs)@.len() && 0 <= b < old(cs)@[a].refs@.len() ==> val_in(*old(f), s, #[trigger] old(cs)@[a].refs@[b])) && (forall|a: int| 0 <= a < old(cs)@.len() ==> opt_env_in(*old(f), s, (#[trigger] old(cs)@[a]).env)))
            ==> copies_within(*old(f), *final(f), s),
{
    let ghost f0 = *f;
    let ghost d0 = *dst;
    let ghost c0 = cs@;
    let mut i: usize = 0;
    proof {
        lemma_flushed_refl(*src, *dst, *f);
    }
    while i < cs.len()
        invariant
            i <= cs@.len(),
            cs@.len() == c0.len(),
            flushed(*src, d0, f0, *dst, *f),
            src_closed(*src, *f),
            f.src_region == f0.src_region,
            f.old_gen == f0.old_gen,
            forall|a: int, b: int| 0 <= a < c0.len() && 0 <= b < c0[a].refs@.len() ==> in_src(*src, f0, #[trigger] c0[a].refs@[b]),
            forall|a: int| 0 <= a < c0.len() ==> opt_env_in_src(*src, f0, (#[trigger] c0[a]).env),
            forall|j: int| i <= j < c0.len() ==> #[trigger] cs@[j] == c0[j],
            forall|j: int|
                0 <= j < i ==> all_done(*f, (#[trigger] c0[j]).refs@) && cs@[j].refs@ == fvals(*f, c0[j].refs@)
                    && opt_env_done(*f, c0[j].env) && cs@[j].env == fwd_opt_env(*f, c0[j].env),
            forall|s: Set<(NodeKind, int)>| #[trigger] closed_set(*src, f0, s) && ((forall|a: int, b: int| 0 <= a < c0.len() && 0 <= b < c0[a].refs@.len() ==> val_in(f0, s, #[trigger] c0[a].refs@[b])) && (forall|a: int| 0 <= a < c0.len() ==> opt_env_in(f0, s, (#[trigger] c0[a]).env)))
                ==> copies_within(f0, *f, s),
        decreases c0.len() - i,
    {
        let mut v = copy_values(&cs[i].refs);
        let env = cs[i].env;
        let ghost fa = *f;
        let ghost da = *dst;
        proof {
            assert forall|b: int| 0 <= b < v@.len() implies in_src(*src, *f, #[trigger] v@[b]) by {
                assert(in_src(*src, f0, c0[i as int].refs@[b]));
            }
            assert(opt_env_in_src(*src, f0, c0[i as int].env));
        }
        let ghost v0 = v@;
        flush_values(src, dst, f, &mut v);
        let ghost fb = *f;
        let ghost db = *dst;
        proof {
            lemma_src_closed_ext(*src, fa, *f);
        }
        let new_env = match env {
            Some(e) => Some(flush_rt_env(src, dst, f, e)),
            None => None,
        };
        proof {
            if env is None {
                lemma_flushed_refl(*src, db, fb);
            }
            lemma_flushed_trans(*src, da, fa, db, fb, *dst, *f);
            lemma_flushed_trans(*src, d0, f0, da, fa, *dst, *f);
            lemma_src_closed_ext(*src, fa, *f);
            lemma_vals_stable(fb, *f, c0[i as int].refs@);
            assert forall|j: int| 0 <= j < i implies all_done(*f, (#[trigger] c0[j]).refs@) && cs@[j].refs@ == fvals(*f, c0[j].refs@)
                && opt_env_done(*f, c0[j].env) && cs@[j].env == fwd_opt_env(*f, c0[j].env) by {
                lemma_vals_stable(fa, *f, c0[j].refs@);
                lemma_opt_env_stable(fa, *f, c0[j].env);
            }
            assert forall|s: Set<(NodeKind, int)>| #[trigger] closed_set(*src, f0, s) && ((forall|a: int, b: int| 0 <= a < c0.len() && 0 <= b < c0[a].refs@.len() ==> val_in(f0, s, #[trigger] c0[a].refs@[b])) && (forall|a: int| 0 <= a < c0.len() ==> opt_env_in(f0, s, (#[trigger] c0[a]).env)))
                implies copies_within(f0, *f, s) by {
                lemma_closed_ext(*src, f0, fa, s);
                assert forall|b: int| 0 <= b < v0.len() implies val_in(fa, s, #[trigger] v0[b]) by {
                    assert(val_in(f0, s, c0[i as int].refs@[b]));
                }
                assert(copies_within(fa, fb, s));
                lemma_within_trans(f0, fa, fb, s);
                assert(opt_env_in(f0, s, c0[i as int].env));
                match env {
                    Some(e) => {
                        lemma_closed_ext(*src, f0, fb, s);
                        assert(env_in(fb, s, e));
                        lemma_within_trans(f0, fb, *f, s);
                    },
                    None => {},
                }
            }
        }
        cs.set(i, CodeClosure { refs: v, env: new_env });
        i += 1;
    }
}

/// Every frame of `e1` is the same-placed frame of `e0` rewritten.
pub open spec fn frames_rewritten(f: RuntimeForward, e0: Seq<CodeEnv>, e1: Seq<CodeEnv>) -> bool {
    &&& e1.len() == e0.len()
    &&& forall|i: int|
        0 <= i < e0.len() ==> vars_done(f, (#[trigger] e0[i]).vars@) && e1[i].vars@ == fvars(f, e0[i].vars@)
            && opt_env_done(f, e0[i].parent) && e1[i].parent == fwd_opt_env(f, e0[i].parent)
}

/// Rewrites the bindings and parent of every frame through the copy.
pub fn rewrite_frames(src: &CodeSlabs, dst: &mut CodeSlabs, f: &mut RuntimeForward, es: &mut Vec<CodeEnv>)
    requires
        fwd_wf(*src, *old(dst), *old(f)),
        src_closed(*src, *old(f)),
        forall|i: int, j: int|
            0 <= i < old(es)@.len() && 0 <= j < old(es)@[i].vars@.len() ==> in_src(*src, *old(f), (#[trigger] old(es)@[i].vars@[j]).1),
        forall|i: int| 0 <= i < old(es)@.len() ==> opt_env_in_src(*src, *old(f), (#[trigger] old(es)@[i]).parent),
    ensures
        flushed(*src, *old(dst), *old(f), *final(dst), *final(f)),
        frames_rewritten(*final(f), old(es)@, final(es)@),
        forall|s: Set<(NodeKind, int)>| #[trigger] closed_set(*src, *old(f), s) && ((forall|a: int, b: int| 0 <= a < old(es)@.len() && 0 <= b < old(es)@[a].vars@.len() ==> val_in(*old(f), s, (#[trigger] old(es)@[a].vars@[b]).1)) && (forall|a: int| 0 <= a < old(es)@.len() ==> opt_env_in(*old(f), s, (#[trigger] old(es)@[a]).parent)))
            ==> copies_within(*old(f), *final(f), s),
{
    let ghost f0 = *f;
    let ghost d0 = *dst;
    let ghost e0 = es@;
    let mut i: usize = 0;
    proof {
        lemma_flushed_refl(*src, *dst, *f);
    }
    while i < es.len()
        invariant
            i <= es@.len(),
            es@.len() == e0.len(),
            flushed(*src, d0, f0, *dst, *f),
            src_closed(*src, *f),
            f.src_region == f0.src_region,
            f.old_gen == f0.old_gen,
            forall|a: int, b: int| 0 <= a < e0.len() && 0 <= b < e0[a].vars@.len() ==> in_src(*src, f0, (#[trigger] e0[a].vars@[b]).1),
            forall|a: int| 0 <= a < e0.len() ==> opt_env_in_src(*src, f0, (#[trigger] e0[a]).parent),
            forall|j: int| i <= j < e0.len() ==> #[trigger] es@[j] == e0[j],
            forall|j: int|
                0 <= j < i ==> vars_done(*f, (#[trigger] e0[j]).vars@) && es@[j].vars@ == fvars(*f, e0[j].vars@)
                    && opt_env_done(*f, e0[j].parent) && es@[j].parent == fwd_opt_env(*f, e0[j].parent),
            forall|s: Set<(NodeKind, int)>| #[trigger] closed_set(*src, f0, s) && ((forall|a: int, b: int| 0 <= a < e0.len() && 0 <= b < e0[a].vars@.len() ==> val_in(f0, s, (#[trigger] e0[a].vars@[b]).1)) && (forall|a: int| 0 <= a < e0.len() ==> opt_env_in(f0, s, (#[trigger] e0[a]).parent)))
                ==> copies_within(f0, *f, s),
        decreases e0.len() - i,
    {
        let mut v = copy_bindings(&es[i].vars);
        let parent = es[i].parent;
        let ghost fa = *f;
        let ghost da = *dst;
        proof {
            assert forall|b: int| 0 <= b < v@.len() implies in_src(*src, *f, (#[trigger] v@[b]).1) by {
                assert(in_src(*src, f0, e0[i as int].vars@[b].1));
            }
            assert(opt_env_in_src(*src, f0, e0[i as int].parent));
        }
        let ghost v0 = v@;
        flush_bindings(src, dst, f, &mut v);
        let ghost fb = *f;
        let ghost db = *dst;
        proof {
            lemma_src_closed_ext(*src, fa, *f);
        }
        let new_parent = match parent {
            Some(e) => Some(flush_rt_env(src, dst, f, e)),
            None => None,
        };
        proof {
            if parent is None {
                lemma_flushed_refl(*src, db, fb);
            }
            lemma_flushed_trans(*src, da, fa, db, fb, *dst, *f);
            lemma_flushed_trans(*src, d0, f0, da, fa, *dst, *f);
            lemma_src_closed_ext(*src, fa, *f);
            lemma_vars_stable(fb, *f, e0[i as int].vars@);
            assert forall|j: int| 0 <= j < i implies vars_done(*f, (#[trigger] e0[j]).vars@) && es@[j].vars@ == fvars(*f, e0[j].vars@)
                && opt_env_done(*f, e0[j].parent) && es@[j].parent == fwd_opt_env(*f, e0[j].parent) by {
                lemma_vars_stable(fa, *f, e0[j].vars@);
                lemma_opt_env_stable(fa, *f, e0[j].parent);
            }
            assert forall|s: Set<(NodeKind, int)>| #[trigger] closed_set(*src, f0, s) && ((forall|a: int, b: int| 0 <= a < e0.len() && 0 <= b < e0[a].vars@.len() ==> val_in(f0, s, (#[trigger] e0[a].vars@[b]).1)) && (forall|a: int| 0 <= a < e0.len() ==> opt_env_in(f0, s, (#[trigger] e0[a]).parent)))
                implies copies_within(f0, *f, s) by {
                lemma_closed_ext(*src, f0, fa, s);
                assert forall|b: int| 0 <= b < v0.len() implies val_in(fa, s, (#[trigger] v0[b]).1) by {
                    assert(val_in(f0, s, e0[i as int].vars@[b].1));
                }
                assert(copies_within(fa, fb, s));
                lemma_within_trans(f0, fa, fb, s);
                assert(opt_env_in(f0, s, e0[i as int].parent));
                match parent {
                    Some(e) => {
                        lemma_closed_ext(*src, f0, fb, s);
                        assert(env_in(fb, s, e));
                        lemma_within_trans(f0, fb, *f, s);
                    },
                    None => {},
                }
            }
        }
        es.set(i, CodeEnv { vars: v, parent: new_parent });
        i += 1;
    }
}

/// Every cell of `p1` is the same-placed cell of `p0` rewritten.
pub open spec fn pairs_rewritten(f: RuntimeForward, p0: Seq<(Value, Value)>, p1: Seq<(Value, Value)>) -> bool {
    &&& p1.len() == p0.len()
    &&& forall|i: int|
        0 <= i < p0.len() ==> done(f, (#[trigger] p0[i]).0) && done(f, p0[i].1) && p1[i] == (
            fwd_value(f, p0[i].0),
            fwd_value(f, p0[i].1),
        )
}

/// Rewrites both halves of every cell through the copy.
pub fn rewrite_pairs(src: &CodeSlabs, dst: &mut CodeSlabs, f: &mut RuntimeForward, ps: &mut Vec<(Value, Value)>)
    requires
        fwd_wf(*src, *old(dst), *old(f)),
        src_closed(*src, *old(f)),
        forall|i: int|
            0 <= i < old(ps)@.len() ==> in_src(*src, *old(f), (#[trigger] old(ps)@[i]).0) && in_src(*src, *old(f), old(ps)@[i].1),
    ensures
        flushed(*src, *old(dst), *old(f), *final(dst), *final(f)),
        pairs_rewritten(*final(f), old(ps)@, final(ps)@),
        forall|s: Set<(NodeKind, int)>| #[trigger] closed_set(*src, *old(f), s) && (forall|a: int| 0 <= a < old(ps)@.len() ==> val_in(*old(f), s, (#[trigger] old(ps)@[a]).0) && val_in(*old(f), s, old(ps)@[a].1))
            ==> copies_within(*old(f), *final(f), s),
{
    let ghost f0 = *f;
    let ghost d0 = *dst;
    let ghost p0 = ps@;
    let mut i: usize = 0;
    proof {
        lemma_flushed_refl(*src, *dst, *f);
    }
    while i < ps.len()
        invariant
            i <= ps@.len(),
            ps@.len() == p0.len(),
            flushed(*src, d0, f0, *dst, *f),
            src_closed(*src, *f),
            f.src_region == f0.src_region,
            f.old_gen == f0.old_gen,
            forall|a: int| 0 <= a < p0.len() ==> in_src(*src, f0, (#[trigger] p0[a]).0) && in_src(*src, f0, p0[a].1),
            forall|j: int| i <= j < p0.len() ==> #[trigger] ps@[j] == p0[j],
            forall|j: int|
                0 <= j < i ==> done(*f, (#[trigger] p0[j]).0) && done(*f, p0[j].1) && ps@[j] == (
                    fwd_value(*f, p0[j].0),
                    fwd_value(*f, p0[j].1),
                ),
            forall|s: Set<(NodeKind, int)>| #[trigger] closed_set(*src, f0, s) && (forall|a: int| 0 <= a < p0.len() ==> val_in(f0, s, (#[trigger] p0[a]).0) && val_in(f0, s, p0[a].1))
                ==> copies_within(f0, *f, s),
        decreases p0.len() - i,
    {
        let (a, b) = ps[i];
        let ghost fa = *f;
        let ghost da = *dst;
        proof {
            assert(in_src(*src, f0, p0[i as int].0) && in_src(*src, f0, p0[i as int].1));
        }
        let a2 = flush_rt_value(src, dst, f, a);
        let ghost fb = *f;
        let ghost db = *dst;
        proof {
            lemma_src_closed_ext(*src, fa, *f);
        }
        let b2 = flush_rt_value(src, dst, f, b);
        proof {
            lemma_flushed_trans(*src, da, fa, db, fb, *dst, *f);
            lemma_flushed_trans(*src, d0, f0, da, fa, *dst, *f);
            lemma_src_closed_ext(*src, fa, *f);
            lemma_fwd_stable(fb, *f, a);
            assert forall|j: int| 0 <= j < i implies done(*f, (#[trigger] p0[j]).0) && done(*f, p0[j].1) && ps@[j] == (
                fwd_value(*f, p0[j].0),
                fwd_value(*f, p0[j].1),
            ) by {
                lemma_fwd_stable(fa, *f, p0[j].0);
                lemma_fwd_stable(fa, *f, p0[j].1);
            }
            assert forall|s: Set<(NodeKind, int)>| #[trigger] closed_set(*src, f0, s) && (forall|a: int| 0 <= a < p0.len() ==> val_in(f0, s, (#[trigger] p0[a]).0) && val_in(f0, s, p0[a].1))
                implies copies_within(f0, *f, s) by {
                lemma_closed_ext(*src, f0, fa, s);
                lemma_closed_ext(*src, f0, fb, s);
                assert(val_in(f0, s, p0[i as int].0) && val_in(f0, s, p0[i as int].1));
                assert(val_in(fa, s, a));
                assert(val_in(fb, s, b));
                lemma_within_trans(f0, fa, fb, s);
                lemma_within_trans(f0, fb, *f, s);
            }
        }
        ps.set(i, (a2, b2));
        i += 1;
    }
}

/// Every object of `l1` is the same-placed object of `l0` rewritten.
pub open spec fn slabs_rewritten(f: RuntimeForward, l0: CodeSlabs, l1: CodeSlabs) -> bool {
    &&& pairs_rewritten(f, l0.pairs@, l1.pairs@)
    &&& lists_rewritten(f, l0.vectors@, l1.vectors@)
    &&& lists_rewritten(f, l0.maps@, l1.maps@)
    &&& closures_rewritten(f, l0.closures@, l1.closures@)
    &&& frames_rewritten(f, l0.envs@, l1.envs@)
}

/// Every handle a slab set holds, if the copy moves it, addresses the source.
pub open spec fn holds_in_src(src: CodeSlabs, f: RuntimeForward, l: CodeSlabs) -> bool {
    &&& forall|i: int| 0 <= i < l.pairs@.len() ==> in_src(src, f, (#[trigger] l.pairs@[i]).0) && in_src(src, f, l.pairs@[i].1)
    &&& forall|i: int, j: int| 0 <= i < l.vectors@.len() && 0 <= j < l.vectors@[i]@.len() ==> in_src(src, f, #[trigger] l.vectors@[i]@[j])
    &&& forall|i: int, j: int| 0 <= i < l.maps@.len() && 0 <= j < l.maps@[i]@.len() ==> in_src(src, f, #[trigger] l.maps@[i]@[j])
    &&& forall|i: int, j: int| 0 <= i < l.closures@.len() && 0 <= j < l.closures@[i].refs@.len() ==> in_src(src, f, #[trigger] l.closures@[i].refs@[j])
    &&& forall|i: int| 0 <= i < l.closures@.len() ==> opt_env_in_src(src, f, (#[trigger] l.closures@[i]).env)
    &&& forall|i: int, j: int| 0 <= i < l.envs@.len() && 0 <= j < l.envs@[i].vars@.len() ==> in_src(src, f, (#[trigger] l.envs@[i].vars@[j]).1)
    &&& forall|i: int| 0 <= i < l.envs@.len() ==> opt_env_in_src(src, f, (#[trigger] l.envs@[i]).parent)
}

/// Every handle the slabs `l` hold, if the copy moves it, addresses an object in `s`.
pub open spec fn slabs_in(f: RuntimeForward, s: Set<(NodeKind, int)>, l: CodeSlabs) -> bool {
    &&& forall|a: int| 0 <= a < l.pairs@.len() ==> val_in(f, s, (#[trigger] l.pairs@[a]).0) && val_in(f, s, l.pairs@[a].1)
    &&& forall|a: int, b: int| 0 <= a < l.vectors@.len() && 0 <= b < l.vectors@[a]@.len() ==> val_in(f, s, #[trigger] l.vectors@[a]@[b])
    &&& forall|a: int, b: int| 0 <= a < l.maps@.len() && 0 <= b < l.maps@[a]@.len() ==> val_in(f, s, #[trigger] l.maps@[a]@[b])
    &&& forall|a: int, b: int| 0 <= a < l.closures@.len() && 0 <= b < l.closures@[a].refs@.len() ==> val_in(f, s, #[trigger] l.closures@[a].refs@[b])
    &&& forall|a: int| 0 <= a < l.closures@.len() ==> opt_env_in(f, s, (#[trigger] l.closures@[a]).env)
    &&& forall|a: int, b: int| 0 <= a < l.envs@.len() && 0 <= b < l.envs@[a].vars@.len() ==> val_in(f, s, (#[trigger] l.envs@[a].vars@[b]).1)
    &&& forall|a: int| 0 <= a < l.envs@.len() ==> opt_env_in(f, s, (#[trigger] l.envs@[a]).parent)
}

/// Whether the slabs lie in a set depends on the copy only through what it moves.
pub proof fn lemma_slabs_in_ext(f1: RuntimeForward, f2: RuntimeForward, s: Set<(NodeKind, int)>, l: CodeSlabs)
    requires
        slabs_in(f1, s, l),
        f1.src_region == f2.src_region,
        f1.old_gen == f2.old_gen,
    ensures
        slabs_in(f2, s, l),
{
    assert forall|v: Value| val_in(f1, s, v) == val_in(f2, s, v) by {}
    assert forall|e: Option<EnvId>| opt_env_in(f1, s, e) == opt_env_in(f2, s, e) by {}
}

/// Rewrites every RUNTIME handle a process's local slabs hold through the copy.
pub fn rewrite_local_rt_handles(local: &mut CodeSlabs, src: &CodeSlabs, dst: &mut CodeSlabs, f: &mut RuntimeForward)
    requires
        fwd_wf(*src, *old(dst), *old(f)),
        src_closed(*src, *old(f)),
        holds_in_src(*src, *old(f), *old(local)),
    ensures
        flushed(*src, *old(dst), *old(f), *final(dst), *final(f)),
        slabs_rewritten(*final(f), *old(local), *final(local)),
        forall|s: Set<(NodeKind, int)>| #[trigger] closed_set(*src, *old(f), s) && slabs_in(*old(f), s, *old(local))
            ==> copies_within(*old(f), *final(f), s),
{
    let ghost f0 = *f;
    let ghost d0 = *dst;
    let ghost l0 = *local;
    rewrite_pairs(src, dst, f, &mut local.pairs);
    let ghost f1 = *f;
    let ghost d1 = *dst;
    proof {
        lemma_src_closed_ext(*src, f0, *f);
    }
    rewrite_value_lists(src, dst, f, &mut local.vectors);
    let ghost f2 = *f;
    let ghost d2 = *dst;
    proof {
        lemma_src_closed_ext(*src, f0, *f);
        lemma_flushed_trans(*src, d0, f0, d1, f1, d2, f2);
    }
    rewrite_value_lists(src, dst, f, &mut local.maps);
    let ghost f3 = *f;
    let ghost d3 = *dst;
    proof {
        lemma_src_closed_ext(*src, f0, *f);
        lemma_flushed_trans(*src, d0, f0, d2, f2, d3, f3);
    }
    rewrite_closures(src, dst, f, &mut local.closures);
    let ghost f4 = *f;
    let ghost d4 = *dst;
    proof {
        lemma_src_closed_ext(*src, f0, *f);
        lemma_flushed_trans(*src, d0, f0, d3, f3, d4, f4);
    }
    rewrite_frames(src, dst, f, &mut local.envs);
    proof {
        lemma_flushed_trans(*src, d0, f0, d4, f4, *dst, *f);
        lemma_rewritten_stable(f1, *f, l0, *local);
        lemma_ext_trans(f2, f4, *f);
        lemma_ext_trans(f3, f4, *f);
        lemma_lists_stable(f2, *f, l0.vectors@, local.vectors@);
        lemma_lists_stable(f3, *f, l0.maps@, local.maps@);
        lemma_closures_stable(f4, *f, l0.closures@, local.closures@);
        assert forall|s: Set<(NodeKind, int)>| #[trigger] closed_set(*src, f0, s) && slabs_in(f0, s, l0)
            implies copies_within(f0, *f, s) by {
            lemma_slabs_in_ext(f0, f1, s, l0);
            lemma_slabs_in_ext(f0, f2, s, l0);
            lemma_slabs_in_ext(f0, f3, s, l0);
            lemma_slabs_in_ext(f0, f4, s, l0);
            lemma_closed_ext(*src, f0, f1, s);
            lemma_closed_ext(*src, f0, f2, s);
            lemma_closed_ext(*src, f0, f3, s);
            lemma_closed_ext(*src, f0, f4, s);
            assert(copies_within(f0, f1, s));
            assert(copies_within(f1, f2, s));
            assert(copies_within(f2, f3, s));
            assert(copies_within(f3, f4, s));
            assert(copies_within(f4, *f, s));
            lemma_within_trans(f0, f1, f2, s);
            lemma_within_trans(f0, f2, f3, s);
            lemma_within_trans(f0, f3, f4, s);
            lemma_within_trans(f0, f4, *f, s);
        }
    }
}

proof fn lemma_lists_stable(f1: RuntimeForward, f: RuntimeForward, a: Seq<Vec<Value>>, b: Seq<Vec<Value>>)
    requires
        ext(f1, f),
        lists_rewritten(f1, a, b),
    ensures
        lists_rewritten(f, a, b),
{
    assert forall|i: int| 0 <= i < a.len() implies all_done(f, (#[trigger] a[i])@) && b[i]@ == fvals(f, a[i]@) by {
        lemma_vals_stable(f1, f, a[i]@);
    }
}

proof fn lemma_closures_stable(f1: RuntimeForward, f: RuntimeForward, a: Seq<CodeClosure>, b: Seq<CodeClosure>)
    requires
        ext(f1, f),
        closures_rewritten(f1, a, b),
    ensures
        closures_rewritten(f, a, b),
{
    assert forall|i: int| 0 <= i < a.len() implies all_done(f, (#[trigger] a[i]).refs@) && b[i].refs@ == fvals(f, a[i].refs@)
        && opt_env_done(f, a[i].env) && b[i].env == fwd_opt_env(f, a[i].env) by {
        lemma_vals_stable(f1, f, a[i].refs@);
        lemma_opt_env_stable(f1, f, a[i].env);
    }
}

/// What a rewrite established stays true as the forwarding grows.
proof fn lemma_rewritten_stable(f1: RuntimeForward, f: RuntimeForward, l0: CodeSlabs, l1: CodeSlabs)
    requires
        ext(f1, f),
        pairs_rewritten(f1, l0.pairs@, l1.pairs@),
    ensures
        pairs_rewritten(f, l0.pairs@, l1.pairs@),
{
    assert forall|i: int| 0 <= i < l0.pairs@.len() implies done(f, (#[trigger] l0.pairs@[i]).0) && done(f, l0.pairs@[i].1)
        && l1.pairs@[i] == (fwd_value(f, l0.pairs@[i].0), fwd_value(f, l0.pairs@[i].1)) by {
        lemma_fwd_stable(f1, f, l0.pairs@[i].0);
        lemma_fwd_stable(f1, f, l0.pairs@[i].1);
    }
}

/// A rewritten table stays rewritten as the forwarding grows.
pub proof fn lemma_table_stable(f1: RuntimeForward, f: RuntimeForward, m0: Map<Symbol, Value>, m1: Map<Symbol, Value>)
    requires
        ext(f1, f),
        forall|k: Symbol| #[trigger] m0.contains_key(k) ==> done(f1, m0[k]) && m1[k] == fwd_value(f1, m0[k]),
    ensures
        forall|k: Symbol| #[trigger] m0.contains_key(k) ==> done(f, m0[k]) && m1[k] == fwd_value(f, m0[k]),
{
    assert forall|k: Symbol| #[trigger] m0.contains_key(k) implies done(f, m0[k]) && m1[k] == fwd_value(f, m0[k]) by {
        lemma_fwd_stable(f1, f, m0[k]);
    }
}

/// Rewritten frame handles stay rewritten as the forwarding grows.
pub proof fn lemma_envs_stable(f1: RuntimeForward, f: RuntimeForward, s: Seq<EnvId>)
    requires
        ext(f1, f),
        envs_done(f1, s),
    ensures
        envs_done(f, s),
        fenvs(f, s) == fenvs(f1, s),
{
    assert forall|i: int| 0 <= i < s.len() implies env_done(f, #[trigger] s[i]) && fwd_env(f, s[i]) == fwd_env(f1, s[i]) by {
        lemma_env_stable(f1, f, s[i]);
    }
    assert(fenvs(f, s) =~= fenvs(f1, s));
}

/// Rewritten slabs stay rewritten as the forwarding grows.
pub proof fn lemma_slabs_stable(f1: RuntimeForward, f: RuntimeForward, l0: CodeSlabs, l1: CodeSlabs)
    requires
        ext(f1, f),
        slabs_rewritten(f1, l0, l1),
    ensures
        slabs_rewritten(f, l0, l1),
{
    lemma_rewritten_stable(f1, f, l0, l1);
    lemma_lists_stable(f1, f, l0.vectors@, l1.vectors@);
    lemma_lists_stable(f1, f, l0.maps@, l1.maps@);
    lemma_closures_stable(f1, f, l0.closures@, l1.closures@);
    assert forall|i: int| 0 <= i < l0.envs@.len() implies vars_done(f, (#[trigger] l0.envs@[i]).vars@) && l1.envs@[i].vars@ == fvars(f, l0.envs@[i].vars@)
        && opt_env_done(f, l0.envs@[i].parent) && l1.envs@[i].parent == fwd_opt_env(f, l0.envs@[i].parent) by {
        lemma_vars_stable(f1, f, l0.envs@[i].vars@);
        lemma_opt_env_stable(f1, f, l0.envs@[i].parent);
    }
}

} // verus!
