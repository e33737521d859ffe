//! Promotion: copying a value's reachable structure out of a process's local
//! slabs into the current RUNTIME generation, where every process can read it.
//! The copy engine reserves each object's slot before copying what it holds,
//! so cyclic structure (a closure capturing its own scope) terminates and
//! shared structure is copied once.

use vstd::prelude::*;
use crate::value::{Value, LOCAL};
use crate::heap::Heap;
use crate::runtime_code::{CodeSlabs, RuntimeCode, FormPos, rt_pos_key, spec_rt_pos_key};
use std::collections::HashMap;
use crate::reach::{NodeKind, slab_len};
use crate::flush::{
    RuntimeForward, table, fwd_wf, fwd_value, done, in_src, src_closed, frame, covered, nones,
    lemma_src_closed_ext, flush_rt_value,
};
use crate::collect::{all_copied, lemma_all_copied_step};
use crate::rt_collect::{gen_fwd, rehomable, rehomed, spec_value_in_gen};

verus! {

/// The state promoting `v` may run from: the local slabs hold no dangling local
/// handle, `v` points inside them, and the current generation has room for
/// their copies.
pub open spec fn promotable(h: Heap, v: Value) -> bool {
    let d = h.runtime.spec_gen(h.runtime.current_gen as int);
    &&& src_closed(h.local, gen_fwd(LOCAL, 0))
    &&& in_src(h.local, gen_fwd(LOCAL, 0), v)
    &&& forall|k: NodeKind| #[trigger] slab_len(d, k) + slab_len(h.local, k) < 0x1_0000_0000
}

/// `v`'s local sub-graph copied through `f` into the current generation of `h1`,
/// and `r` is `v` rewritten to the copy.
pub open spec fn promoted(h0: Heap, h1: Heap, f: RuntimeForward, v: Value, r: Value) -> bool {
    let c = h0.runtime.current_gen;
    let d0 = h0.runtime.spec_gen(c as int);
    let d1 = h1.runtime.spec_gen(c as int);
    &&& f.src_region == LOCAL
    &&& f.dest_gen == c
    &&& fwd_wf(h0.local, d1, f)
    &&& all_copied(h0.local, d1, f)
    &&& frame(d0, d1)
    &&& covered(d0, d1, f)
    &&& done(f, v)
    &&& r == fwd_value(f, v)
    &&& h1.runtime.spec_gen(1 - c) == h0.runtime.spec_gen(1 - c)
    &&& positions_carried(h0.cold.form_pos@, h0.runtime.positions@, h1.runtime.positions@, f, c)
}

/// The form position of every LOCAL cell the copy `f` moved into generation `dest`
/// now also sits under the copy's RUNTIME key; no position was lost.
pub open spec fn positions_carried(
    local: Map<u64, FormPos>,
    p0: Map<u64, FormPos>,
    p1: Map<u64, FormPos>,
    f: RuntimeForward,
    dest: usize,
) -> bool {
    &&& forall|k: u64| #[trigger] p0.contains_key(k) ==> p1.contains_key(k)
    &&& forall|i: int|
        0 <= i < f.pairs@.len() && (#[trigger] f.pairs@[i]) is Some && f.pairs@[i]->0
            < 0x1_0000_0000 && local.contains_key(i as u64) ==> p1.contains_key(
            spec_rt_pos_key((f.pairs@[i]->0) as nat, dest as nat),
        ) && p1[spec_rt_pos_key((f.pairs@[i]->0) as nat, dest as nat)] == local[i as u64]
}

/// Carries the position of each LOCAL cell `f` copied to its copy's key in
/// generation `dest`.
fn carry_local_positions(
    local: &HashMap<u64, FormPos>,
    p: &mut HashMap<u64, FormPos>,
    f: &RuntimeForward,
    dest: usize,
)
    requires
        dest < 2,
        forall|i1: int, i2: int|
            0 <= i1 < f.pairs@.len() && 0 <= i2 < f.pairs@.len() && (#[trigger] f.pairs@[i1]) is Some
                && #[trigger] f.pairs@[i2] == f.pairs@[i1] ==> i1 == i2,
    ensures
        positions_carried(local@, old(p)@, final(p)@, *f, dest),
{
    let mut i: usize = 0;
    while i < f.pairs.len()
        invariant
            i <= f.pairs@.len(),
            dest < 2,
            forall|i1: int, i2: int|
                0 <= i1 < f.pairs@.len() && 0 <= i2 < f.pairs@.len() && (#[trigger] f.pairs@[i1]) is Some
                    && #[trigger] f.pairs@[i2] == f.pairs@[i1] ==> i1 == i2,
            forall|k: u64| #[trigger] old(p)@.contains_key(k) ==> p@.contains_key(k),
            forall|j: int|
                0 <= j < i && (#[trigger] f.pairs@[j]) is Some && f.pairs@[j]->0 < 0x1_0000_0000
                    && local@.contains_key(j as u64) ==> p@.contains_key(
                    spec_rt_pos_key((f.pairs@[j]->0) as nat, dest as nat),
                ) && p@[spec_rt_pos_key((f.pairs@[j]->0) as nat, dest as nat)] == local@[j as u64],
        decreases f.pairs@.len() - i,
    {
        if let Some(n) = f.pairs[i] {
            if (n as u64) < 0x1_0000_0000u64 {
                match local.get(&(i as u64)) {
                    Some(e) => {
                        let key = rt_pos_key(n, dest);
                        let ghost before = p@;
                        p.insert(key, crate::positions::copy_form_pos(e));
                        proof {
                            assert forall|j: int|
                                0 <= j < i && (#[trigger] f.pairs@[j]) is Some && f.pairs@[j]->0
                                    < 0x1_0000_0000 && local@.contains_key(j as u64) implies p@.contains_key(
                                    spec_rt_pos_key((f.pairs@[j]->0) as nat, dest as nat),
                                ) && p@[spec_rt_pos_key((f.pairs@[j]->0) as nat, dest as nat)]
                                    == local@[j as u64] by {
                                let kj = spec_rt_pos_key((f.pairs@[j]->0) as nat, dest as nat);
                                if kj == key {
                                    assert(f.pairs@[j]->0 == n) by {
                                        let a = (f.pairs@[j]->0) as nat;
                                        let b = n as nat;
                                        assert((dest * 0x1_0000_0000 + a) % 0x1_0000_0000_0000_0000
                                            == dest * 0x1_0000_0000 + a);
                                        assert((dest * 0x1_0000_0000 + b) % 0x1_0000_0000_0000_0000
                                            == dest * 0x1_0000_0000 + b);
                                    }
                                    assert(f.pairs@[j] == f.pairs@[i as int]);
                                    assert(j == i);
                                }
                            }
                        }
                    },
                    None => {},
                }
            }
        }
        i = i + 1;
    }
}

impl Heap {
    /// Deep-copies `v`'s local structure into the current RUNTIME generation and
    /// returns the shared handle. Atoms and values already shared come back
    /// unchanged. The region only grows: a redefinition adds a version while
    /// in-flight calls keep running the old one. Marks the region dirty when a
    /// closure entered it.
    pub fn promote(&mut self, v: Value) -> (r: Value)
        requires
            old(self).wf(),
            promotable(*old(self), v),
        ensures
            final(self).wf(),
            exists|f: RuntimeForward| #[trigger] promoted(*old(self), *final(self), f, v, r),
            final(self).runtime == (RuntimeCode {
                gen0: final(self).runtime.gen0,
                gen1: final(self).runtime.gen1,
                rt_dirty: final(self).runtime.rt_dirty,
                positions: final(self).runtime.positions,
                ..old(self).runtime
            }),
            final(self).runtime.rt_dirty == (old(self).runtime.rt_dirty || final(self).runtime.spec_gen(
                old(self).runtime.current_gen as int,
            ).closures@.len() > old(self).runtime.spec_gen(old(self).runtime.current_gen as int).closures@.len()),
            final(self).same_but_runtime(&*old(self)),
    {
        let cur = self.runtime.cur_gen();
        let ghost h0 = *self;
        let before = self.runtime.gen_slabs(cur).closures.len();
        let mut fwd = RuntimeForward::for_gens(LOCAL, 0, cur, &self.local);
        let ghost f0 = fwd;
        proof {
            assert(self.runtime.spec_gen(0) == self.runtime.gen0);
            assert(self.runtime.spec_gen(1) == self.runtime.gen1);
            lemma_src_closed_ext(self.local, gen_fwd(LOCAL, 0), fwd);
            assert(fwd_wf(self.local, self.runtime.spec_gen(cur as int), fwd));
            assert(all_copied(self.local, self.runtime.spec_gen(cur as int), fwd));
        }
        let r = if cur == 0 {
            flush_rt_value(&self.local, &mut self.runtime.gen0, &mut fwd, v)
        } else {
            flush_rt_value(&self.local, &mut self.runtime.gen1, &mut fwd, v)
        };
        let after = self.runtime.gen_slabs(cur).closures.len();
        if after > before {
            self.runtime.rt_dirty = true;
        }
        proof {
            assert forall|i1: int, i2: int|
                0 <= i1 < fwd.pairs@.len() && 0 <= i2 < fwd.pairs@.len() && (#[trigger] fwd.pairs@[i1]) is Some
                    && #[trigger] fwd.pairs@[i2] == fwd.pairs@[i1] implies i1 == i2 by {
                assert(table(fwd, NodeKind::Pair)[i1] == fwd.pairs@[i1]);
                assert(table(fwd, NodeKind::Pair)[i2] == fwd.pairs@[i2]);
            }
        }
        carry_local_positions(&self.cold.form_pos, &mut self.runtime.positions, &fwd, cur);
        proof {
            lemma_all_copied_step(h0.local, h0.runtime.spec_gen(cur as int), f0, self.runtime.spec_gen(cur as int), fwd);
            assert(promoted(h0, *self, fwd, v, r));
        }
        r
    }
}

/// The RUNTIME region is append-only under promotion: promoting a value into
/// the current generation never lowers that generation's closure count.
pub proof fn law_promote_never_shrinks_closures(h0: Heap, h1: Heap, f: RuntimeForward, v: Value, r: Value)
    requires
        promoted(h0, h1, f, v, r),
    ensures
        h1.runtime.spec_gen(h0.runtime.current_gen as int).closures@.len()
            >= h0.runtime.spec_gen(h0.runtime.current_gen as int).closures@.len(),
{
    let c = h0.runtime.current_gen as int;
    assert(slab_len(h0.runtime.spec_gen(c), NodeKind::Closure) <= slab_len(h1.runtime.spec_gen(c), NodeKind::Closure));
}

} // verus!
