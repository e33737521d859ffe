//! Definition sites and the per-global name facts: where each global was
//! defined (the runtime's table over the prelude's), which globals are
//! module-private, and their stability metadata, with the snapshot/restore pairs
//! the prelude image and `%isolate` use.

use vstd::prelude::*;
use vstd::std_specs::iter::IteratorSpec;
use crate::value::Symbol;
use crate::heap::Heap;
use crate::runtime_code::{NameMeta, Pos, RuntimeCode, SourceLoc};
use crate::positions::copy_source_loc;

verus! {

broadcast use vstd::std_specs::hash::group_hash_axioms;

/// `r` lists the entries of `m`: each key once, with its value.
pub open spec fn lists_map<V>(r: Seq<(Symbol, V)>, m: Map<Symbol, V>) -> bool {
    &&& r.len() == m.dom().len()
    &&& forall|i: int| 0 <= i < r.len() ==> #[trigger] m.contains_key(r[i].0) && m[r[i].0] == r[i].1
    &&& forall|k: Symbol| #[trigger] m.contains_key(k) ==> exists|i: int| 0 <= i < r.len() && r[i].0 == k
    &&& forall|i: int, j: int| 0 <= i < j < r.len() ==> r[i].0 != r[j].0
}

/// The definition site `name` resolves to: the runtime's record, else the
/// prelude's.
pub open spec fn spec_def_site(h: &Heap, name: Symbol) -> Option<SourceLoc> {
    if h.runtime.def_sites@.contains_key(name) {
        Some(h.runtime.def_sites@[name])
    } else if h.prelude_def_sites@.contains_key(name) {
        Some(h.prelude_def_sites@[name])
    } else {
        None
    }
}

/// A copy of a map's entries, when the values are locations.
fn def_site_entries(m: &std::collections::HashMap<Symbol, SourceLoc>) -> (r: Vec<(Symbol, SourceLoc)>)
    ensures
        lists_map(r@, m@),
{
    let mut out: Vec<(Symbol, SourceLoc)> = Vec::new();
    let ghost full = m.iter().remaining();
    for e in it: m.iter()
        invariant
            full == m.iter().remaining(),
            it.seq() == full,
            full.no_duplicates(),
            full.len() == m@.dom().len(),
            forall|i: int|
                #![trigger m@.contains_key(*full[i].0)]
                0 <= i < full.len() ==> m@.contains_key(*full[i].0) && m@[*full[i].0] == *full[i].1,
            forall|k: Symbol| #[trigger] m@.contains_key(k) ==> full.contains((&k, &m@[k])),
            out@.len() == it.index(),
            forall|j: int| 0 <= j < out@.len() ==> #[trigger] out@[j] == (*full[j].0, *full[j].1),
    {
        let (k, v) = e;
        out.push((*k, copy_source_loc(v)));
    }
    proof {
        lemma_entries_listed(out@, m@, full);
    }
    out
}

/// A copy of a map's entries, when the values are metadata records.
fn meta_entries(m: &std::collections::HashMap<Symbol, NameMeta>) -> (r: Vec<(Symbol, NameMeta)>)
    ensures
        lists_map(r@, m@),
{
    let mut out: Vec<(Symbol, NameMeta)> = Vec::new();
    let ghost full = m.iter().remaining();
    for e in it: m.iter()
        invariant
            full == m.iter().remaining(),
            it.seq() == full,
            full.no_duplicates(),
            full.len() == m@.dom().len(),
            forall|i: int|
                #![trigger m@.contains_key(*full[i].0)]
                0 <= i < full.len() ==> m@.contains_key(*full[i].0) && m@[*full[i].0] == *full[i].1,
            forall|k: Symbol| #[trigger] m@.contains_key(k) ==> full.contains((&k, &m@[k])),
            out@.len() == it.index(),
            forall|j: int| 0 <= j < out@.len() ==> #[trigger] out@[j] == (*full[j].0, *full[j].1),
    {
        let (k, v) = e;
        out.push((*k, v.duplicate()));
    }
    proof {
        lemma_entries_listed(out@, m@, full);
    }
    out
}

/// A copy of every entry of a map, taken in its iteration order, lists the map.
proof fn lemma_entries_listed<V>(out: Seq<(Symbol, V)>, m: Map<Symbol, V>, full: Seq<(&Symbol, &V)>)
    requires
        out.len() == full.len(),
        full.no_duplicates(),
        full.len() == m.dom().len(),
        forall|i: int|
            #![trigger m.contains_key(*full[i].0)]
            0 <= i < full.len() ==> m.contains_key(*full[i].0) && m[*full[i].0] == *full[i].1,
        forall|k: Symbol| #[trigger] m.contains_key(k) ==> full.contains((&k, &m[k])),
        forall|j: int| 0 <= j < out.len() ==> #[trigger] out[j] == (*full[j].0, *full[j].1),
    ensures
        lists_map(out, m),
{
    assert forall|i: int| 0 <= i < out.len() implies #[trigger] m.contains_key(out[i].0) && m[out[i].0]
        == out[i].1 by {
        assert(out[i] == (*full[i].0, *full[i].1));
        assert(m.contains_key(*full[i].0));
    }
    assert forall|k: Symbol| #[trigger] m.contains_key(k) implies exists|i: int|
        0 <= i < out.len() && out[i].0 == k by {
        assert(full.contains((&k, &m[k])));
        let i = choose|i: int| 0 <= i < full.len() && full[i] == (&k, &m[k]);
        assert(out[i] == (*full[i].0, *full[i].1));
    }
    assert forall|i: int, j: int| 0 <= i < j < out.len() implies out[i].0 != out[j].0 by {
        assert(out[i] == (*full[i].0, *full[i].1));
        assert(out[j] == (*full[j].0, *full[j].1));
        assert(m.contains_key(*full[i].0));
        assert(m.contains_key(*full[j].0));
        if out[i].0 == out[j].0 {
            assert(full[i] == full[j]);
        }
    }
}

impl Heap {
    /// Every definition site this runtime recorded, once each.
    pub fn def_sites_snapshot(&self) -> (r: Vec<(Symbol, SourceLoc)>)
        ensures
            lists_map(r@, self.runtime.def_sites@),
    {
        def_site_entries(&self.runtime.def_sites)
    }

    /// Reinstate a definition site verbatim, with its file given explicitly.
    pub fn set_def_site(&mut self, name: Symbol, loc: SourceLoc)
        requires
            old(self).wf(),
        ensures
            final(self).wf(),
            final(self).runtime.def_sites@ == old(self).runtime.def_sites@.insert(name, loc),
            final(self).runtime == (RuntimeCode {
                def_sites: final(self).runtime.def_sites,
                ..old(self).runtime
            }),
            final(self).same_but_runtime(&*old(self)),
    {
        self.runtime.def_sites.insert(name, loc);
    }

    /// Record `name`'s definition at `pos` in the current file; a no-op when no
    /// file is being loaded.
    pub fn record_def_site(&mut self, name: Symbol, pos: Pos)
        requires
            old(self).wf(),
        ensures
            final(self).wf(),
            (match old(self).cold.current_file {
                Some(f) => final(self).runtime.def_sites@ == old(self).runtime.def_sites@.insert(
                    name,
                    SourceLoc { file: f, pos: pos },
                ),
                None => final(self).runtime.def_sites@ == old(self).runtime.def_sites@,
            }),
            final(self).runtime == (RuntimeCode {
                def_sites: final(self).runtime.def_sites,
                ..old(self).runtime
            }),
            final(self).same_but_runtime(&*old(self)),
    {
        let file = match &self.cold.current_file {
            Some(f) => f.clone(),
            None => return ,
        };
        self.runtime.def_sites.insert(name, SourceLoc { file, pos });
    }

    /// Where `name`'s global definition was loaded from: the runtime's record
    /// takes precedence over the prelude's.
    pub fn def_site(&self, name: Symbol) -> (r: Option<SourceLoc>)
        ensures
            r == spec_def_site(self, name),
    {
        match self.runtime.def_sites.get(&name) {
            Some(loc) => Some(copy_source_loc(loc)),
            None => match self.prelude_def_sites.get(&name) {
                Some(loc) => Some(copy_source_loc(loc)),
                None => None,
            },
        }
    }

    /// Is the global `sym` module-private?
    pub fn is_private(&self, sym: Symbol) -> (r: bool)
        ensures
            r == self.runtime.private@.contains(sym),
    {
        self.runtime.is_private_recorded(sym)
    }

    /// Record the global `sym` as module-private.
    pub fn mark_private(&mut self, sym: Symbol)
        requires
            old(self).wf(),
        ensures
            final(self).wf(),
            final(self).runtime.private@ == old(self).runtime.private@.insert(sym),
            final(self).runtime == (RuntimeCode {
                private: final(self).runtime.private,
                ..old(self).runtime
            }),
            final(self).same_but_runtime(&*old(self)),
    {
        self.runtime.mark_private(sym);
    }

    /// Record `sym`'s stability metadata.
    pub fn set_name_meta(&mut self, sym: Symbol, meta: NameMeta)
        requires
            old(self).wf(),
        ensures
            final(self).wf(),
            final(self).runtime.meta@ == old(self).runtime.meta@.insert(sym, meta),
            final(self).runtime == (RuntimeCode { meta: final(self).runtime.meta, ..old(self).runtime }),
            final(self).same_but_runtime(&*old(self)),
    {
        self.runtime.set_meta(sym, meta);
    }

    /// `sym`'s stability metadata, if any was recorded.
    pub fn name_meta(&self, sym: Symbol) -> (r: Option<NameMeta>)
        ensures
            r is Some <==> self.runtime.meta@.contains_key(sym),
            r matches Some(m) ==> m == self.runtime.meta@[sym],
    {
        self.runtime.meta_of(sym)
    }

    /// Every recorded stability metadata entry, once each.
    pub fn name_meta_snapshot(&self) -> (r: Vec<(Symbol, NameMeta)>)
        ensures
            lists_map(r@, self.runtime.meta@),
    {
        meta_entries(&self.runtime.meta)
    }

    /// The module-private names, once each.
    pub fn private_names_snapshot(&self) -> (r: Vec<Symbol>)
        ensures
            r@.to_set() == self.runtime.private@,
            r@.no_duplicates(),
    {
        let mut out: Vec<Symbol> = Vec::new();
        let ghost full: Seq<Symbol> = self.runtime.private.iter().remaining().unref();
        for x in it: self.runtime.private.iter()
            invariant
                full == self.runtime.private.iter().remaining().unref(),
                full.to_set() == self.runtime.private@,
                full.no_duplicates(),
                it.seq().unref() == full,
                out@ == full.take(it.index() as int),
        {
            proof {
                assert(full.take(it.index() + 1) == full.take(it.index() as int).push(full[it.index() as int]));
            }
            out.push(*x);
        }
        proof {
            assert(full.take(full.len() as int) == full);
        }
        out
    }

    /// Replace the module-private set with `names`: marks made since the
    /// snapshot are dropped, never merged.
    pub fn restore_private_names(&mut self, names: Vec<Symbol>)
        requires
            old(self).wf(),
        ensures
            final(self).wf(),
            final(self).runtime.private@ == names@.to_set(),
            final(self).runtime == (RuntimeCode {
                private: final(self).runtime.private,
                ..old(self).runtime
            }),
            final(self).same_but_runtime(&*old(self)),
    {
        self.runtime.restore_private(names);
    }
}

} // verus!
