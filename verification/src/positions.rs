//! Source positions, compilation context and definition sites: the position of
//! every LOCAL list form (and the expander's synthetic mark), the per-process
//! compilation context (current file, namespace, package context, forward-reference
//! names, the `(:use …)` import table), and the cross-file definition sites and
//! name facts.

use vstd::prelude::*;
use std::collections::HashMap;
use std::collections::HashSet;
use crate::value::{Symbol, Value, Handle, LOCAL, RUNTIME, spec_canonical};
use crate::heap::{Heap, ImportEntry, copy_symbol_set};
use crate::runtime_code::{
    FormPos, Pos, SourceLoc, NameMeta, RuntimeCode, clone_opt_string, rt_pos_key, spec_rt_pos_key,
};
use crate::symbols::{SymbolTable, chars_le, sort_by_spelling, lemma_permutation_keeps_set};
use vstd::std_specs::iter::IteratorSpec;

verus! {

broadcast use vstd::std_specs::hash::group_hash_axioms;

/// The key a LOCAL form's position is recorded under: its canonical handle.
pub open spec fn spec_form_pos_key(id: Handle) -> u64 {
    spec_canonical(id.0)
}

/// The key a LOCAL form's position is recorded under.
pub fn form_pos_key(id: Handle) -> (r: u64)
    ensures
        r == spec_form_pos_key(id),
{
    id.canonical()
}

/// The pair handle of a list form, if it is one.
pub open spec fn spec_as_pair(v: Value) -> Option<Handle> {
    match v {
        Value::Pair(h) => Some(h),
        _ => None,
    }
}

/// A copy of a form position record.
pub fn copy_form_pos(e: &FormPos) -> (r: FormPos)
    ensures
        r == *e,
{
    FormPos { pos: e.pos, file: clone_opt_string(&e.file), synthetic: e.synthetic }
}

/// A copy of a definition site.
pub fn copy_source_loc(e: &SourceLoc) -> (r: SourceLoc)
    ensures
        r == *e,
{
    SourceLoc { file: e.file.clone(), pos: e.pos }
}

/// Two import entries name the same import.
pub open spec fn same_import(a: ImportEntry, b: ImportEntry) -> bool {
    match (a, b) {
        (ImportEntry::One(x), ImportEntry::One(y)) => x == y,
        (ImportEntry::Ambiguous(x), ImportEntry::Ambiguous(y)) => x@ == y@,
        _ => false,
    }
}

/// A copy of an import entry.
pub fn copy_import(e: &ImportEntry) -> (r: ImportEntry)
    ensures
        same_import(r, *e),
{
    match e {
        ImportEntry::One(q) => ImportEntry::One(*q),
        ImportEntry::Ambiguous(v) => ImportEntry::Ambiguous(v.clone()),
    }
}

/// The position record a form has, read from whichever table holds it: LOCAL
/// forms from this process's table, RUNTIME forms by generation and index.
pub open spec fn spec_form_record(h: &Heap, v: Value) -> Option<FormPos> {
    match spec_as_pair(v) {
        Some(id) => if id.spec_region() == LOCAL {
            if h.cold.form_pos@.contains_key(spec_form_pos_key(id)) {
                Some(h.cold.form_pos@[spec_form_pos_key(id)])
            } else {
                None
            }
        } else if id.spec_region() == RUNTIME && id.spec_stamp() < 2 && id.spec_index()
            < 0x1_0000_0000 {
            let key = spec_rt_pos_key(id.spec_index(), id.spec_stamp() as nat);
            if h.runtime.positions@.contains_key(key) {
                Some(h.runtime.positions@[key])
            } else {
                None
            }
        } else {
            None
        },
        None => None,
    }
}


/// The candidates a prior import entry contributes to an ambiguous one.
pub open spec fn prior_candidates(imports: Map<Symbol, ImportEntry>, bare: Symbol) -> Seq<Symbol> {
    if imports.contains_key(bare) {
        match imports[bare] {
            ImportEntry::One(q) => seq![q],
            ImportEntry::Ambiguous(v) => v@,
        }
    } else {
        Seq::empty()
    }
}

/// Non-decreasing order.
pub open spec fn sorted_symbols(s: Seq<Symbol>) -> bool {
    forall|i: int, j: int| 0 <= i <= j < s.len() ==> s[i] <= s[j]
}

/// Does `v` hold `x`?
pub fn vec_contains(v: &Vec<Symbol>, x: Symbol) -> (r: bool)
    ensures
        r == v@.contains(x),
{
    let mut i: usize = 0;
    while i < v.len()
        invariant
            i <= v@.len(),
            forall|j: int| 0 <= j < i ==> v@[j] != x,
        decreases v@.len() - i,
    {
        if v[i] == x {
            return true;
        }
        i = i + 1;
    }
    false
}

/// Sort symbols in place (insertion sort).
pub fn sort_symbols(v: &mut Vec<Symbol>)
    ensures
        sorted_symbols(final(v)@),
        final(v)@.to_multiset() == old(v)@.to_multiset(),
        final(v)@.len() == old(v)@.len(),
{
    broadcast use vstd::seq_lib::group_to_multiset_ensures;

    let n = v.len();
    let mut i: usize = 1;
    if n == 0 {
        return;
    }
    while i < n
        invariant
            1 <= i <= n,
            n == v@.len(),
            sorted_symbols(v@.take(i as int)),
            v@.to_multiset() == old(v)@.to_multiset(),
        decreases n - i,
    {
        let mut j: usize = i;
        proof {
            assert forall|a: int, b: int| 0 <= a <= b <= i && a != j && b != j implies v@[a]
                <= v@[b] by {
                assert(v@.take(i as int)[a] == v@[a]);
                assert(v@.take(i as int)[b] == v@[b]);
            }
        }
        while j > 0 && v[j - 1] > v[j]
            invariant
                0 <= j <= i < n,
                n == v@.len(),
                v@.to_multiset() == old(v)@.to_multiset(),
                forall|a: int, b: int| 0 <= a <= b <= i && a != j && b != j ==> v@[a] <= v@[b],
                forall|b: int| j < b <= i ==> v@[j as int] <= v@[b],
            decreases j,
        {
            let a = v[j - 1];
            let b = v[j];
            let ghost before = v@;
            v.set(j - 1, b);
            v.set(j, a);
            proof {
                assert(v@ == before.update(j - 1, b).update(j as int, a));
                assert(v@.to_multiset() =~= before.to_multiset()) by {
                    lemma_swap_multiset(before, j - 1, j as int);
                }
            }
            j = j - 1;
        }
        proof {
            let t = v@.take(i + 1);
            assert forall|a: int, b: int| 0 <= a <= b < t.len() implies #[trigger] t[a]
                <= #[trigger] t[b] by {
                assert(t[a] == v@[a]);
                assert(t[b] == v@[b]);
                if a == j && b != j {
                } else if b == j && a != j {
                    assert(v@[a] <= v@[j - 1]);
                } else {
                }
            }
        }
        i = i + 1;
    }
    proof {
        assert(v@.take(n as int) == v@);
    }
}

/// Swapping two positions keeps the multiset.
pub proof fn lemma_swap_multiset(s: Seq<Symbol>, a: int, b: int)
    requires
        0 <= a < s.len(),
        0 <= b < s.len(),
    ensures
        s.update(a, s[b]).update(b, s[a]).to_multiset() == s.to_multiset(),
{
    broadcast use vstd::seq_lib::group_to_multiset_ensures;

    let t = s.update(a, s[b]);
    if a != b {
        assert(t[b] == s[b]);
        assert(t.to_multiset() == s.to_multiset().insert(s[b]).remove(s[a]));
        assert(t.update(b, s[a]).to_multiset() == t.to_multiset().insert(s[a]).remove(s[b]));
        assert(t.update(b, s[a]).to_multiset() =~= s.to_multiset());
    } else {
        assert(t.update(b, s[a]) =~= s);
    }
}

impl Heap {
    /// Record the source position of a LOCAL list form, with the current file. A
    /// no-op for atoms and forms in the shared regions.
    pub fn set_form_pos(&mut self, v: Value, pos: Pos)
        ensures
            (match spec_as_pair(v) {
                Some(id) if id.spec_region() == LOCAL => final(self).cold.form_pos@ == old(self).cold.form_pos@.insert(
                    spec_form_pos_key(id),
                    FormPos { pos: pos, file: old(self).cold.current_file, synthetic: false },
                ),
                _ => final(self).cold.form_pos@ == old(self).cold.form_pos@,
            }),
            final(self).runtime == old(self).runtime,
            final(self).cold.current_file == old(self).cold.current_file,
            final(self).cold.imports == old(self).cold.imports,
    {
        if let Value::Pair(id) = v {
            if id.region() == LOCAL {
                let file = clone_opt_string(&self.cold.current_file);
                self.cold.form_pos.insert(
                    form_pos_key(id),
                    FormPos { pos, file, synthetic: false },
                );
            }
        }
    }

    /// Set a LOCAL list form's position with an explicit file.
    pub fn set_form_pos_in_file(&mut self, v: Value, pos: Pos, file: Option<String>)
        ensures
            (match spec_as_pair(v) {
                Some(id) if id.spec_region() == LOCAL => final(self).cold.form_pos@ == old(self).cold.form_pos@.insert(
                    spec_form_pos_key(id),
                    FormPos { pos: pos, file: file, synthetic: false },
                ),
                _ => final(self).cold.form_pos@ == old(self).cold.form_pos@,
            }),
            final(self).runtime == old(self).runtime,
            final(self).cold.current_file == old(self).cold.current_file,
    {
        if let Value::Pair(id) = v {
            if id.region() == LOCAL {
                self.cold.form_pos.insert(form_pos_key(id), FormPos { pos, file, synthetic: false });
            }
        }
    }

    /// Mark a LOCAL list form that already has a position as expander-built.
    pub fn mark_synthetic(&mut self, v: Value)
        ensures
            (match spec_as_pair(v) {
                Some(id) if id.spec_region() == LOCAL && old(self).cold.form_pos@.contains_key(
                    spec_form_pos_key(id),
                ) => final(self).cold.form_pos@ == old(self).cold.form_pos@.insert(
                    spec_form_pos_key(id),
                    FormPos { synthetic: true, ..old(self).cold.form_pos@[spec_form_pos_key(id)] },
                ),
                _ => final(self).cold.form_pos@ == old(self).cold.form_pos@,
            }),
            final(self).runtime == old(self).runtime,
    {
        if let Value::Pair(id) = v {
            if id.region() == LOCAL {
                let key = form_pos_key(id);
                match self.cold.form_pos.remove(&key) {
                    Some(e) => {
                        self.cold.form_pos.insert(key, FormPos { synthetic: true, ..e });
                    },
                    None => {},
                }
            }
        }
    }

    /// The position record of a list form, from whichever table holds it.
    pub fn form_record(&self, v: Value) -> (r: Option<FormPos>)
        ensures
            r == spec_form_record(self, v),
    {
        if let Value::Pair(id) = v {
            let region = id.region();
            if region == LOCAL {
                match self.cold.form_pos.get(&form_pos_key(id)) {
                    Some(e) => Some(copy_form_pos(e)),
                    None => None,
                }
            } else if region == RUNTIME && id.code_gen() < 2 {
                match self.runtime.positions.get(&rt_pos_key(id.index(), id.code_gen())) {
                    Some(e) => Some(copy_form_pos(e)),
                    None => None,
                }
            } else {
                None
            }
        } else {
            None
        }
    }

    /// Copy `from`'s whole position record — position, file and synthetic mark —
    /// onto the LOCAL list form `to`.
    pub fn copy_form_pos(&mut self, from: Value, to: Value)
        ensures
            (match (spec_form_record(&*old(self), from), spec_as_pair(to)) {
                (Some(e), Some(tid)) if tid.spec_region() == LOCAL => final(self).cold.form_pos@
                    == old(self).cold.form_pos@.insert(spec_form_pos_key(tid), e),
                _ => final(self).cold.form_pos@ == old(self).cold.form_pos@,
            }),
            final(self).runtime == old(self).runtime,
    {
        let entry = self.form_record(from);
        if let (Some(e), Value::Pair(tid)) = (entry, to) {
            if tid.region() == LOCAL {
                self.cold.form_pos.insert(form_pos_key(tid), e);
            }
        }
    }

    /// Was this list form built by the expander rather than read from source?
    pub fn is_synthetic(&self, v: Value) -> (r: bool)
        ensures
            r == (spec_form_record(self, v) matches Some(e) && e.synthetic),
    {
        match self.form_record(v) {
            Some(e) => e.synthetic,
            None => false,
        }
    }

    /// The recorded source position and originating file of a list form.
    pub fn form_pos(&self, v: Value) -> (r: Option<(Pos, Option<String>)>)
        ensures
            r == (match spec_form_record(self, v) {
                Some(e) => Some((e.pos, e.file)),
                None => None,
            }),
    {
        match self.form_record(v) {
            Some(e) => Some((e.pos, e.file)),
            None => None,
        }
    }

    /// Just the position part of [`form_pos`](Self::form_pos).
    pub fn form_pos_only(&self, v: Value) -> (r: Option<Pos>)
        ensures
            r == (match spec_form_record(self, v) {
                Some(e) => Some(e.pos),
                None => None,
            }),
    {
        match self.form_record(v) {
            Some(e) => Some(e.pos),
            None => None,
        }
    }

    /// Set the file currently being loaded, returning the previous value.
    pub fn set_current_file(&mut self, file: Option<String>) -> (r: Option<String>)
        ensures
            r == old(self).cold.current_file,
            final(self).cold.current_file == file,
            final(self).cold.compile_ns == old(self).cold.compile_ns,
            final(self).cold.imports == old(self).cold.imports,
            final(self).cold.form_pos == old(self).cold.form_pos,
            final(self).runtime == old(self).runtime,
    {
        let mut prev = file;
        std::mem::swap(&mut self.cold.current_file, &mut prev);
        prev
    }

    /// The file currently being loaded.
    pub fn current_file(&self) -> (r: Option<&str>)
        ensures
            self.cold.current_file is None ==> r is None,
            self.cold.current_file matches Some(f) ==> (r matches Some(s) && s@ == f@),
    {
        match &self.cold.current_file {
            Some(f) => Some(f.as_str()),
            None => None,
        }
    }

    /// Set the namespace being compiled into, returning the prior one.
    pub fn set_compile_ns(&mut self, ns: Option<Symbol>) -> (r: Option<Symbol>)
        ensures
            r == old(self).cold.compile_ns,
            final(self).cold == (crate::heap::ColdHeap { compile_ns: ns, ..old(self).cold }),
            final(self).runtime == old(self).runtime,
    {
        let mut prev = ns;
        std::mem::swap(&mut self.cold.compile_ns, &mut prev);
        prev
    }

    /// The namespace currently being compiled into, or `None` at root.
    pub fn compile_ns(&self) -> (r: Option<Symbol>)
        ensures
            r == self.cold.compile_ns,
    {
        self.cold.compile_ns
    }

    /// Enter a package context, returning the prior `(prefix, modules)`. The
    /// memos derived from the replaced context are dropped.
    pub fn set_package_context(&mut self, prefix: Option<Symbol>, modules: HashSet<Symbol>) -> (r: (
        Option<Symbol>,
        HashSet<Symbol>,
    ))
        ensures
            r.0 == old(self).cold.package_prefix,
            r.1@ == old(self).cold.package_modules@,
            final(self).cold.package_prefix == prefix,
            final(self).cold.package_modules@ == modules@,
            final(self).rooted_ref_ic@ == Map::<Symbol, Option<Symbol>>::empty(),
            final(self).global_ic@ == Map::<Symbol, Value>::empty(),
            final(self).cold.imports == old(self).cold.imports,
            final(self).cold.compile_ns == old(self).cold.compile_ns,
            final(self).runtime == old(self).runtime,
    {
        let mut prev_prefix = prefix;
        std::mem::swap(&mut self.cold.package_prefix, &mut prev_prefix);
        let mut prev_modules = modules;
        std::mem::swap(&mut self.cold.package_modules, &mut prev_modules);
        self.rooted_ref_ic.clear();
        self.global_ic.clear();
        (prev_prefix, prev_modules)
    }

    /// The active package prefix, or `None` outside a dependency's load.
    pub fn package_prefix(&self) -> (r: Option<Symbol>)
        ensures
            r == self.cold.package_prefix,
    {
        self.cold.package_prefix
    }

    /// The active package context as `(prefix, modules)`.
    pub fn package_context(&self) -> (r: (Option<Symbol>, HashSet<Symbol>))
        ensures
            r.0 == self.cold.package_prefix,
            r.1@ == self.cold.package_modules@,
    {
        (self.cold.package_prefix, copy_symbol_set(&self.cold.package_modules))
    }

    /// Record the bare names the current-namespace file will define, returning
    /// the prior set.
    pub fn set_ns_known_names(&mut self, names: HashSet<Symbol>) -> (r: HashSet<Symbol>)
        ensures
            r@ == old(self).cold.ns_known_names@,
            final(self).cold.ns_known_names@ == names@,
            final(self).cold.imports == old(self).cold.imports,
            final(self).runtime == old(self).runtime,
    {
        let mut prev = names;
        std::mem::swap(&mut self.cold.ns_known_names, &mut prev);
        prev
    }

    /// Is `sym` known to be defined in the current namespace's file?
    pub fn ns_knows_name(&self, sym: Symbol) -> (r: bool)
        ensures
            r == self.cold.ns_known_names@.contains(sym),
    {
        self.cold.ns_known_names.contains(&sym)
    }

    /// Install the per-module forward-reference pre-scan, returning the prior map.
    pub fn set_ns_known_by_module(&mut self, map: HashMap<Symbol, HashSet<Symbol>>) -> (r: HashMap<
        Symbol,
        HashSet<Symbol>,
    >)
        ensures
            r@ == old(self).cold.ns_known_by_module@,
            final(self).cold.ns_known_by_module@ == map@,
            final(self).cold.ns_known_names == old(self).cold.ns_known_names,
            final(self).runtime == old(self).runtime,
    {
        let mut prev = map;
        std::mem::swap(&mut self.cold.ns_known_by_module, &mut prev);
        prev
    }

    /// Make module `bare`'s region the active forward-reference set; a no-op when
    /// no region is recorded for `bare`.
    pub fn activate_ns_region(&mut self, bare: Symbol)
        ensures
            old(self).cold.ns_known_by_module@.contains_key(bare) ==> final(self).cold.ns_known_names@ == old(self).cold.ns_known_by_module@[bare]@,
            !old(self).cold.ns_known_by_module@.contains_key(bare) ==> final(self).cold.ns_known_names@ == old(self).cold.ns_known_names@,
            final(self).cold.ns_known_by_module == old(self).cold.ns_known_by_module,
            final(self).runtime == old(self).runtime,
    {
        let names = match self.cold.ns_known_by_module.get(&bare) {
            Some(s) => Some(copy_symbol_set(s)),
            None => None,
        };
        if let Some(n) = names {
            self.cold.ns_known_names = n;
        }
    }

    /// Set whether an otherwise-unresolvable bare name is taken as this
    /// namespace's own, returning the prior setting.
    pub fn set_ns_assume_own(&mut self, on: bool) -> (r: bool)
        ensures
            r == old(self).cold.ns_assume_own,
            final(self).cold == (crate::heap::ColdHeap { ns_assume_own: on, ..old(self).cold }),
            final(self).runtime == old(self).runtime,
    {
        let mut prev = on;
        std::mem::swap(&mut self.cold.ns_assume_own, &mut prev);
        prev
    }

    /// Should an otherwise-unresolvable bare name be taken as this namespace's own?
    pub fn ns_assume_own(&self) -> (r: bool)
        ensures
            r == self.cold.ns_assume_own,
    {
        self.cold.ns_assume_own
    }

    /// Record one more bare name as defined in the current namespace's file.
    pub fn add_ns_known_name(&mut self, sym: Symbol)
        ensures
            final(self).cold.ns_known_names@ == old(self).cold.ns_known_names@.insert(sym),
            final(self).cold.imports == old(self).cold.imports,
            final(self).runtime == old(self).runtime,
    {
        self.cold.ns_known_names.insert(sym);
    }

    /// Replace the import table, returning the prior one.
    pub fn set_imports(&mut self, imports: HashMap<Symbol, ImportEntry>) -> (r: HashMap<
        Symbol,
        ImportEntry,
    >)
        ensures
            r@ == old(self).cold.imports@,
            final(self).cold.imports@ == imports@,
            final(self).runtime == old(self).runtime,
    {
        let mut prev = imports;
        std::mem::swap(&mut self.cold.imports, &mut prev);
        prev
    }

    /// Add one imported binding (bare name to qualified global).
    pub fn add_import(&mut self, bare: Symbol, qualified: Symbol)
        ensures
            final(self).cold.imports@ == old(self).cold.imports@.insert(
                bare,
                ImportEntry::One(qualified),
            ),
            final(self).runtime == old(self).runtime,
    {
        self.cold.imports.insert(bare, ImportEntry::One(qualified));
    }

    /// The qualified global a bare name was imported to, when it resolves to a
    /// single module; `None` for an unimported or ambiguous name.
    pub fn import_of(&self, bare: Symbol) -> (r: Option<Symbol>)
        ensures
            r == (if self.cold.imports@.contains_key(bare) {
                match self.cold.imports@[bare] {
                    ImportEntry::One(q) => Some(q),
                    ImportEntry::Ambiguous(_) => None,
                }
            } else {
                None
            }),
    {
        match self.cold.imports.get(&bare) {
            Some(ImportEntry::One(q)) => Some(*q),
            _ => None,
        }
    }

    /// The candidate qualified names of an ambiguous import, or `None`.
    pub fn ambiguous_import_of(&self, bare: Symbol) -> (r: Option<Vec<Symbol>>)
        ensures
            (self.cold.imports@.contains_key(bare) && self.cold.imports@[bare] is Ambiguous)
                ==> (r matches Some(v) && v@ == self.cold.imports@[bare]->Ambiguous_0@),
            !(self.cold.imports@.contains_key(bare) && self.cold.imports@[bare] is Ambiguous)
                ==> r is None,
    {
        match self.cold.imports.get(&bare) {
            Some(ImportEntry::Ambiguous(v)) => Some(v.clone()),
            _ => None,
        }
    }

    /// Record that a bare name is imported from several modules at once: demote a
    /// prior `One` to `Ambiguous`, or add a further candidate to an existing
    /// `Ambiguous`. Candidates are kept sorted and without duplicates.
    pub fn mark_import_ambiguous(&mut self, bare: Symbol, candidate: Symbol)
        ensures
            final(self).cold.imports@.contains_key(bare),
            final(self).cold.imports@[bare] is Ambiguous,
            sorted_symbols(final(self).cold.imports@[bare]->Ambiguous_0@),
            final(self).cold.imports@[bare]->Ambiguous_0@.to_multiset() == ({
                let prior = prior_candidates(old(self).cold.imports@, bare);
                if prior.contains(candidate) {
                    prior
                } else {
                    prior.push(candidate)
                }
            }).to_multiset(),
            forall|k: Symbol|
                k != bare ==> #[trigger] final(self).cold.imports@.contains_key(k) == old(
                    self,
                ).cold.imports@.contains_key(k) && (old(self).cold.imports@.contains_key(k)
                    ==> final(self).cold.imports@[k] == old(self).cold.imports@[k]),
            final(self).runtime == old(self).runtime,
    {
        let mut names: Vec<Symbol> = match self.cold.imports.remove(&bare) {
            Some(ImportEntry::One(q)) => {
                let mut v: Vec<Symbol> = Vec::new();
                v.push(q);
                v
            },
            Some(ImportEntry::Ambiguous(v)) => v,
            None => Vec::new(),
        };
        let ghost prior = names@;
        if !vec_contains(&names, candidate) {
            names.push(candidate);
        }
        let ghost unsorted = names@;
        sort_symbols(&mut names);
        self.cold.imports.insert(bare, ImportEntry::Ambiguous(names));
    }

    /// Add an imported binding, demoting to ambiguous on a clash: a fresh name
    /// becomes `One`; a second module contributing the same name, or a further one
    /// on an already ambiguous name, makes it `Ambiguous`; re-adding the identical
    /// qualified name is a no-op.
    pub fn add_import_lazy(&mut self, bare: Symbol, qualified: Symbol)
        ensures
            !old(self).cold.imports@.contains_key(bare) ==> final(self).cold.imports@ == old(
                self,
            ).cold.imports@.insert(bare, ImportEntry::One(qualified)),
            old(self).cold.imports@.contains_key(bare) && old(self).cold.imports@[bare]
                == ImportEntry::One(qualified) ==> final(self).cold.imports@ == old(
                self,
            ).cold.imports@,
            old(self).cold.imports@.contains_key(bare) && old(self).cold.imports@[bare]
                != ImportEntry::One(qualified) ==> ({
                let v = final(self).cold.imports@[bare];
                &&& final(self).cold.imports@.contains_key(bare)
                &&& v is Ambiguous
                &&& sorted_symbols(v->Ambiguous_0@)
                &&& v->Ambiguous_0@.to_multiset() == ({
                    let prior = prior_candidates(old(self).cold.imports@, bare);
                    if prior.contains(qualified) {
                        prior
                    } else {
                        prior.push(qualified)
                    }
                }).to_multiset()
            }),
            forall|k: Symbol|
                k != bare ==> #[trigger] final(self).cold.imports@.contains_key(k) == old(
                    self,
                ).cold.imports@.contains_key(k) && (old(self).cold.imports@.contains_key(k)
                    ==> final(self).cold.imports@[k] == old(self).cold.imports@[k]),
            final(self).runtime == old(self).runtime,
    {
        match self.import_of(bare) {
            Some(existing) => {
                if existing != qualified {
                    self.mark_import_ambiguous(bare, qualified);
                }
            },
            None => {
                if self.ambiguous_import_of(bare).is_some() {
                    self.mark_import_ambiguous(bare, qualified);
                } else {
                    self.add_import(bare, qualified);
                }
            },
        }
    }
    /// Every unambiguous import as `(bare, qualified)`, once per bare name.
    #[verifier::spinoff_prover]
    pub fn imported_pairs(&self) -> (r: Vec<(Symbol, Symbol)>)
        ensures
            forall|i: int|
                0 <= i < r@.len() ==> #[trigger] self.cold.imports@.contains_key(r@[i].0)
                    && self.cold.imports@[r@[i].0] == ImportEntry::One(r@[i].1),
            forall|b: Symbol|
                #[trigger] self.cold.imports@.contains_key(b) && self.cold.imports@[b] is One
                    ==> exists|i: int| 0 <= i < r@.len() && r@[i].0 == b,
            forall|i: int, j: int| 0 <= i < j < r@.len() ==> r@[i].0 != r@[j].0,
    {
        let mut out: Vec<(Symbol, Symbol)> = Vec::new();
        let ghost m = self.cold.imports@;
        let ghost full = self.cold.imports.iter().remaining();
        let ghost mut idx: Seq<int> = Seq::empty();
        for e in it: self.cold.imports.iter()
            invariant
                m == self.cold.imports@,
                full == self.cold.imports.iter().remaining(),
                it.seq() == full,
                full.no_duplicates(),
                forall|i: int|
                    #![trigger m.contains_key(*full[i].0)]
                    0 <= i < full.len() ==> m.contains_key(*full[i].0) && m[*full[i].0] == *full[i].1,
                forall|k: Symbol| #[trigger] m.contains_key(k) ==> full.contains((&k, &m[k])),
                idx.len() == out@.len(),
                forall|j: int|
                    0 <= j < out@.len() ==> 0 <= #[trigger] idx[j] < it.index() && out@[j].0
                        == *full[idx[j]].0 && *full[idx[j]].1 == ImportEntry::One(out@[j].1),
                forall|j: int, l: int| 0 <= j < l < out@.len() ==> idx[j] < idx[l],
                forall|q: int|
                    0 <= q < it.index() && (*full[q].1 is One) ==> exists|j: int|
                        0 <= j < idx.len() && #[trigger] idx[j] == q,
        {
            let (b, entry) = e;
            proof {
                assert(full[it.index() as int] == e);
            }
            match entry {
                ImportEntry::One(q) => {
                    out.push((*b, *q));
                    proof {
                        let ghost old_idx = idx;
                        idx = idx.push(it.index() as int);
                        assert forall|q: int|
                            0 <= q < it.index() + 1 && (*full[q].1 is One) implies exists|j: int|
                            0 <= j < idx.len() && #[trigger] idx[j] == q by {
                            if q < it.index() {
                                let j = choose|j: int| 0 <= j < old_idx.len() && #[trigger] old_idx[j] == q;
                                assert(idx[j] == q);
                            } else {
                                assert(idx[idx.len() - 1] == q);
                            }
                        }
                    }
                },
                ImportEntry::Ambiguous(_) => {},
            }
        }
        proof {
            assert forall|i: int| 0 <= i < out@.len() implies #[trigger] self.cold.imports@.contains_key(out@[i].0)
                && self.cold.imports@[out@[i].0] == ImportEntry::One(out@[i].1) by {
                assert(m.contains_key(*full[idx[i]].0));
            }
            assert forall|b: Symbol| #[trigger] m.contains_key(b) && m[b] is One implies exists|i: int|
                0 <= i < out@.len() && out@[i].0 == b by {
                assert(full.contains((&b, &m[b])));
                let q = choose|q: int| 0 <= q < full.len() && full[q] == (&b, &m[b]);
                let j = choose|j: int| 0 <= j < idx.len() && #[trigger] idx[j] == q;
                assert(out@[j].0 == b);
            }
            assert forall|i: int, j: int| 0 <= i < j < out@.len() implies out@[i].0 != out@[j].0 by {
                assert(m.contains_key(*full[idx[i]].0));
                assert(m.contains_key(*full[idx[j]].0));
                if out@[i].0 == out@[j].0 {
                    assert(full[idx[i]] == full[idx[j]]);
                }
            }
        }
        out
    }

    /// Every import as `(bare, entry)`, sorted by the bare name's spelling.
    pub fn imports_snapshot(&self, table: &SymbolTable) -> (r: Vec<(Symbol, ImportEntry)>)
        requires
            forall|k: Symbol| #[trigger] self.cold.imports@.contains_key(k) ==> k < table@.len(),
        ensures
            r@.len() == self.cold.imports@.len(),
            forall|i: int|
                0 <= i < r@.len() ==> #[trigger] self.cold.imports@.contains_key(r@[i].0)
                    && same_import(r@[i].1, self.cold.imports@[r@[i].0]),
            forall|b: Symbol|
                #[trigger] self.cold.imports@.contains_key(b) ==> exists|i: int|
                    0 <= i < r@.len() && r@[i].0 == b,
            forall|i: int, j: int| 0 <= i < j < r@.len() ==> r@[i].0 != r@[j].0,
            forall|i: int, j: int|
                0 <= i < j < r@.len() ==> chars_le(
                    #[trigger] table@[r@[i].0 as int],
                    #[trigger] table@[r@[j].0 as int],
                ),
    {
        let ghost m = self.cold.imports@;
        let mut keys: Vec<Symbol> = Vec::new();
        let ghost full: Seq<Symbol> = self.cold.imports.keys().remaining().unref();
        for k in it: self.cold.imports.keys()
            invariant
                m == self.cold.imports@,
                full == self.cold.imports.keys().remaining().unref(),
                full.to_set() == m.dom(),
                full.no_duplicates(),
                full.len() == m.dom().len(),
                it.seq().unref() == full,
                keys@ == full.take(it.index() as int),
        {
            proof {
                assert(full.take(it.index() + 1) == full.take(it.index() as int).push(full[it.index() as int]));
            }
            keys.push(*k);
        }
        proof {
            assert(full.take(full.len() as int) == full);
            assert forall|i: int| 0 <= i < keys@.len() implies keys@[i] < table@.len() by {
                assert(full.to_set().contains(full[i]));
            }
        }
        let sorted = sort_by_spelling(table, keys);
        proof {
            lemma_permutation_keeps_set(full, sorted@);
            vstd::seq_lib::to_multiset_len(full);
            vstd::seq_lib::to_multiset_len(sorted@);
        }
        let mut out: Vec<(Symbol, ImportEntry)> = Vec::new();
        let mut i: usize = 0;
        while i < sorted.len()
            invariant
                m == self.cold.imports@,
                sorted@.to_set() == m.dom(),
                sorted@.no_duplicates(),
                sorted@.len() == m.dom().len(),
                i <= sorted@.len(),
                out@.len() == i,
                forall|j: int| 0 <= j < i ==> #[trigger] out@[j].0 == sorted@[j] && same_import(
                    out@[j].1,
                    m[sorted@[j]],
                ),
            decreases sorted@.len() - i,
        {
            let k = sorted[i];
            proof {
                assert(sorted@.to_set().contains(k));
            }
            let e = self.cold.imports.get(&k).unwrap();
            out.push((k, copy_import(e)));
            i = i + 1;
        }
        proof {
            assert forall|j: int| 0 <= j < out@.len() implies #[trigger] m.contains_key(out@[j].0)
                && same_import(out@[j].1, m[out@[j].0]) by {
                assert(out@[j].0 == sorted@[j]);
                assert(sorted@.to_set().contains(sorted@[j]));
            }
            assert forall|b: Symbol| #[trigger] m.contains_key(b) implies exists|j: int|
                0 <= j < out@.len() && out@[j].0 == b by {
                assert(sorted@.to_set().contains(b));
                let j = choose|j: int| 0 <= j < sorted@.len() && sorted@[j] == b;
                assert(out@[j].0 == sorted@[j]);
            }
            assert forall|a: int, b: int| 0 <= a < b < out@.len() implies chars_le(
                #[trigger] table@[out@[a].0 as int],
                #[trigger] table@[out@[b].0 as int],
            ) by {
                assert(out@[a].0 == sorted@[a]);
                assert(out@[b].0 == sorted@[b]);
            }
            assert forall|a: int, b: int| 0 <= a < b < out@.len() implies out@[a].0 != out@[b].0 by {
                assert(out@[a].0 == sorted@[a]);
                assert(out@[b].0 == sorted@[b]);
            }
        }
        out
    }
}

} // verus!
