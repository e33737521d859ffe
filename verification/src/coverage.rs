//! Line and branch coverage recording. Two pairs of sets, each `file -> set`:
//! the lines and branch edges that executed (the numerator), and the lines and
//! decision points the compiler instrumented (the denominator). Files and the
//! members of each set are kept in order, so a report comes out stable.

use vstd::prelude::*;
use crate::symbols::{chars_le, str_le, lemma_chars_le_total, lemma_chars_le_trans, lemma_chars_le_antisym};

verus! {

/// Strict lexicographic order on file names.
pub open spec fn chars_lt(a: Seq<char>, b: Seq<char>) -> bool {
    chars_le(a, b) && a != b
}

proof fn lemma_chars_lt_trans(a: Seq<char>, b: Seq<char>, c: Seq<char>)
    requires
        chars_lt(a, b),
        chars_lt(b, c),
    ensures
        chars_lt(a, c),
{
    lemma_chars_le_trans(a, b, c);
    if a == c {
        lemma_chars_le_antisym(a, b);
    }
}

/// A member of a recorded set: a line, a `(line, col)` decision point, or a
/// `(line, col, taken)` branch edge, ordered as the tuple orders.
pub trait SetKey: Sized {
    spec fn key_lt(self, other: Self) -> bool;

    proof fn lemma_key_order(a: Self, b: Self, c: Self)
        ensures
            !a.key_lt(a),
            a.key_lt(b) && b.key_lt(c) ==> a.key_lt(c),
            a != b ==> a.key_lt(b) || b.key_lt(a),
    ;

    fn key_less(&self, other: &Self) -> (r: bool)
        ensures
            r == self.key_lt(*other),
    ;

    fn key_copy(&self) -> (r: Self)
        ensures
            r == *self,
    ;
}

impl SetKey for u32 {
    open spec fn key_lt(self, other: Self) -> bool {
        self < other
    }

    proof fn lemma_key_order(a: Self, b: Self, c: Self) {
    }

    fn key_less(&self, other: &Self) -> (r: bool) {
        *self < *other
    }

    fn key_copy(&self) -> (r: Self) {
        *self
    }
}

impl SetKey for (u32, u32) {
    open spec fn key_lt(self, other: Self) -> bool {
        self.0 < other.0 || (self.0 == other.0 && self.1 < other.1)
    }

    proof fn lemma_key_order(a: Self, b: Self, c: Self) {
    }

    fn key_less(&self, other: &Self) -> (r: bool) {
        self.0 < other.0 || (self.0 == other.0 && self.1 < other.1)
    }

    fn key_copy(&self) -> (r: Self) {
        (self.0, self.1)
    }
}

impl SetKey for (u32, u32, bool) {
    open spec fn key_lt(self, other: Self) -> bool {
        self.0 < other.0 || (self.0 == other.0 && (self.1 < other.1 || (self.1 == other.1
            && !self.2 && other.2)))
    }

    proof fn lemma_key_order(a: Self, b: Self, c: Self) {
    }

    fn key_less(&self, other: &Self) -> (r: bool) {
        self.0 < other.0 || (self.0 == other.0 && (self.1 < other.1 || (self.1 == other.1
            && !self.2 && other.2)))
    }

    fn key_copy(&self) -> (r: Self) {
        (self.0, self.1, self.2)
    }
}

/// The members are in strictly increasing order.
pub open spec fn keys_sorted<T: SetKey>(s: Seq<T>) -> bool {
    forall|i: int, j: int| 0 <= i < j < s.len() ==> (#[trigger] s[i]).key_lt(#[trigger] s[j])
}

/// Adds `x` to a sorted vector of members, keeping it sorted.
fn insert_key<T: SetKey>(v: &mut Vec<T>, x: T)
    requires
        keys_sorted(old(v)@),
    ensures
        keys_sorted(final(v)@),
        final(v)@.to_set() == old(v)@.to_set().insert(x),
{
    let mut i: usize = 0;
    while i < v.len() && v[i].key_less(&x)
        invariant
            i <= v@.len(),
            v@ == old(v)@,
            forall|j: int| 0 <= j < i ==> (#[trigger] v@[j]).key_lt(x),
        decreases v@.len() - i,
    {
        i = i + 1;
    }
    if i < v.len() && !x.key_less(&v[i]) {
        proof {
            T::lemma_key_order(v@[i as int], x, x);
            assert(v@[i as int] == x);
            assert(v@.to_set().insert(x) =~= v@.to_set()) by {
                assert(v@.to_set().contains(v@[i as int]));
            }
        }
        return;
    }
    let ghost s = v@;
    v.insert(i, x);
    proof {
        s.insert_ensures(i as int, x);
        let ns = v@;
        assert(ns == s.insert(i as int, x));
        if i < s.len() {
            T::lemma_key_order(s[i as int], x, x);
        }
        assert forall|a: int, b: int| 0 <= a < b < ns.len() implies (#[trigger] ns[a]).key_lt(
            #[trigger] ns[b],
        ) by {
            if b < i {
                assert(ns[a] == s[a] && ns[b] == s[b]);
            } else if b == i {
                assert(ns[a] == s[a]);
            } else if a < i {
                assert(ns[a] == s[a] && ns[b] == s[b - 1]);
                T::lemma_key_order(s[a], x, s[b - 1]);
                if b - 1 > i {
                    T::lemma_key_order(x, s[i as int], s[b - 1]);
                }
            } else if a == i {
                assert(ns[b] == s[b - 1]);
                if b - 1 > i {
                    T::lemma_key_order(x, s[i as int], s[b - 1]);
                }
            } else {
                assert(ns[a] == s[a - 1] && ns[b] == s[b - 1]);
            }
        }
        assert forall|e: T| ns.to_set().contains(e) <==> s.to_set().insert(x).contains(e) by {
            if ns.to_set().contains(e) {
                let k = choose|k: int| 0 <= k < ns.len() && ns[k] == e;
                if k < i {
                    assert(s[k] == e);
                } else if k > i {
                    assert(s[k - 1] == e);
                }
            }
            if s.to_set().contains(e) {
                let k = choose|k: int| 0 <= k < s.len() && s[k] == e;
                if k < i {
                    assert(ns[k] == e);
                } else {
                    assert(ns[k + 1] == e);
                }
            }
            if e == x {
                assert(ns[i as int] == x);
            }
        }
        assert(ns.to_set() =~= s.to_set().insert(x));
    }
}

/// The file names are in strictly increasing order and every set is sorted.
pub open spec fn files_ok<T: SetKey>(files: Seq<(String, Vec<T>)>) -> bool {
    &&& forall|i: int, j: int|
        0 <= i < j < files.len() ==> chars_lt(#[trigger] files[i].0@, #[trigger] files[j].0@)
    &&& forall|i: int| 0 <= i < files.len() ==> keys_sorted(#[trigger] files[i].1@)
}

/// Some entry is for file `f`.
pub open spec fn files_hold<T>(files: Seq<(String, Vec<T>)>, f: Seq<char>) -> bool {
    exists|i: int| 0 <= i < files.len() && #[trigger] files[i].0@ == f
}

/// The `file -> set` map the entries hold.
pub open spec fn files_view<T>(files: Seq<(String, Vec<T>)>) -> Map<Seq<char>, Set<T>> {
    Map::new(
        |f: Seq<char>| files_hold(files, f),
        |f: Seq<char>| files[choose|i: int| 0 <= i < files.len() && files[i].0@ == f].1@.to_set(),
    )
}

proof fn lemma_files_view_at<T: SetKey>(files: Seq<(String, Vec<T>)>, i: int)
    requires
        files_ok(files),
        0 <= i < files.len(),
    ensures
        files_view(files).contains_key(files[i].0@),
        files_view(files)[files[i].0@] == files[i].1@.to_set(),
{
    let f = files[i].0@;
    assert(files_hold(files, f));
    let j = choose|j: int| 0 <= j < files.len() && files[j].0@ == f;
    if j < i {
        assert(chars_lt(files[j].0@, files[i].0@));
    } else if j > i {
        assert(chars_lt(files[i].0@, files[j].0@));
    }
}

/// Per-file sets of recorded members, listed by file name.
pub struct FileSets<T> {
    pub files: Vec<(String, Vec<T>)>,
}

impl<T: SetKey> FileSets<T> {
    pub open spec fn wf(&self) -> bool {
        files_ok(self.files@)
    }

    /// The `file -> set` map.
    pub open spec fn view(&self) -> Map<Seq<char>, Set<T>> {
        files_view(self.files@)
    }

    /// The set recorded for `f`, empty when there is none.
    pub open spec fn set_of(&self, f: Seq<char>) -> Set<T> {
        if self.view().contains_key(f) {
            self.view()[f]
        } else {
            Set::empty()
        }
    }

    /// No files.
    pub fn new() -> (r: FileSets<T>)
        ensures
            r.wf(),
            r.view() == Map::<Seq<char>, Set<T>>::empty(),
    {
        let r = FileSets { files: Vec::new() };
        assert(r.view() =~= Map::<Seq<char>, Set<T>>::empty());
        r
    }

    /// Where `file`'s entry is, or would go: every entry before the index is for
    /// an earlier name, and the entry at it, if any, is `file`'s (`true`) or for a
    /// later name (`false`).
    fn locate(&self, file: &str) -> (r: (usize, bool))
        requires
            self.wf(),
        ensures
            r.0 <= self.files@.len(),
            forall|j: int| 0 <= j < r.0 ==> chars_lt(#[trigger] self.files@[j].0@, file@),
            r.1 ==> r.0 < self.files@.len() && self.files@[r.0 as int].0@ == file@,
            !r.1 && r.0 < self.files@.len() ==> chars_lt(file@, self.files@[r.0 as int].0@),
    {
        let mut i: usize = 0;
        while i < self.files.len() && !str_le(file, self.files[i].0.as_str())
            invariant
                i <= self.files@.len(),
                forall|j: int| 0 <= j < i ==> chars_lt(#[trigger] self.files@[j].0@, file@),
            decreases self.files@.len() - i,
        {
            proof {
                lemma_chars_le_total(file@, self.files@[i as int].0@);
            }
            i = i + 1;
        }
        if i < self.files.len() {
            let found = str_le(self.files[i].0.as_str(), file);
            proof {
                if found {
                    lemma_chars_le_antisym(self.files@[i as int].0@, file@);
                }
            }
            (i, found)
        } else {
            (i, false)
        }
    }

    /// Adds every member of `xs` to `file`'s set, creating the set (empty, when
    /// `xs` is) if `file` has none yet.
    pub fn add(&mut self, file: &str, xs: &[T])
        requires
            old(self).wf(),
        ensures
            final(self).wf(),
            final(self).view() == old(self).view().insert(
                file@,
                old(self).set_of(file@).union(xs@.to_set()),
            ),
    {
        let ghost old_files = self.files@;
        let (i, found) = self.locate(file);
        let mut entry: (String, Vec<T>) = if found {
            self.files.remove(i)
        } else {
            (file.to_string(), Vec::new())
        };
        let ghost base = entry.1@.to_set();
        proof {
            if found {
                lemma_files_view_at(old_files, i as int);
                assert(base == old(self).set_of(file@));
            } else {
                assert forall|j: int| 0 <= j < old_files.len() implies old_files[j].0@ != file@ by {
                    if j >= i {
                        if j > i {
                            lemma_chars_lt_trans(file@, old_files[i as int].0@, old_files[j].0@);
                        }
                    }
                }
                assert(!old(self).view().contains_key(file@));
                assert(base =~= Set::<T>::empty());
            }
            assert(xs@.take(0) =~= Seq::<T>::empty());
            assert(base.union(xs@.take(0).to_set()) =~= base);
        }
        let mut k: usize = 0;
        while k < xs.len()
            invariant
                k <= xs@.len(),
                entry.0@ == file@,
                keys_sorted(entry.1@),
                entry.1@.to_set() == base.union(xs@.take(k as int).to_set()),
            decreases xs@.len() - k,
        {
            insert_key(&mut entry.1, xs[k].key_copy());
            proof {
                assert(xs@.take(k as int + 1) =~= xs@.take(k as int).push(xs@[k as int]));
                crate::runtime_code::lemma_take_push_to_set(xs@, k as int);
                assert(entry.1@.to_set() =~= base.union(xs@.take(k as int + 1).to_set()));
            }
            k = k + 1;
        }
        proof {
            assert(xs@.take(xs@.len() as int) =~= xs@);
        }
        let ghost new_set = entry.1@.to_set();
        self.files.insert(i, entry);
        proof {
            let nf = self.files@;
            let of = old_files;
            if found {
                assert(nf =~= of.update(i as int, nf[i as int]));
            } else {
                of.insert_ensures(i as int, nf[i as int]);
                assert(nf =~= of.insert(i as int, nf[i as int]));
            }
            assert forall|a: int, b: int| 0 <= a < b < nf.len() implies chars_lt(
                #[trigger] nf[a].0@,
                #[trigger] nf[b].0@,
            ) by {
                if found {
                    if a == i {
                        assert(nf[a].0@ == of[a].0@);
                    }
                    if b == i {
                        assert(nf[b].0@ == of[b].0@);
                    }
                } else {
                    if b < i {
                    } else if b == i {
                    } else if a < i {
                        assert(nf[b] == of[b - 1]);
                        if b - 1 > i {
                            lemma_chars_lt_trans(file@, of[i as int].0@, of[b - 1].0@);
                        }
                        lemma_chars_lt_trans(nf[a].0@, file@, nf[b].0@);
                    } else if a == i {
                        assert(nf[b] == of[b - 1]);
                        if b - 1 > i {
                            lemma_chars_lt_trans(file@, of[i as int].0@, of[b - 1].0@);
                        }
                    } else {
                        assert(nf[a] == of[a - 1] && nf[b] == of[b - 1]);
                    }
                }
            }
            assert forall|a: int| 0 <= a < nf.len() implies keys_sorted(#[trigger] nf[a].1@) by {
                if !found && a > i {
                    assert(nf[a] == of[a - 1]);
                }
            }
            assert(files_ok(nf));
            let target = old(self).view().insert(file@, old(self).set_of(file@).union(xs@.to_set()));
            lemma_files_view_at(nf, i as int);
            assert forall|f: Seq<char>| #![trigger target.contains_key(f)]
                files_view(nf).contains_key(f) == target.contains_key(f) && (target.contains_key(f)
                    ==> files_view(nf)[f] == target[f]) by {
                if f != file@ {
                    if files_hold(of, f) {
                        let j = choose|j: int| 0 <= j < of.len() && of[j].0@ == f;
                        lemma_files_view_at(of, j);
                        let nj = if !found && j >= i {
                            j + 1
                        } else {
                            j
                        };
                        assert(nf[nj] == of[j]);
                        lemma_files_view_at(nf, nj);
                    }
                    if files_hold(nf, f) {
                        let j = choose|j: int| 0 <= j < nf.len() && nf[j].0@ == f;
                        let oj = if !found && j > i {
                            j - 1
                        } else {
                            j
                        };
                        assert(j != i);
                        assert(of[oj] == nf[j]);
                        assert(files_hold(of, f));
                    }
                }
            }
            assert(files_view(nf) =~= target);
        }
    }

    /// Empties every set, forgetting the files.
    pub fn clear(&mut self)
        ensures
            final(self).wf(),
            final(self).view() == Map::<Seq<char>, Set<T>>::empty(),
    {
        self.files.clear();
        assert(self.view() =~= Map::<Seq<char>, Set<T>>::empty());
    }

    /// Every `(file, members)` pair, in file order, members in order.
    pub fn listing(&self) -> (r: Vec<(String, Vec<T>)>)
        requires
            self.wf(),
        ensures
            r@.len() == self.files@.len(),
            forall|i: int|
                0 <= i < r@.len() ==> (#[trigger] r@[i]).0@ == self.files@[i].0@ && r@[i].1@
                    == self.files@[i].1@,
    {
        let mut out: Vec<(String, Vec<T>)> = Vec::new();
        let mut i: usize = 0;
        while i < self.files.len()
            invariant
                i <= self.files@.len(),
                out@.len() == i,
                forall|j: int|
                    0 <= j < i ==> (#[trigger] out@[j]).0@ == self.files@[j].0@ && out@[j].1@
                        == self.files@[j].1@,
            decreases self.files@.len() - i,
        {
            let name = self.files[i].0.clone();
            let src = &self.files[i].1;
            let mut members: Vec<T> = Vec::new();
            let mut k: usize = 0;
            while k < src.len()
                invariant
                    k <= src@.len(),
                    members@ == src@.take(k as int),
                decreases src@.len() - k,
            {
                members.push(src[k].key_copy());
                proof {
                    assert(src@.take(k as int + 1) =~= src@.take(k as int).push(src@[k as int]));
                }
                k = k + 1;
            }
            proof {
                assert(src@.take(src@.len() as int) =~= src@);
            }
            out.push((name, members));
            i = i + 1;
        }
        out
    }
}

/// The coverage record of a run: executed lines and branch edges, and the lines
/// and decision points the compiler instrumented.
pub struct Coverage {
    /// `file -> executed lines`.
    pub hits: FileSets<u32>,
    /// `file -> instrumented lines`: the line denominator.
    pub lines: FileSets<u32>,
    /// `file -> executed (line, col, taken) edges`.
    pub branch_hits: FileSets<(u32, u32, bool)>,
    /// `file -> instrumented (line, col) decision points`: the branch denominator.
    pub branch_sites: FileSets<(u32, u32)>,
}

impl Coverage {
    pub open spec fn wf(&self) -> bool {
        &&& self.hits.wf()
        &&& self.lines.wf()
        &&& self.branch_hits.wf()
        &&& self.branch_sites.wf()
    }

    /// Nothing recorded.
    pub fn new() -> (r: Coverage)
        ensures
            r.wf(),
            r.hits.view() == Map::<Seq<char>, Set<u32>>::empty(),
            r.lines.view() == Map::<Seq<char>, Set<u32>>::empty(),
            r.branch_hits.view() == Map::<Seq<char>, Set<(u32, u32, bool)>>::empty(),
            r.branch_sites.view() == Map::<Seq<char>, Set<(u32, u32)>>::empty(),
    {
        Coverage {
            hits: FileSets::new(),
            lines: FileSets::new(),
            branch_hits: FileSets::new(),
            branch_sites: FileSets::new(),
        }
    }
}

/// Records that `line` of `file` executed.
pub fn record(cov: &mut Coverage, file: &str, line: u32)
    requires
        old(cov).wf(),
    ensures
        final(cov).wf(),
        final(cov).hits.view() == old(cov).hits.view().insert(
            file@,
            old(cov).hits.set_of(file@).insert(line),
        ),
        final(cov).lines == old(cov).lines,
        final(cov).branch_hits == old(cov).branch_hits,
        final(cov).branch_sites == old(cov).branch_sites,
{
    let one = [line];
    let xs: &[u32] = one.as_slice();
    proof {
        assert(xs@ =~= seq![line]);
        assert(seq![line].to_set() =~= Set::empty().insert(line)) by {
            assert(seq![line][0] == line);
        }
        assert(old(cov).hits.set_of(file@).union(xs@.to_set()) =~= old(cov).hits.set_of(
            file@,
        ).insert(line));
    }
    cov.hits.add(file, xs);
}

/// Registers the lines of `file` a compiled arm was instrumented for: every line
/// that could record a hit.
pub fn note_instrumented(cov: &mut Coverage, file: &str, lines: &[u32])
    requires
        old(cov).wf(),
    ensures
        final(cov).wf(),
        final(cov).lines.view() == old(cov).lines.view().insert(
            file@,
            old(cov).lines.set_of(file@).union(lines@.to_set()),
        ),
        final(cov).hits == old(cov).hits,
        final(cov).branch_hits == old(cov).branch_hits,
        final(cov).branch_sites == old(cov).branch_sites,
{
    cov.lines.add(file, lines);
}

/// Records that one edge (`taken`) of the branch at `line:col` of `file` executed.
pub fn record_branch(cov: &mut Coverage, file: &str, line: u32, col: u32, taken: bool)
    requires
        old(cov).wf(),
    ensures
        final(cov).wf(),
        final(cov).branch_hits.view() == old(cov).branch_hits.view().insert(
            file@,
            old(cov).branch_hits.set_of(file@).insert((line, col, taken)),
        ),
        final(cov).hits == old(cov).hits,
        final(cov).lines == old(cov).lines,
        final(cov).branch_sites == old(cov).branch_sites,
{
    let one = [(line, col, taken)];
    let xs: &[(u32, u32, bool)] = one.as_slice();
    proof {
        let e = (line, col, taken);
        assert(xs@ =~= seq![e]);
        assert(seq![e].to_set() =~= Set::empty().insert(e)) by {
            assert(seq![e][0] == e);
        }
        assert(old(cov).branch_hits.set_of(file@).union(xs@.to_set()) =~= old(
            cov,
        ).branch_hits.set_of(file@).insert(e));
    }
    cov.branch_hits.add(file, xs);
}

/// Registers the `(line, col)` decision points a compiled arm was instrumented
/// for: the branch denominator.
pub fn note_branches(cov: &mut Coverage, file: &str, sites: &[(u32, u32)])
    requires
        old(cov).wf(),
    ensures
        final(cov).wf(),
        final(cov).branch_sites.view() == old(cov).branch_sites.view().insert(
            file@,
            old(cov).branch_sites.set_of(file@).union(sites@.to_set()),
        ),
        final(cov).hits == old(cov).hits,
        final(cov).lines == old(cov).lines,
        final(cov).branch_hits == old(cov).branch_hits,
{
    cov.branch_sites.add(file, sites);
}

/// Every recorded branch edge, `file -> [(line, col, taken) …]`, in order.
pub fn branch_snapshot(cov: &Coverage) -> (r: Vec<(String, Vec<(u32, u32, bool)>)>)
    requires
        cov.wf(),
    ensures
        r@.len() == cov.branch_hits.files@.len(),
        forall|i: int|
            0 <= i < r@.len() ==> (#[trigger] r@[i]).0@ == cov.branch_hits.files@[i].0@
                && r@[i].1@ == cov.branch_hits.files@[i].1@,
{
    cov.branch_hits.listing()
}

/// Every instrumented branch site, `file -> [(line, col) …]`, in order.
pub fn branch_instrumented(cov: &Coverage) -> (r: Vec<(String, Vec<(u32, u32)>)>)
    requires
        cov.wf(),
    ensures
        r@.len() == cov.branch_sites.files@.len(),
        forall|i: int|
            0 <= i < r@.len() ==> (#[trigger] r@[i]).0@ == cov.branch_sites.files@[i].0@
                && r@[i].1@ == cov.branch_sites.files@[i].1@,
{
    cov.branch_sites.listing()
}

/// Every instrumented `(file, lines)` pair, in order.
pub fn instrumented(cov: &Coverage) -> (r: Vec<(String, Vec<u32>)>)
    requires
        cov.wf(),
    ensures
        r@.len() == cov.lines.files@.len(),
        forall|i: int|
            0 <= i < r@.len() ==> (#[trigger] r@[i]).0@ == cov.lines.files@[i].0@ && r@[i].1@
                == cov.lines.files@[i].1@,
{
    cov.lines.listing()
}

/// Every recorded `(file, lines)` pair, in order.
pub fn snapshot(cov: &Coverage) -> (r: Vec<(String, Vec<u32>)>)
    requires
        cov.wf(),
    ensures
        r@.len() == cov.hits.files@.len(),
        forall|i: int|
            0 <= i < r@.len() ==> (#[trigger] r@[i]).0@ == cov.hits.files@[i].0@ && r@[i].1@
                == cov.hits.files@[i].1@,
{
    cov.hits.listing()
}

/// Drops the recorded hits, line and branch, so a long-lived image can measure
/// more than once; the instrumented sets are a property of the compiled code and
/// stay.
pub fn reset(cov: &mut Coverage)
    requires
        old(cov).wf(),
    ensures
        final(cov).wf(),
        final(cov).hits.view() == Map::<Seq<char>, Set<u32>>::empty(),
        final(cov).branch_hits.view() == Map::<Seq<char>, Set<(u32, u32, bool)>>::empty(),
        final(cov).lines == old(cov).lines,
        final(cov).branch_sites == old(cov).branch_sites,
{
    cov.hits.clear();
    cov.branch_hits.clear();
}


/// Recording a line that is already recorded changes nothing: a hit set is a set.
pub proof fn law_record_is_idempotent(v: Map<Seq<char>, Set<u32>>, file: Seq<char>, line: u32)
    ensures
        ({
            let before = if v.contains_key(file) {
                v[file]
            } else {
                Set::empty()
            };
            let once = v.insert(file, before.insert(line));
            let twice = once.insert(file, once[file].insert(line));
            twice == once
        }),
{
    let before = if v.contains_key(file) {
        v[file]
    } else {
        Set::empty()
    };
    let once = v.insert(file, before.insert(line));
    assert(once[file].insert(line) =~= once[file]);
    assert(once.insert(file, once[file].insert(line)) =~= once);
}
} // verus!
