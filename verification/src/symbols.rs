//! The symbol interner: spellings to dense ids and back. Spellings live in an
//! append-only `boxcar` vector, so an id is the index its spelling was pushed to;
//! the reverse index buckets ids by a hash of the spelling's bytes.

use vstd::prelude::*;
use std::collections::HashMap;
use crate::value::{Symbol, Value};
use crate::runtime_code::{SymbolHasher, spec_mix_bytes};

verus! {

broadcast use vstd::std_specs::hash::group_hash_axioms;

#[verifier::external_type_specification]
#[verifier::external_body]
#[verifier::reject_recursive_types(T)]
pub struct ExBoxcarVec<T>(boxcar::Vec<T>);

/// The spellings a `boxcar` vector of names holds, in index order.
pub uninterp spec fn boxcar_spellings(v: boxcar::Vec<String>) -> Seq<Seq<char>>;

/// `boxcar::Vec::new`: an empty vector.
#[verifier::external_body]
fn names_new() -> (r: boxcar::Vec<String>)
    ensures
        boxcar_spellings(r) == Seq::<Seq<char>>::empty(),
{
    boxcar::Vec::new()
}

/// `boxcar::Vec::push`: appends the value and returns the index it was written
/// to, which is the previous element count.
#[verifier::external_body]
fn names_push(v: &mut boxcar::Vec<String>, s: String) -> (r: usize)
    requires
        boxcar_spellings(*old(v)).len() < 0x1_0000_0000,
    ensures
        boxcar_spellings(*final(v)) == boxcar_spellings(*old(v)).push(s@),
        r == boxcar_spellings(*old(v)).len(),
{
    v.push(s)
}

/// `boxcar::Vec::count`: the number of elements.
#[verifier::external_body]
fn names_count(v: &boxcar::Vec<String>) -> (r: usize)
    ensures
        r == boxcar_spellings(*v).len(),
{
    v.count()
}

/// `boxcar::Vec::get`: the element at `index`, or `None` past the end.
#[verifier::external_body]
fn names_get(v: &boxcar::Vec<String>, index: usize) -> (r: Option<&String>)
    ensures
        index < boxcar_spellings(*v).len() ==> r is Some && r.unwrap()@ == boxcar_spellings(
            *v,
        )[index as int],
        index >= boxcar_spellings(*v).len() ==> r is None,
{
    v.get(index)
}

/// The hash the reverse index buckets a spelling under.
pub open spec fn spelling_hash(s: Seq<char>) -> u64 {
    spec_mix_bytes(0, vstd::utf8::encode_utf8(s))
}

/// The hash of a spelling.
pub fn hash_spelling(s: &str) -> (r: u64)
    ensures
        r == spelling_hash(s@),
{
    let mut h = SymbolHasher::new();
    h.write(s.as_bytes());
    h.finish()
}

/// The process-wide symbol table.
pub struct SymbolTable {
    names: boxcar::Vec<String>,
    ids: HashMap<u64, Vec<Symbol>>,
}

impl SymbolTable {
    /// The spellings, indexed by symbol id.
    pub closed spec fn view(&self) -> Seq<Seq<char>> {
        boxcar_spellings(self.names)
    }

    /// The table's invariant: spellings are distinct, ids fit a `Symbol`, and the
    /// reverse index lists, under each spelling's hash, exactly the ids whose
    /// spelling has that hash.
    pub closed spec fn wf(&self) -> bool {
        let names = boxcar_spellings(self.names);
        &&& names.len() <= 0xFFFF_FFFF
        &&& forall|i: int, j: int|
            0 <= i < names.len() && 0 <= j < names.len() && i != j ==> names[i] != names[j]
        &&& forall|h: u64, k: int|
            #![trigger self.ids@[h]@[k]]
            self.ids@.contains_key(h) && 0 <= k < self.ids@[h]@.len() ==> {
                let id = self.ids@[h]@[k];
                &&& id < names.len()
                &&& spelling_hash(names[id as int]) == h
            }
        &&& forall|i: int|
            #![trigger names[i]]
            0 <= i < names.len() ==> self.ids@.contains_key(spelling_hash(names[i])) && self.ids@[spelling_hash(names[i])]@.contains(i as Symbol)
    }

    /// Distinct ids have distinct spellings.
    pub proof fn lemma_spellings_distinct(&self, i: int, j: int)
        requires
            self.wf(),
            0 <= i < self@.len(),
            0 <= j < self@.len(),
            self@[i] == self@[j],
        ensures
            i == j,
    {
    }

    /// An empty table.
    pub fn new() -> (r: SymbolTable)
        ensures
            r.wf(),
            r@ == Seq::<Seq<char>>::empty(),
    {
        SymbolTable { names: names_new(), ids: HashMap::new() }
    }

    /// The number of interned spellings.
    pub fn len(&self) -> (r: usize)
        ensures
            r == self@.len(),
    {
        names_count(&self.names)
    }

    /// The id of `name` if it has been interned, without interning it.
    pub fn lookup(&self, name: &str) -> (r: Option<Symbol>)
        requires
            self.wf(),
        ensures
            r matches Some(id) ==> id < self@.len() && self@[id as int] == name@,
            r is None ==> forall|i: int| 0 <= i < self@.len() ==> self@[i] != name@,
    {
        let h = hash_spelling(name);
        match self.ids.get(&h) {
            None => {
                proof {
                    assert forall|i: int| 0 <= i < self@.len() implies self@[i] != name@ by {
                        if self@[i] == name@ {
                            assert(self.ids@.contains_key(spelling_hash(self@[i])));
                        }
                    }
                }
                None
            },
            Some(bucket) => {
                let want = name.to_string();
                let mut k: usize = 0;
                while k < bucket.len()
                    invariant
                        self.wf(),
                        self.ids@.contains_key(h),
                        *bucket == self.ids@[h],
                        h == spelling_hash(name@),
                        want@ == name@,
                        k <= bucket@.len(),
                        forall|j: int| 0 <= j < k ==> self@[bucket@[j] as int] != name@,
                    decreases bucket@.len() - k,
                {
                    let id = bucket[k];
                    proof {
                        assert(self.ids@[h]@[k as int] == id);
                    }
                    match names_get(&self.names, id as usize) {
                        Some(s) => {
                            if *s == want {
                                return Some(id);
                            }
                        },
                        None => {},
                    }
                    k = k + 1;
                }
                proof {
                    assert forall|i: int| 0 <= i < self@.len() implies self@[i] != name@ by {
                        if self@[i] == name@ {
                            assert(self.ids@[spelling_hash(self@[i])]@.contains(i as Symbol));
                            let j = choose|j: int| 0 <= j < bucket@.len() && bucket@[j] == i as Symbol;
                            assert(self@[bucket@[j] as int] != name@);
                        }
                    }
                }
                None
            },
        }
    }

    /// The id of `name`, interning it (as the next id) if it is new. Interning a
    /// spelling twice yields the same id.
    pub fn intern(&mut self, name: &str) -> (r: Symbol)
        requires
            old(self).wf(),
            old(self)@.len() < 0xFFFF_FFFF,
        ensures
            final(self).wf(),
            r < final(self)@.len(),
            final(self)@[r as int] == name@,
            (exists|i: int| 0 <= i < old(self)@.len() && old(self)@[i] == name@) ==> final(self)@
                == old(self)@,
            (forall|i: int| 0 <= i < old(self)@.len() ==> old(self)@[i] != name@)
                ==> final(self)@ == old(self)@.push(name@) && r == old(self)@.len(),
    {
        match self.lookup(name) {
            Some(id) => id,
            None => {
                let h = hash_spelling(name);
                let ghost old_names = self@;
                let id = names_push(&mut self.names, name.to_string()) as Symbol;
                let mut bucket: Vec<Symbol> = match self.ids.remove(&h) {
                    Some(b) => b,
                    None => Vec::new(),
                };
                let ghost old_bucket = bucket@;
                bucket.push(id);
                self.ids.insert(h, bucket);
                proof {
                    let names = self@;
                    assert(names == old_names.push(name@));
                    assert forall|hh: u64, k: int|
                        #![trigger self.ids@[hh]@[k]]
                        self.ids@.contains_key(hh) && 0 <= k < self.ids@[hh]@.len() implies {
                        let x = self.ids@[hh]@[k];
                        &&& x < names.len()
                        &&& spelling_hash(names[x as int]) == hh
                    } by {
                        if hh == h {
                            if k < old_bucket.len() {
                                assert(old(self).ids@[h]@[k] == self.ids@[hh]@[k]);
                            }
                        } else {
                            assert(old(self).ids@[hh]@[k] == self.ids@[hh]@[k]);
                        }
                    }
                    assert forall|i: int|
                        #![trigger names[i]]
                        0 <= i < names.len() implies self.ids@.contains_key(spelling_hash(names[i]))
                        && self.ids@[spelling_hash(names[i])]@.contains(i as Symbol) by {
                        if i < old_names.len() {
                            assert(old_names[i] == names[i]);
                            let hi = spelling_hash(names[i]);
                            assert(old(self).ids@[hi]@.contains(i as Symbol));
                            if hi == h {
                                let j = choose|j: int| 0 <= j < old_bucket.len() && old_bucket[j] == i as Symbol;
                                assert(self.ids@[hi]@[j] == i as Symbol);
                            }
                        } else {
                            assert(self.ids@[h]@[old_bucket.len() as int] == id);
                        }
                    }
                }
                id
            },
        }
    }

    /// The spelling of `sym`, borrowed.
    pub fn name_ref(&self, sym: Symbol) -> (r: &String)
        requires
            sym < self@.len(),
        ensures
            r@ == self@[sym as int],
    {
        match names_get(&self.names, sym as usize) {
            Some(s) => s,
            None => {
                proof {
                    assert(false);
                }
                names_get(&self.names, sym as usize).unwrap()
            },
        }
    }
}

/// The id of `name`, interning it if it is new.
pub fn intern(table: &mut SymbolTable, name: &str) -> (r: Symbol)
    requires
        old(table).wf(),
        old(table)@.len() < 0xFFFF_FFFF,
    ensures
        final(table).wf(),
        r < final(table)@.len(),
        final(table)@[r as int] == name@,
        (exists|i: int| 0 <= i < old(table)@.len() && old(table)@[i] == name@) ==> final(table)@
            == old(table)@,
        (forall|i: int| 0 <= i < old(table)@.len() ==> old(table)@[i] != name@)
            ==> final(table)@ == old(table)@.push(name@) && r == old(table)@.len(),
{
    table.intern(name)
}

/// The spelling of an interned symbol, as an owned string.
pub fn symbol_name(table: &SymbolTable, sym: Symbol) -> (r: String)
    requires
        sym < table@.len(),
    ensures
        r@ == table@[sym as int],
{
    table.name_ref(sym).clone()
}

/// The spelling of an interned symbol, borrowed from the table.
pub fn symbol_name_ref(table: &SymbolTable, sym: Symbol) -> (r: &str)
    requires
        sym < table@.len(),
    ensures
        r@ == table@[sym as int],
{
    table.name_ref(sym).as_str()
}

/// The id of `name` if it has ever been interned; never interns.
pub fn intern_existing(table: &SymbolTable, name: &str) -> (r: Option<Symbol>)
    requires
        table.wf(),
    ensures
        r matches Some(id) ==> id < table@.len() && table@[id as int] == name@,
        r is None ==> forall|i: int| 0 <= i < table@.len() ==> table@[i] != name@,
{
    table.lookup(name)
}

/// Does `sym`'s spelling equal `name`?
pub fn symbol_is(table: &SymbolTable, sym: Symbol, name: &str) -> (r: bool)
    requires
        sym < table@.len(),
    ensures
        r == (table@[sym as int] == name@),
{
    let want = name.to_string();
    *table.name_ref(sym) == want
}

/// The first character of `sym`'s spelling, if any.
pub fn symbol_first_char(table: &SymbolTable, sym: Symbol) -> (r: Option<char>)
    requires
        sym < table@.len(),
    ensures
        table@[sym as int].len() == 0 ==> r is None,
        table@[sym as int].len() > 0 ==> r == Some(table@[sym as int][0]),
{
    let s = table.name_ref(sym).as_str();
    if s.is_empty() {
        None
    } else {
        Some(s.get_char(0))
    }
}

/// A symbol value for `name`, interned.
pub fn sym(table: &mut SymbolTable, name: &str) -> (r: Value)
    requires
        old(table).wf(),
        old(table)@.len() < 0xFFFF_FFFF,
    ensures
        final(table).wf(),
        r matches Value::Sym(id) && id < final(table)@.len() && final(table)@[id as int] == name@,
        (exists|i: int| 0 <= i < old(table)@.len() && old(table)@[i] == name@) ==> final(table)@
            == old(table)@,
{
    Value::Sym(table.intern(name))
}

/// A keyword value for `name`, interned.
pub fn kw(table: &mut SymbolTable, name: &str) -> (r: Value)
    requires
        old(table).wf(),
        old(table)@.len() < 0xFFFF_FFFF,
    ensures
        final(table).wf(),
        r matches Value::Keyword(id) && id < final(table)@.len() && final(table)@[id as int]
            == name@,
        (exists|i: int| 0 <= i < old(table)@.len() && old(table)@[i] == name@) ==> final(table)@
            == old(table)@,
{
    Value::Keyword(table.intern(name))
}

/// The decimal digits of `n`.
pub open spec fn decimal(n: u64) -> Seq<char>
    decreases n,
{
    if n < 10 {
        seq![digit_char(n)]
    } else {
        decimal(n / 10).push(digit_char(n % 10))
    }
}

pub open spec fn digit_char(d: u64) -> char {
    if d == 0 { '0' } else if d == 1 { '1' } else if d == 2 { '2' } else if d == 3 { '3' }
    else if d == 4 { '4' } else if d == 5 { '5' } else if d == 6 { '6' } else if d == 7 { '7' }
    else if d == 8 { '8' } else { '9' }
}

fn push_digit(out: &mut String, d: u64)
    requires
        d < 10,
    ensures
        final(out)@ == old(out)@.push(digit_char(d)),
{
    let s: &str = if d == 0 { "0" } else if d == 1 { "1" } else if d == 2 { "2" } else if d == 3 {
        "3"
    } else if d == 4 { "4" } else if d == 5 { "5" } else if d == 6 { "6" } else if d == 7 {
        "7"
    } else if d == 8 { "8" } else { "9" };
    proof {
        reveal_strlit("0");
        reveal_strlit("1");
        reveal_strlit("2");
        reveal_strlit("3");
        reveal_strlit("4");
        reveal_strlit("5");
        reveal_strlit("6");
        reveal_strlit("7");
        reveal_strlit("8");
        reveal_strlit("9");
    }
    out.append(s);
}

/// Append the decimal digits of `n`.
pub fn push_decimal(out: &mut String, n: u64)
    ensures
        final(out)@ == old(out)@ + decimal(n),
    decreases n,
{
    if n < 10 {
        push_digit(out, n);
    } else {
        push_decimal(out, n / 10);
        push_digit(out, n % 10);
        proof {
            assert(old(out)@ + decimal(n / 10) + seq![digit_char(n % 10)] =~= old(out)@ + decimal(n));
        }
    }
}

/// The name `gensym` mints for `prefix` and counter value `n`: `prefix__n`.
pub open spec fn gensym_name(prefix: Seq<char>, n: u64) -> Seq<char> {
    prefix + seq!['_', '_'] + decimal(n)
}

/// A fresh interned symbol `<prefix>__<n>`, where `n` is the counter's value,
/// which then advances.
pub fn gensym(table: &mut SymbolTable, counter: &mut u64, prefix: &str) -> (r: Value)
    requires
        old(table).wf(),
        old(table)@.len() < 0xFFFF_FFFF,
    ensures
        final(table).wf(),
        *final(counter) == old(counter).wrapping_add(1),
        r matches Value::Sym(id) && id < final(table)@.len() && final(table)@[id as int]
            == gensym_name(prefix@, *old(counter)),
{
    let n = *counter;
    *counter = n.wrapping_add(1);
    let mut name = prefix.to_string();
    proof {
        reveal_strlit("__");
    }
    name.append("__");
    push_decimal(&mut name, n);
    proof {
        assert(name@ =~= gensym_name(prefix@, n));
    }
    Value::Sym(table.intern(name.as_str()))
}

/// Lexicographic order on spellings, by code point: the order `str` compares in.
pub open spec fn chars_le(a: Seq<char>, b: Seq<char>) -> bool
    decreases a.len(),
{
    if a.len() == 0 {
        true
    } else if b.len() == 0 {
        false
    } else if a[0] != b[0] {
        (a[0] as int) < (b[0] as int)
    } else {
        chars_le(a.drop_first(), b.drop_first())
    }
}

/// Any two spellings are ordered one way or the other.
pub proof fn lemma_chars_le_total(a: Seq<char>, b: Seq<char>)
    ensures
        chars_le(a, b) || chars_le(b, a),
    decreases a.len(),
{
    if a.len() > 0 && b.len() > 0 && a[0] == b[0] {
        lemma_chars_le_total(a.drop_first(), b.drop_first());
    }
}

/// The order is transitive.
pub proof fn lemma_chars_le_trans(a: Seq<char>, b: Seq<char>, c: Seq<char>)
    requires
        chars_le(a, b),
        chars_le(b, c),
    ensures
        chars_le(a, c),
    decreases a.len(),
{
    if a.len() > 0 && b.len() > 0 && c.len() > 0 && a[0] == b[0] && b[0] == c[0] {
        lemma_chars_le_trans(a.drop_first(), b.drop_first(), c.drop_first());
    }
}

/// Two spellings each ordered no later than the other are the same spelling.
pub proof fn lemma_chars_le_antisym(a: Seq<char>, b: Seq<char>)
    requires
        chars_le(a, b),
        chars_le(b, a),
    ensures
        a == b,
    decreases a.len(),
{
    if a.len() > 0 && b.len() > 0 {
        if a[0] == b[0] {
            lemma_chars_le_antisym(a.drop_first(), b.drop_first());
            assert(a =~= seq![a[0]] + a.drop_first());
            assert(b =~= seq![b[0]] + b.drop_first());
        }
    } else {
        assert(a.len() == 0 && b.len() == 0);
        assert(a =~= b);
    }
}

/// Is `a` ordered no later than `b`?
pub fn str_le(a: &str, b: &str) -> (r: bool)
    ensures
        r == chars_le(a@, b@),
{
    let la = a.unicode_len();
    let lb = b.unicode_len();
    let mut i: usize = 0;
    proof {
        assert(a@.skip(0) =~= a@);
        assert(b@.skip(0) =~= b@);
    }
    while i < la && i < lb
        invariant
            i <= la,
            i <= lb,
            la == a@.len(),
            lb == b@.len(),
            chars_le(a@, b@) == chars_le(a@.skip(i as int), b@.skip(i as int)),
        decreases la - i,
    {
        let ca = a.get_char(i);
        let cb = b.get_char(i);
        if (ca as u32) != (cb as u32) {
            proof {
                assert(a@.skip(i as int)[0] == ca);
                assert(b@.skip(i as int)[0] == cb);
            }
            return (ca as u32) < (cb as u32);
        }
        proof {
            assert(a@.skip(i as int)[0] == ca);
            assert(b@.skip(i as int)[0] == cb);
            assert(a@.skip(i as int).drop_first() =~= a@.skip(i + 1));
            assert(b@.skip(i as int).drop_first() =~= b@.skip(i + 1));
        }
        i = i + 1;
    }
    proof {
        if i == la {
            assert(a@.skip(i as int).len() == 0);
        } else {
            assert(b@.skip(i as int).len() == 0);
        }
    }
    i == la
}

/// Is `a`'s spelling ordered no later than `b`'s?
pub fn symbol_le(table: &SymbolTable, a: Symbol, b: Symbol) -> (r: bool)
    requires
        a < table@.len(),
        b < table@.len(),
    ensures
        r == chars_le(table@[a as int], table@[b as int]),
{
    str_le(table.name_ref(a).as_str(), table.name_ref(b).as_str())
}

/// Ordered by spelling, no later first.
pub open spec fn sorted_by_spelling(names: Seq<Seq<char>>, s: Seq<Symbol>) -> bool {
    forall|i: int, j: int|
        0 <= i < j < s.len() ==> chars_le(#[trigger] names[s[i] as int], #[trigger] names[s[j] as int])
}

/// A reordering keeps the set of elements and their distinctness.
pub proof fn lemma_permutation_keeps_set<A>(a: Seq<A>, b: Seq<A>)
    requires
        a.to_multiset() == b.to_multiset(),
    ensures
        a.to_set() == b.to_set(),
        a.no_duplicates() ==> b.no_duplicates(),
{
    broadcast use vstd::seq_lib::group_to_multiset_ensures;

    assert forall|x: A| a.to_set().contains(x) <==> b.to_set().contains(x) by {
        assert(a.contains(x) <==> a.to_multiset().count(x) > 0);
        assert(b.contains(x) <==> b.to_multiset().count(x) > 0);
    }
    assert(a.to_set() =~= b.to_set());
    if a.no_duplicates() {
        a.lemma_multiset_has_no_duplicates();
        b.lemma_multiset_has_no_duplicates_conv();
    }
}

/// Sort symbols by their spellings (insertion, stable).
pub fn sort_by_spelling(table: &SymbolTable, v: Vec<Symbol>) -> (r: Vec<Symbol>)
    requires
        forall|i: int| 0 <= i < v@.len() ==> v@[i] < table@.len(),
    ensures
        r@.to_multiset() == v@.to_multiset(),
        sorted_by_spelling(table@, r@),
        forall|i: int| 0 <= i < r@.len() ==> r@[i] < table@.len(),
{
    broadcast use vstd::seq_lib::group_to_multiset_ensures;

    let ghost names = table@;
    let mut out: Vec<Symbol> = Vec::new();
    let mut rest = v;
    while rest.len() > 0
        invariant
            names == table@,
            out@.to_multiset().add(rest@.to_multiset()) == v@.to_multiset(),
            sorted_by_spelling(names, out@),
            forall|i: int| 0 <= i < out@.len() ==> out@[i] < names.len(),
            forall|i: int| 0 <= i < rest@.len() ==> rest@[i] < names.len(),
        decreases rest@.len(),
    {
        let ghost before = rest@;
        let e = rest.pop().unwrap();
        proof {
            assert(before == rest@.push(e));
            vstd::seq_lib::to_multiset_build(rest@, e);
            assert(before.to_multiset() == rest@.to_multiset().insert(e));
            assert(before[before.len() - 1] == e);
        }
        let mut p: usize = 0;
        while p < out.len() && symbol_le(table, out[p], e)
            invariant
                names == table@,
                e < names.len(),
                p <= out@.len(),
                forall|i: int| 0 <= i < out@.len() ==> out@[i] < names.len(),
                forall|q: int| 0 <= q < p ==> chars_le(#[trigger] names[out@[q] as int], names[e as int]),
            decreases out@.len() - p,
        {
            p = p + 1;
        }
        let ghost old_out = out@;
        proof {
            if p < old_out.len() {
                assert(!chars_le(names[old_out[p as int] as int], names[e as int]));
                lemma_chars_le_total(names[old_out[p as int] as int], names[e as int]);
                assert forall|q: int| p <= q < old_out.len() implies chars_le(
                    names[e as int],
                    #[trigger] names[old_out[q] as int],
                ) by {
                    if q > p {
                        assert(chars_le(names[old_out[p as int] as int], names[old_out[q] as int]));
                        lemma_chars_le_trans(
                            names[e as int],
                            names[old_out[p as int] as int],
                            names[old_out[q] as int],
                        );
                    }
                }
            }
        }
        out.insert(p, e);
        proof {
            let s = out@;
            assert(s == old_out.insert(p as int, e));
            assert forall|i: int, j: int| 0 <= i < j < s.len() implies chars_le(
                #[trigger] names[s[i] as int],
                #[trigger] names[s[j] as int],
            ) by {
                if j < p {
                    assert(s[i] == old_out[i] && s[j] == old_out[j]);
                } else if j == p {
                    assert(s[i] == old_out[i]);
                } else if i == p {
                    assert(s[j] == old_out[j - 1]);
                } else if i < p {
                    assert(s[i] == old_out[i] && s[j] == old_out[j - 1]);
                    lemma_chars_le_trans(names[s[i] as int], names[e as int], names[s[j] as int]);
                } else {
                    assert(s[i] == old_out[i - 1] && s[j] == old_out[j - 1]);
                }
            }
            vstd::seq_lib::to_multiset_insert(old_out, p as int, e);
            assert(s.to_multiset() == old_out.to_multiset().insert(e));
            assert(out@.to_multiset().add(rest@.to_multiset()) =~= v@.to_multiset());
        }
    }
    proof {
        assert(rest@.to_multiset() =~= vstd::multiset::Multiset::<Symbol>::empty());
        assert(out@.to_multiset() =~= v@.to_multiset());
    }
    out
}

/// The set of symbols declared dynamic variables.
pub struct DynamicVars {
    set: std::collections::HashSet<Symbol>,
}

impl DynamicVars {
    pub closed spec fn view(&self) -> Set<Symbol> {
        self.set@
    }

    /// No dynamic variables yet.
    pub fn new() -> (r: DynamicVars)
        ensures
            r@ == Set::<Symbol>::empty(),
    {
        DynamicVars { set: std::collections::HashSet::new() }
    }
}

/// Mark `sym` as a dynamic variable (idempotent).
pub fn mark_dynamic(vars: &mut DynamicVars, sym: Symbol)
    ensures
        final(vars)@ == old(vars)@.insert(sym),
{
    vars.set.insert(sym);
}

/// Has `sym` been declared dynamic?
pub fn is_dynamic(vars: &DynamicVars, sym: Symbol) -> (r: bool)
    ensures
        r == vars@.contains(sym),
{
    vars.set.contains(&sym)
}

} // verus!
