//! Rooting names to the active package: while a dependency loads, a reference to
//! one of the modules it provides is rewritten to `prefix/module`, and a qualified
//! reference `module/name` to `prefix/module/name`. Every other name is left as
//! it is.

use vstd::prelude::*;
use crate::value::Symbol;
use crate::heap::Heap;
use crate::symbols::{SymbolTable, intern, intern_existing, symbol_name};

verus! {

broadcast use vstd::std_specs::hash::group_hash_axioms;

/// The spelling `prefix/name`.
pub open spec fn rooted_spelling(prefix: Seq<char>, name: Seq<char>) -> Seq<char> {
    prefix + seq!['/'] + name
}

/// The position of the last `/` in `s`, if any.
pub open spec fn last_slash(s: Seq<char>) -> Option<int>
    decreases s.len(),
{
    if s.len() == 0 {
        None
    } else if s.last() == '/' {
        Some(s.len() - 1)
    } else {
        last_slash(s.drop_last())
    }
}

/// Where the last `/` is, it lies inside the spelling.
pub proof fn lemma_last_slash_bounds(s: Seq<char>)
    ensures
        last_slash(s) matches Some(k) ==> 0 <= k < s.len() && s[k] == '/',
    decreases s.len(),
{
    if s.len() > 0 && s.last() != '/' {
        lemma_last_slash_bounds(s.drop_last());
    }
}

/// The position of the last `/` in `s`.
pub fn find_last_slash(s: &str) -> (r: Option<usize>)
    ensures
        r matches Some(k) ==> last_slash(s@) == Some(k as int),
        r is None ==> last_slash(s@) is None,
{
    let n = s.unicode_len();
    let mut i: usize = n;
    proof {
        assert(s@.take(n as int) =~= s@);
    }
    while i > 0
        invariant
            i <= n,
            n == s@.len(),
            last_slash(s@) == last_slash(s@.take(i as int)),
        decreases i,
    {
        let c = s.get_char(i - 1);
        proof {
            assert(s@.take(i as int).last() == c);
            assert(s@.take(i as int).drop_last() =~= s@.take(i - 1));
        }
        if c == '/' {
            return Some(i - 1);
        }
        i = i - 1;
    }
    None
}

/// Is some id in `modules` spelled `module`?
pub open spec fn provides(names: Seq<Seq<char>>, modules: Set<Symbol>, module: Seq<char>) -> bool {
    exists|m: Symbol| #[trigger] modules.contains(m) && m < names.len() && names[m as int] == module
}

/// What rooting a qualified reference `sym` gives, in the package context
/// `(prefix, modules)`: `None` outside a package, for a name with no `/`, or when
/// the part before the last `/` is not one of the package's modules; otherwise
/// the symbol spelled `prefix/sym`.
pub open spec fn rooted_ref_answer(
    names: Seq<Seq<char>>,
    prefix: Option<Symbol>,
    modules: Set<Symbol>,
    sym: Symbol,
    r: Option<Symbol>,
) -> bool {
    match prefix {
        None => r is None,
        Some(p) => match last_slash(names[sym as int]) {
            None => r is None,
            Some(k) => if provides(names, modules, names[sym as int].take(k)) {
                r matches Some(s) && s < names.len() && names[s as int] == rooted_spelling(
                    names[p as int],
                    names[sym as int],
                )
            } else {
                r is None
            },
        },
    }
}

/// A table that only grew: every earlier spelling keeps its id.
pub open spec fn extends(old_names: Seq<Seq<char>>, new_names: Seq<Seq<char>>) -> bool {
    old_names.len() <= new_names.len() && new_names.take(old_names.len() as int) == old_names
}

impl Heap {
    /// Root a referenced module name to the active package: `prefix/module` when a
    /// dependency is loading and `module` is one it provides, else `module`.
    pub fn root_module_name(&mut self, table: &mut SymbolTable, module: Symbol) -> (r: Symbol)
        requires
            old(table).wf(),
            old(table)@.len() < 0xFFFF_FFFF,
            module < old(table)@.len(),
            old(self).cold.package_prefix matches Some(p) ==> p < old(table)@.len(),
        ensures
            *final(self) == *old(self),
            final(table).wf(),
            extends(old(table)@, final(table)@),
            (match old(self).cold.package_prefix {
                Some(p) => if old(self).cold.package_modules@.contains(module) {
                    r < final(table)@.len() && final(table)@[r as int] == rooted_spelling(
                        old(table)@[p as int],
                        old(table)@[module as int],
                    )
                } else {
                    r == module && final(table)@ == old(table)@
                },
                None => r == module && final(table)@ == old(table)@,
            }),
    {
        proof {
            assert(table@.take(table@.len() as int) =~= table@);
        }
        let prefix = match self.cold.package_prefix {
            Some(p) => p,
            None => return module,
        };
        if !self.cold.package_modules.contains(&module) {
            return module;
        }
        let mut rooted = symbol_name(table, prefix);
        proof {
            reveal_strlit("/");
        }
        rooted.append("/");
        let name = symbol_name(table, module);
        rooted.append(name.as_str());
        let ghost before = table@;
        let r = intern(table, rooted.as_str());
        proof {
            assert(rooted@ =~= rooted_spelling(before[prefix as int], before[module as int]));
            assert(table@.take(before.len() as int) =~= before);
        }
        r
    }

    /// The rooting rule for a qualified reference, without the memo.
    pub fn root_qualified_ref_uncached(&self, table: &mut SymbolTable, sym: Symbol) -> (r: Option<
        Symbol,
    >)
        requires
            old(table).wf(),
            old(table)@.len() < 0xFFFF_FFFF,
            sym < old(table)@.len(),
            self.cold.package_prefix matches Some(p) ==> p < old(table)@.len(),
        ensures
            final(table).wf(),
            extends(old(table)@, final(table)@),
            rooted_ref_answer(
                final(table)@,
                self.cold.package_prefix,
                self.cold.package_modules@,
                sym,
                r,
            ),
    {
        let ghost names = table@;
        proof {
            assert(names.take(names.len() as int) =~= names);
        }
        let prefix = match self.cold.package_prefix {
            Some(p) => p,
            None => return None,
        };
        let name = symbol_name(table, sym);
        let split = match find_last_slash(name.as_str()) {
            Some(k) => k,
            None => return None,
        };
        proof {
            lemma_last_slash_bounds(name@);
        }
        let module_s = name.as_str().substring_char(0, split);
        let module = match intern_existing(table, module_s) {
            Some(m) => m,
            None => {
                proof {
                    assert(module_s@ =~= names[sym as int].take(split as int));
                    assert(!provides(names, self.cold.package_modules@, module_s@));
                }
                return None;
            },
        };
        proof {
            assert(module_s@ =~= names[sym as int].take(split as int));
        }
        if !self.cold.package_modules.contains(&module) {
            proof {
                assert(!provides(names, self.cold.package_modules@, module_s@)) by {
                    if provides(names, self.cold.package_modules@, module_s@) {
                        let m = choose|m: Symbol|
                            #[trigger] self.cold.package_modules@.contains(m) && m < names.len()
                                && names[m as int] == module_s@;
                        table.lemma_spellings_distinct(m as int, module as int);
                    }
                }
            }
            return None;
        }
        let mut rooted = symbol_name(table, prefix);
        proof {
            reveal_strlit("/");
        }
        rooted.append("/");
        rooted.append(name.as_str());
        proof {
            assert(rooted@ =~= rooted_spelling(names[prefix as int], names[sym as int]));
            assert(self.cold.package_modules@.contains(module));
            assert(provides(names, self.cold.package_modules@, module_s@));
        }
        let r = intern(table, rooted.as_str());
        proof {
            assert(table@.take(names.len() as int) =~= names);
            assert(table@[sym as int] == names[sym as int]);
            assert(table@[prefix as int] == names[prefix as int]);
            assert(table@[module as int] == names[module as int]);
            assert(provides(table@, self.cold.package_modules@, module_s@));
        }
        Some(r)
    }

    /// Root a qualified reference `module/name` to the active package, through the
    /// memo: a name asked about before in this context gets its recorded answer.
    pub fn root_qualified_ref(&mut self, table: &mut SymbolTable, sym: Symbol) -> (r: Option<Symbol>)
        requires
            old(table).wf(),
            old(table)@.len() < 0xFFFF_FFFF,
            sym < old(table)@.len(),
            old(self).cold.package_prefix matches Some(p) ==> p < old(table)@.len(),
        ensures
            final(table).wf(),
            extends(old(table)@, final(table)@),
            old(self).rooted_ref_ic@.contains_key(sym) ==> r == old(self).rooted_ref_ic@[sym]
                && *final(self) == *old(self) && final(table)@ == old(table)@,
            !old(self).rooted_ref_ic@.contains_key(sym) ==> {
                &&& rooted_ref_answer(
                    final(table)@,
                    old(self).cold.package_prefix,
                    old(self).cold.package_modules@,
                    sym,
                    r,
                )
                &&& final(self).rooted_ref_ic@ == old(self).rooted_ref_ic@.insert(sym, r)
                &&& *final(self) == (Heap { rooted_ref_ic: final(self).rooted_ref_ic, ..*old(self) })
            },
    {
        match self.rooted_ref_ic.get(&sym) {
            Some(cached) => {
                proof {
                    assert(table@.take(table@.len() as int) =~= table@);
                }
                return *cached;
            },
            None => {},
        }
        let answer = self.root_qualified_ref_uncached(table, sym);
        self.rooted_ref_ic.insert(sym, answer);
        answer
    }
}

} // verus!
